use vstd::prelude::*;

use crate::image_container::ImageContainerSplit;

verus! {

/// A node of the split tree: a region and, once it is cut, the identifiers
/// of its two parts.
#[derive(Debug, Clone, Copy, PartialEq, Eq)]
pub struct SplitTree {
    pub id: usize,
    pub image: ImageContainerSplit,
    pub childs: Option<[usize; 2]>,
}

/// The tree is stored by identifier, every region is valid, and a cut
/// node's parts come after it and divide its region.
pub open spec fn tree_wf(t: Seq<SplitTree>) -> bool {
    &&& forall|i: int| 0 <= i < t.len() ==> (#[trigger] t[i]).id == i && t[i].image.wf()
    &&& forall|i: int|
        0 <= i < t.len() && (#[trigger] t[i]).childs is Some ==> {
            let a = t[i].childs.unwrap()[0] as int;
            let b = t[i].childs.unwrap()[1] as int;
            &&& i < a < t.len()
            &&& i < b < t.len()
            &&& t[i].image.partitioned_by(t[a].image, t[b].image)
            &&& t[a].image.area() + t[b].image.area() == t[i].image.area()
        }
}

/// The total area of a sequence of leaves.
pub open spec fn leaves_area(s: Seq<(usize, ImageContainerSplit)>) -> int
    decreases s.len(),
{
    if s.len() == 0 {
        0
    } else {
        leaves_area(s.drop_last()) + s.last().1.area()
    }
}

proof fn lemma_leaves_area_concat(a: Seq<(usize, ImageContainerSplit)>, b: Seq<(usize, ImageContainerSplit)>)
    ensures
        leaves_area(a + b) == leaves_area(a) + leaves_area(b),
    decreases b.len(),
{
    if b.len() > 0 {
        assert((a + b).drop_last() =~= a + b.drop_last());
        lemma_leaves_area_concat(a, b.drop_last());
    }
}

/// The areas of the leaves under a node add up to the node's area.
pub proof fn lemma_leaves_area(t: Seq<SplitTree>, i: int)
    requires
        tree_wf(t),
        0 <= i < t.len(),
    ensures
        leaves_area(leaves(t, i)) == t[i].image.area(),
    decreases t.len() - i,
{
    match t[i].childs {
        Some(c) => {
            assert(t[i].childs is Some);
            lemma_leaves_area(t, c[0] as int);
            lemma_leaves_area(t, c[1] as int);
            lemma_leaves_area_concat(leaves(t, c[0] as int), leaves(t, c[1] as int));
            assert(leaves(t, i) == leaves(t, c[0] as int) + leaves(t, c[1] as int));
        },
        None => {
            let l = leaves(t, i);
            assert(l.len() == 1 && l.last() == (i as usize, t[i].image));
            assert(l.drop_last() =~= Seq::<(usize, ImageContainerSplit)>::empty());
            assert(leaves_area(Seq::<(usize, ImageContainerSplit)>::empty()) == 0);
        },
    }
}

/// The leaves under node `i`, left part first.
pub open spec fn leaves(t: Seq<SplitTree>, i: int) -> Seq<(usize, ImageContainerSplit)>
    decreases t.len() - i,
{
    if i < 0 || i >= t.len() {
        Seq::empty()
    } else {
        match t[i].childs {
            Some(c) => if i < c[0] < t.len() && i < c[1] < t.len() {
                leaves(t, c[0] as int) + leaves(t, c[1] as int)
            } else {
                Seq::empty()
            },
            None => seq![(i as usize, t[i].image)],
        }
    }
}

/// The leaves under a node divide its region: each of its pixels lies in
/// exactly one leaf, and no leaf holds a pixel outside it.
pub proof fn lemma_leaves_partition(t: Seq<SplitTree>, i: int)
    requires
        tree_wf(t),
        0 <= i < t.len(),
    ensures
        forall|x: int, y: int|
            t[i].image.contains(x, y) <==> exists|k: int|
                0 <= k < leaves(t, i).len() && (#[trigger] leaves(t, i)[k]).1.contains(x, y),
        forall|k1: int, k2: int, x: int, y: int|
            0 <= k1 < leaves(t, i).len() && 0 <= k2 < leaves(t, i).len() && k1 != k2 ==> !(
            #[trigger] leaves(t, i)[k1].1.contains(x, y) && #[trigger] leaves(t, i)[k2].1.contains(x, y)),
        forall|k: int| 0 <= k < leaves(t, i).len() ==> (#[trigger] leaves(t, i)[k]).1.wf(),
        forall|k: int|
            0 <= k < leaves(t, i).len() ==> (#[trigger] leaves(t, i)[k]).0 < t.len() && leaves(t, i)[k].1
                == t[leaves(t, i)[k].0 as int].image,
    decreases t.len() - i,
{
    let l = leaves(t, i);
    match t[i].childs {
        Some(c) => {
            assert(t[i].childs is Some);
            let a = c[0] as int;
            let b = c[1] as int;
            lemma_leaves_partition(t, a);
            lemma_leaves_partition(t, b);
            let la = leaves(t, a);
            let lb = leaves(t, b);
            assert(l == la + lb);
            assert forall|x: int, y: int| t[i].image.contains(x, y) implies exists|k: int|
                0 <= k < l.len() && (#[trigger] l[k]).1.contains(x, y) by {
                if t[a].image.contains(x, y) {
                    let k = choose|k: int| 0 <= k < la.len() && (#[trigger] la[k]).1.contains(x, y);
                    assert(l[k] == la[k]);
                } else {
                    assert(t[b].image.contains(x, y));
                    let k = choose|k: int| 0 <= k < lb.len() && (#[trigger] lb[k]).1.contains(x, y);
                    assert(l[la.len() + k] == lb[k]);
                }
            }
            assert forall|x: int, y: int|
                (exists|k: int| 0 <= k < l.len() && (#[trigger] l[k]).1.contains(x, y)) implies t[i].image.contains(x, y) by {
                let k = choose|k: int| 0 <= k < l.len() && (#[trigger] l[k]).1.contains(x, y);
                if k < la.len() {
                    assert(la[k] == l[k]);
                    assert(t[a].image.contains(x, y));
                } else {
                    assert(lb[k - la.len()] == l[k]);
                    assert(t[b].image.contains(x, y));
                }
            }
            assert forall|k1: int, k2: int, x: int, y: int|
                0 <= k1 < l.len() && 0 <= k2 < l.len() && k1 != k2 implies !(
                #[trigger] l[k1].1.contains(x, y) && #[trigger] l[k2].1.contains(x, y)) by {
                if l[k1].1.contains(x, y) && l[k2].1.contains(x, y) {
                    if k1 < la.len() && k2 < la.len() {
                        assert(la[k1] == l[k1] && la[k2] == l[k2]);
                    } else if k1 >= la.len() && k2 >= la.len() {
                        assert(lb[k1 - la.len()] == l[k1] && lb[k2 - la.len()] == l[k2]);
                    } else if k1 < la.len() {
                        assert(la[k1] == l[k1] && lb[k2 - la.len()] == l[k2]);
                        assert(t[a].image.contains(x, y));
                        assert(t[b].image.contains(x, y));
                    } else {
                        assert(lb[k1 - la.len()] == l[k1] && la[k2] == l[k2]);
                        assert(t[a].image.contains(x, y));
                        assert(t[b].image.contains(x, y));
                    }
                }
            }
            assert forall|k: int| 0 <= k < l.len() implies (#[trigger] l[k]).1.wf() && l[k].0 < t.len() && l[k].1
                == t[l[k].0 as int].image by {
                if k < la.len() {
                    assert(la[k] == l[k]);
                } else {
                    assert(lb[k - la.len()] == l[k]);
                }
            }
        },
        None => {
            assert(l[0] == (i as usize, t[i].image));
        },
    }
}

/// No identifier occurs twice among the leaves under a node.
pub proof fn lemma_leaf_ids_distinct(t: Seq<SplitTree>, i: int)
    requires
        tree_wf(t),
        0 <= i < t.len(),
    ensures
        forall|k1: int, k2: int|
            0 <= k1 < leaves(t, i).len() && 0 <= k2 < leaves(t, i).len() && k1 != k2 ==> (#[trigger] leaves(t, i)[k1]).0
                != (#[trigger] leaves(t, i)[k2]).0,
{
    lemma_leaves_partition(t, i);
    let l = leaves(t, i);
    assert forall|k1: int, k2: int|
        0 <= k1 < l.len() && 0 <= k2 < l.len() && k1 != k2 implies (#[trigger] l[k1]).0 != (#[trigger] l[k2]).0 by {
        if l[k1].0 == l[k2].0 {
            let r = l[k1].1;
            assert(r.contains(r.x_start as int, r.y_start as int));
            assert(l[k2].1.contains(r.x_start as int, r.y_start as int));
        }
    }
}

impl SplitTree {
    /// A leaf node.
    pub fn new(id: usize, image: ImageContainerSplit) -> (r: SplitTree)
        ensures
            r == (SplitTree { id, image, childs: None }),
    {
        SplitTree { id, image, childs: None }
    }

    /// Appends to `accumulator`, in pre-order, the identifier and region of
    /// every leaf under this node.
    pub fn collect_leafs(
        &self,
        others: &Vec<SplitTree>,
        accumulator: &mut Vec<(usize, ImageContainerSplit)>,
    )
        requires
            tree_wf(others@),
            self.id < others@.len(),
            others@[self.id as int] == *self,
        ensures
            final(accumulator)@ == old(accumulator)@ + leaves(others@, self.id as int),
        decreases others@.len() - self.id,
    {
        match self.childs {
            Some(c) => {
                assert(others@[self.id as int].childs is Some);
                let a = c[0];
                let b = c[1];
                let ghost mid_start = accumulator@;
                others[a].collect_leafs(others, accumulator);
                others[b].collect_leafs(others, accumulator);
                assert(accumulator@ =~= mid_start + leaves(others@, self.id as int));
            },
            None => {
                accumulator.push((self.id, self.image));
                assert(accumulator@ =~= old(accumulator)@ + leaves(others@, self.id as int));
            },
        }
    }
}

} // verus!
