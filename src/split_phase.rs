use vstd::prelude::*;

use crate::area::{count_set, disjoint_masks, is_union, lemma_partition_masks, rect_mask};
use crate::error::SplitMergeError;
use crate::image_container::{CutDirection, ImageContainer, ImageContainerSplit};
use crate::split_tree::{leaves, leaves_area, lemma_leaves_area, lemma_leaves_partition, tree_wf, SplitTree};

verus! {

/// The decisions of the split phase: the split tree, the nodes still to be
/// examined, and the number of examinations under way.
pub struct SplitState {
    image: ImageContainer,
    split_tree: Vec<SplitTree>,
    yet_to_split_images: Vec<usize>,
    items_in_queue: usize,
}

impl SplitState {
    /// The image being segmented.
    pub closed spec fn image_spec(&self) -> ImageContainer {
        self.image
    }

    /// The split tree, indexed by node identifier.
    pub closed spec fn tree(&self) -> Seq<SplitTree> {
        self.split_tree@
    }

    /// The nodes not yet handed out for examination; the last goes first.
    pub closed spec fn pending(&self) -> Seq<usize> {
        self.yet_to_split_images@
    }

    /// The number of examinations handed out and not yet answered.
    pub closed spec fn in_flight(&self) -> nat {
        self.items_in_queue as nat
    }

    /// The tree is well formed, its root covers the whole image, and every
    /// pending node exists.
    pub open spec fn wf(&self) -> bool {
        &&& self.image_spec().wf()
        &&& tree_wf(self.tree())
        &&& self.tree().len() >= 1
        &&& self.tree()[0].image == self.image_spec().root_region()
        &&& forall|i: int|
            0 <= i < self.tree().len() ==> (#[trigger] self.tree()[i]).image.inside(
                self.image_spec().height as int,
                self.image_spec().width as int,
            )
        &&& forall|k: int| 0 <= k < self.pending().len() ==> #[trigger] self.pending()[k] < self.tree().len()
        &&& self.pending().len() + self.in_flight() <= self.tree().len()
    }

    /// The state before any cut: the root alone, waiting to be examined.
    pub fn new(image: &ImageContainer) -> (r: SplitState)
        requires
            image.wf(),
        ensures
            r.wf(),
            r.image_spec() == *image,
            r.tree() == seq![SplitTree { id: 0, image: image.root_region(), childs: None }],
            r.pending() == seq![0usize],
            r.in_flight() == 0,
    {
        let root = SplitTree::new(0, image.to_image_container_split());
        let mut split_tree: Vec<SplitTree> = Vec::new();
        split_tree.push(root);
        let mut pending: Vec<usize> = Vec::new();
        pending.push(0);
        let r = SplitState { image: *image, split_tree, yet_to_split_images: pending, items_in_queue: 0 };
        assert(r.tree() =~= seq![SplitTree { id: 0, image: image.root_region(), childs: None }]);
        assert(r.pending() =~= seq![0usize]);
        r
    }

    /// The number of examinations under way.
    pub fn items_in_queue(&self) -> (r: usize)
        ensures
            r == self.in_flight(),
    {
        self.items_in_queue
    }

    /// The split tree.
    pub fn split_tree(&self) -> (r: &Vec<SplitTree>)
        ensures
            r@ == self.tree(),
    {
        &self.split_tree
    }

    /// The image being segmented.
    pub fn image(&self) -> (r: ImageContainer)
        ensures
            r == self.image_spec(),
    {
        self.image
    }

    /// `true` when nothing is pending and no answer is awaited: the phase
    /// is over.
    pub fn is_complete(&self) -> (r: bool)
        ensures
            r == (self.pending().len() == 0 && self.in_flight() == 0),
    {
        self.yet_to_split_images.len() == 0 && self.items_in_queue == 0
    }

    /// Hands out the next pending node for examination: its identifier and
    /// region. `None` when nothing is pending.
    pub fn send_split_request(&mut self) -> (r: Option<(usize, ImageContainerSplit)>)
        requires
            old(self).wf(),
        ensures
            final(self).wf(),
            final(self).image_spec() == old(self).image_spec(),
            final(self).tree() == old(self).tree(),
            old(self).pending().len() == 0 ==> r == None::<(usize, ImageContainerSplit)> && final(self).pending()
                == old(self).pending() && final(self).in_flight() == old(self).in_flight(),
            old(self).pending().len() > 0 ==> {
                let id = old(self).pending().last();
                &&& r == Some((id, old(self).tree()[id as int].image))
                &&& final(self).pending() == old(self).pending().drop_last()
                &&& final(self).in_flight() == old(self).in_flight() + 1
            },
    {
        let tree_len = self.split_tree.len();
        match self.yet_to_split_images.pop() {
            Some(id) => {
                assert(self.items_in_queue + 1 <= tree_len);
                self.items_in_queue = self.items_in_queue + 1;
                Some((id, self.split_tree[id].image))
            },
            None => None,
        }
    }

    /// Applies the answer to one examination: `None` when the region stays
    /// whole, or the proposed cut and the node it applies to.
    ///
    /// A valid cut of a leaf appends its two parts to the tree, as the next
    /// two identifiers, and makes them pending; the parts are returned. The
    /// answer fails with `NotFound` for an unknown node and with
    /// `InvalidSplit` for a node already cut or a cut outside
    /// `0 < offset < extent`; the tree is then left as it was.
    pub fn receive_split_result(&mut self, result: Option<(CutDirection, i32, usize)>) -> (r: Result<
        Option<[(usize, ImageContainerSplit); 2]>,
        SplitMergeError,
    >)
        requires
            old(self).wf(),
            old(self).in_flight() > 0,
            old(self).tree().len() + 2 <= usize::MAX,
        ensures
            final(self).wf(),
            final(self).image_spec() == old(self).image_spec(),
            final(self).in_flight() == old(self).in_flight() - 1,
            match result {
                None => r == Ok::<Option<[(usize, ImageContainerSplit); 2]>, SplitMergeError>(None)
                    && final(self).tree() == old(self).tree() && final(self).pending() == old(
                    self,
                ).pending(),
                Some((d, at, id)) => {
                    let n = old(self).tree().len();
                    if id >= n {
                        r == Err::<Option<[(usize, ImageContainerSplit); 2]>, SplitMergeError>(
                            SplitMergeError::NotFound,
                        ) && final(self).tree() == old(self).tree() && final(self).pending()
                            == old(self).pending()
                    } else if old(self).tree()[id as int].childs is Some || !old(
                        self,
                    ).tree()[id as int].image.valid_cut(d, at as int) {
                        r == Err::<Option<[(usize, ImageContainerSplit); 2]>, SplitMergeError>(
                            SplitMergeError::InvalidSplit,
                        ) && final(self).tree() == old(self).tree() && final(self).pending()
                            == old(self).pending()
                    } else {
                        let parent = old(self).tree()[id as int].image;
                        let first = parent.first_part(d, at as int);
                        let second = parent.second_part(d, at as int);
                        &&& r == Ok::<Option<[(usize, ImageContainerSplit); 2]>, SplitMergeError>(
                            Some([(n as usize, first), ((n + 1) as usize, second)]),
                        )
                        &&& final(self).tree() == old(self).tree().update(
                            id as int,
                            SplitTree { id, image: parent, childs: Some([n as usize, (n + 1) as usize]) },
                        ).push(SplitTree { id: n as usize, image: first, childs: None }).push(
                            SplitTree { id: (n + 1) as usize, image: second, childs: None },
                        )
                        &&& final(self).pending() == old(self).pending().push(n as usize).push(
                            (n + 1) as usize,
                        )
                    }
                },
            },
    {
        self.items_in_queue = self.items_in_queue - 1;
        let (direction, split_at, id_splitted) = match result {
            Some(e) => e,
            None => {
                return Ok(None);
            },
        };
        if id_splitted >= self.split_tree.len() {
            return Err(SplitMergeError::NotFound);
        }
        let node = self.split_tree[id_splitted];
        if node.childs.is_some() {
            return Err(SplitMergeError::InvalidSplit);
        }
        let parts = match node.image.split(direction, split_at) {
            Ok(p) => p,
            Err(e) => {
                return Err(e);
            },
        };
        let ghost old_tree = self.split_tree@;
        proof {
            crate::image_container::lemma_split_partitions(node.image, direction, split_at as int);
        }
        let id_1 = self.split_tree.len();
        let id_2 = id_1 + 1;
        self.split_tree.set(id_splitted, SplitTree { id: id_splitted, image: node.image, childs: Some([id_1, id_2]) });
        self.split_tree.push(SplitTree::new(id_1, parts[0]));
        self.split_tree.push(SplitTree::new(id_2, parts[1]));
        self.yet_to_split_images.push(id_1);
        self.yet_to_split_images.push(id_2);
        proof {
            let t = self.split_tree@;
            assert forall|i: int| 0 <= i < t.len() implies (#[trigger] t[i]).id == i && t[i].image.wf() by {
                if i < old_tree.len() && i != id_splitted {
                    assert(t[i] == old_tree[i]);
                }
            }
            assert forall|i: int|
                0 <= i < t.len() && (#[trigger] t[i]).childs is Some implies {
                    let a = t[i].childs.unwrap()[0] as int;
                    let b = t[i].childs.unwrap()[1] as int;
                    &&& i < a < t.len()
                    &&& i < b < t.len()
                    &&& t[i].image.partitioned_by(t[a].image, t[b].image)
                } by {
                if i != id_splitted {
                    assert(t[i] == old_tree[i]);
                    let a = t[i].childs.unwrap()[0] as int;
                    let b = t[i].childs.unwrap()[1] as int;
                    assert(t[a].image == old_tree[a].image);
                    assert(t[b].image == old_tree[b].image);
                }
            }
        }
        Ok(Some([(id_1, parts[0]), (id_2, parts[1])]))
    }
}

/// Throughout the split phase, the leaves of the split tree divide the
/// image: each pixel of the image lies in exactly one leaf, no leaf holds a
/// pixel outside it, no two leaves share a pixel, and their areas add up to
/// the image's.
pub proof fn lemma_split_partition(s: SplitState)
    requires
        s.wf(),
    ensures
        forall|x: int, y: int|
            s.image_spec().root_region().contains(x, y) <==> exists|k: int|
                0 <= k < leaves(s.tree(), 0).len() && (#[trigger] leaves(s.tree(), 0)[k]).1.contains(x, y),
        forall|k1: int, k2: int, x: int, y: int|
            0 <= k1 < leaves(s.tree(), 0).len() && 0 <= k2 < leaves(s.tree(), 0).len() && k1 != k2 ==> !(
            #[trigger] leaves(s.tree(), 0)[k1].1.contains(x, y) && #[trigger] leaves(s.tree(), 0)[k2].1.contains(x, y)),
        leaves_area(leaves(s.tree(), 0)) == s.image_spec().width * s.image_spec().height,
{
    lemma_leaves_partition(s.tree(), 0);
    lemma_leaves_area(s.tree(), 0);
}

/// For every node that was cut, the masks of its two parts over the image
/// share no pixel, together form the mask of the node (a rectangle, hence its
/// own convex hull), and that holds as many pixels as both parts; each part
/// lies inside the image.
pub proof fn lemma_split_masks_disjoint(s: SplitState, i: int)
    requires
        s.wf(),
        0 <= i < s.tree().len(),
        s.tree()[i].childs is Some,
    ensures
        ({
            let rows = s.image_spec().height as int;
            let cols = s.image_spec().width as int;
            let p = s.tree()[i].image;
            let a = s.tree()[s.tree()[i].childs.unwrap()[0] as int].image;
            let b = s.tree()[s.tree()[i].childs.unwrap()[1] as int].image;
            &&& a.inside(rows, cols)
            &&& b.inside(rows, cols)
            &&& disjoint_masks(rect_mask(a, rows, cols), rect_mask(b, rows, cols))
            &&& is_union(rect_mask(p, rows, cols), rect_mask(a, rows, cols), rect_mask(b, rows, cols))
            &&& count_set(rect_mask(p, rows, cols)) == count_set(rect_mask(a, rows, cols)) + count_set(
                rect_mask(b, rows, cols),
            )
        }),
{
    let t = s.tree();
    assert(tree_wf(t));
    let ia = t[i].childs.unwrap()[0] as int;
    let ib = t[i].childs.unwrap()[1] as int;
    assert(t[ia] == t[ia]);
    assert(t[ib] == t[ib]);
    lemma_partition_masks(t[i].image, t[ia].image, t[ib].image, s.image_spec().height as int, s.image_spec().width as int);
}

} // verus!
