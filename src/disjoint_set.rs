use std::collections::HashMap;
use std::collections::HashSet;

use vstd::prelude::*;

use crate::error::SplitMergeError;
use crate::id_list::{contains_id, copy_ids, insert_id, without_id};

verus! {

broadcast use vstd::std_specs::hash::group_hash_axioms;

/// One node of the forest: its identifier, its parent, and the identifiers
/// of the regions adjacent to it.
#[derive(Debug)]
pub struct DisjointSet {
    pub id: usize,
    pub father: usize,
    pub neighbors: Vec<usize>,
}

/// A disjoint-set forest over region identifiers, with a set of adjacent
/// regions kept for each node.
///
/// Every live identifier leads, through its parents, to a root; the roots are
/// the current regions. Merging two regions makes a fresh node the parent of
/// both roots.
pub struct DisjointSets {
    items: HashMap<usize, DisjointSet>,
    root_items: Vec<usize>,
    /// The root that each live identifier leads to.
    root_of: Ghost<Map<usize, usize>>,
    /// Strictly grows from a node to its parent; bounds the walk to a root.
    rank: Ghost<Map<usize, nat>>,
    max_rank: Ghost<nat>,
}

/// The root map after a node `new_id` becomes the parent of the roots of
/// `a` and `b`: every identifier that led to either of them now leads to
/// `new_id`.
pub open spec fn united(m: Map<usize, usize>, new_id: usize, a: usize, b: usize) -> Map<usize, usize> {
    Map::new(
        |v: usize| m.contains_key(v) || v == new_id,
        |v: usize|
            if v == new_id || m[v] == m[a] || m[v] == m[b] {
                new_id
            } else {
                m[v]
            },
    )
}

/// The neighbor set of a root after compaction: the current root of each
/// neighbor, without the root itself.
pub open spec fn compacted(n: Set<usize>, m: Map<usize, usize>, r: usize) -> Set<usize> {
    n.map(|x: usize| m[x]).remove(r)
}

/// The neighbor map after `a` and `b` are recorded as adjacent.
pub open spec fn linked(m: Map<usize, Set<usize>>, a: usize, b: usize) -> Map<usize, Set<usize>> {
    let m1 = m.insert(a, m[a].insert(b));
    m1.insert(b, m1[b].insert(a))
}

/// The neighbor map after `a` and `b` are no longer recorded as adjacent.
pub open spec fn unlinked(m: Map<usize, Set<usize>>, a: usize, b: usize) -> Map<usize, Set<usize>> {
    let m1 = m.insert(a, m[a].remove(b));
    m1.insert(b, m1[b].remove(a))
}

/// Adding `y` to a neighbor set adds its root, unless that is `r`.
pub proof fn lemma_compacted_insert(n: Set<usize>, m: Map<usize, usize>, r: usize, y: usize)
    ensures
        compacted(n.insert(y), m, r) == (if m[y] == r {
            compacted(n, m, r)
        } else {
            compacted(n, m, r).insert(m[y])
        }),
{
    let lhs = compacted(n.insert(y), m, r);
    let rhs = if m[y] == r {
        compacted(n, m, r)
    } else {
        compacted(n, m, r).insert(m[y])
    };
    assert forall|x: usize| #[trigger] lhs.contains(x) implies rhs.contains(x) by {
        let w = choose|w: usize| n.insert(y).contains(w) && m[w] == x;
        if w != y {
            assert(n.contains(w));
        }
    }
    assert forall|x: usize| #[trigger] rhs.contains(x) implies lhs.contains(x) by {
        if x != m[y] {
            let w = choose|w: usize| n.contains(w) && m[w] == x;
            assert(n.insert(y).contains(w));
        } else {
            assert(n.insert(y).contains(y));
        }
    }
    assert(lhs =~= rhs);
}

/// Merging two disjoint pairs of regions, in one order or the other, groups
/// the identifiers present before in the same way: two of them share a root
/// after both merges in one order exactly when they do in the other.
pub proof fn lemma_disjoint_merges_commute(
    ds: DisjointSets,
    a: usize,
    b: usize,
    c: usize,
    d: usize,
    n1: usize,
    n2: usize,
)
    requires
        ds.wf(),
        ds.live().contains(a),
        ds.live().contains(b),
        ds.live().contains(c),
        ds.live().contains(d),
        !ds.live().contains(n1),
        !ds.live().contains(n2),
        n1 != n2,
        ds.root_map()[a] != ds.root_map()[c],
        ds.root_map()[a] != ds.root_map()[d],
        ds.root_map()[b] != ds.root_map()[c],
        ds.root_map()[b] != ds.root_map()[d],
    ensures
        forall|u: usize, v: usize|
            #![trigger ds.live().contains(u), ds.live().contains(v)]
            ds.live().contains(u) && ds.live().contains(v) ==> ((united(
                united(ds.root_map(), n1, a, b),
                n2,
                c,
                d,
            )[u] == united(united(ds.root_map(), n1, a, b), n2, c, d)[v]) <==> (united(
                united(ds.root_map(), n1, c, d),
                n2,
                a,
                b,
            )[u] == united(united(ds.root_map(), n1, c, d), n2, a, b)[v])),
{
    ds.lemma_wf_facts();
    let m = ds.root_map();
    let x1 = united(m, n1, a, b);
    let y1 = united(m, n1, c, d);
    assert(x1[c] == m[c]);
    assert(x1[d] == m[d]);
    assert(y1[a] == m[a]);
    assert(y1[b] == m[b]);
    assert forall|u: usize| ds.live().contains(u) implies m[u] != n1 && m[u] != n2 by {
        assert(ds.roots().contains(m[u]));
    }
}

/// Merging a region with itself in a forest of a single identifier leaves
/// exactly one root: the new one.
pub proof fn lemma_unite_single(before: DisjointSets, after: DisjointSets, new_id: usize, a: usize)
    requires
        before.wf(),
        before.live() == Set::<usize>::empty().insert(a),
        new_id != a,
        after.is_union_of(before, new_id, a, a),
    ensures
        after.roots() == Set::<usize>::empty().insert(new_id),
{
    before.lemma_wf_facts();
    assert(before.live().contains(a));
    assert(before.roots().contains(before.root_map()[a]));
    assert(before.roots() =~= Set::<usize>::empty().insert(a));
    assert(after.roots() =~= Set::<usize>::empty().insert(new_id));
}

/// Two rounds of path compression are one.
proof fn lemma_compressed_trans(c: DisjointSets, b: DisjointSets, a: DisjointSets)
    requires
        c.compressed_from(b),
        b.compressed_from(a),
    ensures
        c.compressed_from(a),
{
}

/// `x` occurs in one of the pairs.
pub open spec fn paired(p: Seq<[usize; 2]>, x: usize) -> bool {
    exists|i: int| 0 <= i < p.len() && (p[i][0] == x || p[i][1] == x)
}

impl DisjointSet {
    /// The root that this node leads to in `others`, found by following
    /// parents.
    pub fn get_father(&self, others: &DisjointSets) -> (r: usize)
        requires
            others.wf(),
            others.live().contains(self.id),
            others.fathers()[self.id] == self.father,
        ensures
            r == others.root_map()[self.id],
    {
        reveal(DisjointSets::wf);
        let mut cur = self.father;
        while others.items.get(&cur).unwrap().father != cur
            invariant
                others.wf(),
                others.items@.contains_key(cur),
                others.root_of@[cur] == others.root_of@[self.id],
            decreases others.max_rank@ - others.rank@[cur],
        {
            reveal(DisjointSets::wf);
            cur = others.items.get(&cur).unwrap().father;
        }
        cur
    }

    /// Sets the parent of this node.
    pub fn set_father(&mut self, new_father: usize)
        ensures
            final(self).father == new_father,
            final(self).id == old(self).id,
            final(self).neighbors@ == old(self).neighbors@,
    {
        self.father = new_father;
    }
}

impl DisjointSets {
    /// The identifiers present in the forest.
    pub closed spec fn live(&self) -> Set<usize> {
        self.items@.dom()
    }

    /// The current roots: the identifiers that are their own parent.
    pub closed spec fn roots(&self) -> Set<usize> {
        self.root_items@.to_set()
    }

    /// The root that each live identifier leads to.
    pub closed spec fn root_map(&self) -> Map<usize, usize> {
        self.root_of@
    }

    /// The parent of each live identifier.
    pub closed spec fn fathers(&self) -> Map<usize, usize> {
        Map::new(|v: usize| self.items@.contains_key(v), |v: usize| self.items@[v].father)
    }

    /// The neighbor set recorded for each live identifier.
    pub closed spec fn neighbor_map(&self) -> Map<usize, Set<usize>> {
        Map::new(
            |v: usize| self.items@.contains_key(v),
            |v: usize| self.items@[v].neighbors@.to_set(),
        )
    }

    /// Both forests hold the same identifiers, parents, roots and neighbors.
    pub open spec fn same_view(&self, other: DisjointSets) -> bool {
        &&& self.live() == other.live()
        &&& self.roots() == other.roots()
        &&& self.root_map() == other.root_map()
        &&& self.neighbor_map() == other.neighbor_map()
        &&& self.fathers() == other.fathers()
    }

    /// `self` is `old` after some parents were moved straight to their root.
    spec fn compressed_from(&self, old: DisjointSets) -> bool {
        &&& self.items@.dom() == old.items@.dom()
        &&& self.root_items == old.root_items
        &&& self.root_of == old.root_of
        &&& self.rank == old.rank
        &&& self.max_rank == old.max_rank
        &&& forall|u: usize| #[trigger]
            old.items@.contains_key(u) ==> {
                &&& self.items@[u].id == old.items@[u].id
                &&& self.items@[u].neighbors == old.items@[u].neighbors
                &&& (self.items@[u].father == old.items@[u].father || self.items@[u].father
                    == old.root_of@[u])
            }
    }

    proof fn lemma_compressed_view(&self, old: DisjointSets)
        requires
            self.compressed_from(old),
        ensures
            self.live() == old.live(),
            self.roots() == old.roots(),
            self.root_map() == old.root_map(),
            self.neighbor_map() == old.neighbor_map(),
    {
        assert(self.neighbor_map() =~= old.neighbor_map());
    }

    /// `self` is `old` after `new_id` became the parent of the roots of `a`
    /// and `b`, taking the union of their neighbor sets.
    pub open spec fn is_union_of(&self, old: DisjointSets, new_id: usize, a: usize, b: usize) -> bool {
        let ra = old.root_map()[a];
        let rb = old.root_map()[b];
        &&& self.live() == old.live().insert(new_id)
        &&& self.roots() == old.roots().remove(ra).remove(rb).insert(new_id)
        &&& self.root_map() == united(old.root_map(), new_id, a, b)
        &&& self.neighbor_map() == old.neighbor_map().insert(
            new_id,
            old.neighbor_map()[ra].union(old.neighbor_map()[rb]),
        )
        &&& self.fathers()[ra] == new_id
        &&& self.fathers()[rb] == new_id
        &&& self.fathers()[new_id] == new_id
    }

    /// The invariant of the forest.
    #[verifier::opaque]
    pub closed spec fn wf(&self) -> bool {
        &&& forall|v: usize| #[trigger] self.items@.contains_key(v) ==> self.items@[v].id == v
        &&& forall|v: usize| #[trigger]
            self.items@.contains_key(v) ==> self.items@.contains_key(self.items@[v].father)
        &&& self.root_items@.no_duplicates()
        &&& forall|v: usize| #[trigger]
            self.root_items@.contains(v) <==> (self.items@.contains_key(v) && self.items@[v].father
                == v)
        &&& self.root_of@.dom() == self.items@.dom()
        &&& self.rank@.dom() == self.items@.dom()
        &&& forall|v: usize| #[trigger]
            self.items@.contains_key(v) ==> {
                let r = self.root_of@[v];
                let f = self.items@[v].father;
                &&& self.items@.contains_key(r)
                &&& self.items@[r].father == r
                &&& self.root_of@[f] == r
                &&& (f == v ==> r == v)
                &&& self.rank@[v] <= self.max_rank@
                &&& (f != v ==> self.rank@[f] > self.rank@[v] && self.rank@[r] > self.rank@[v])
            }
        &&& forall|v: usize, n: usize|
            self.items@.contains_key(v) && #[trigger] self.items@[v].neighbors@.contains(n)
                ==> self.items@.contains_key(n)
    }

    /// The facts of the invariant that callers rely on: every live
    /// identifier leads to a live root, the roots are exactly the live
    /// identifiers that are their own parent, and every recorded neighbor is
    /// live.
    pub proof fn lemma_wf_facts(&self)
        requires
            self.wf(),
        ensures
            self.root_map().dom() == self.live(),
            self.roots().subset_of(self.live()),
            self.neighbor_map().dom() == self.live(),
            self.fathers().dom() == self.live(),
            forall|v: usize| #[trigger]
                self.live().contains(v) ==> self.roots().contains(self.root_map()[v]),
            forall|v: usize| #[trigger]
                self.live().contains(v) ==> (self.roots().contains(v) <==> self.fathers()[v] == v),
            forall|v: usize| #[trigger]
                self.roots().contains(v) ==> self.root_map()[v] == v,
            forall|v: usize| #[trigger]
                self.live().contains(v) ==> self.root_map()[self.fathers()[v]] == self.root_map()[v],
            forall|v: usize, n: usize|
                self.live().contains(v) && #[trigger] self.neighbor_map()[v].contains(n)
                    ==> self.live().contains(n),
    {
        reveal(DisjointSets::wf);
        assert(self.root_map().dom() =~= self.live());
        assert(self.neighbor_map().dom() =~= self.live());
        assert(self.fathers().dom() =~= self.live());
        assert forall|v: usize, n: usize|
            self.live().contains(v) && #[trigger] self.neighbor_map()[v].contains(n)
                implies self.live().contains(n) by {
            assert(self.items@[v].neighbors@.contains(n));
        }
    }

    /// An empty forest.
    pub fn new() -> (r: DisjointSets)
        ensures
            r.wf(),
            r.live() == Set::<usize>::empty(),
            r.roots() == Set::<usize>::empty(),
    {
        reveal(DisjointSets::wf);
        let r = DisjointSets {
            items: HashMap::new(),
            root_items: Vec::new(),
            root_of: Ghost(Map::empty()),
            rank: Ghost(Map::empty()),
            max_rank: Ghost(0),
        };
        assert(r.roots() =~= Set::<usize>::empty());
        r
    }

    /// Inserts `id` as a region of its own, with no neighbors.
    ///
    /// Fails with `DuplicateId` when `id` is already present.
    pub fn add_item(&mut self, id: usize) -> (r: Result<(), SplitMergeError>)
        requires
            old(self).wf(),
        ensures
            final(self).wf(),
            old(self).live().contains(id) ==> r == Err::<(), SplitMergeError>(
                SplitMergeError::DuplicateId,
            ) && final(self).same_view(*old(self)),
            !old(self).live().contains(id) ==> {
                &&& r == Ok::<(), SplitMergeError>(())
                &&& final(self).live() == old(self).live().insert(id)
                &&& final(self).roots() == old(self).roots().insert(id)
                &&& final(self).root_map() == old(self).root_map().insert(id, id)
                &&& final(self).neighbor_map() == old(self).neighbor_map().insert(id, Set::<usize>::empty())
                &&& final(self).fathers() == old(self).fathers().insert(id, id)
            },
    {
        reveal(DisjointSets::wf);
        if self.items.contains_key(&id) {
            return Err(SplitMergeError::DuplicateId);
        }
        let ghost old_self = *self;
        self.items.insert(id, DisjointSet { id, father: id, neighbors: Vec::new() });
        proof {
            crate::id_list::lemma_push_contains(self.root_items@, id);
        }
        self.root_items.push(id);
        self.root_of = Ghost(self.root_of@.insert(id, id));
        self.rank = Ghost(self.rank@.insert(id, 0));
        proof {
            assert(self.root_items@.no_duplicates()) by {
                assert(!old_self.root_items@.contains(id));
            }
            assert(self.root_of@.dom() =~= self.items@.dom());
            assert(self.rank@.dom() =~= self.items@.dom());
            assert(self.roots() =~= old_self.roots().insert(id));
            assert(self.root_map() =~= old_self.root_map().insert(id, id));
            assert(self.items@[id].neighbors@.to_set() =~= Set::<usize>::empty());
            assert(self.neighbor_map() =~= old_self.neighbor_map().insert(id, Set::<usize>::empty()));
            assert(self.fathers() =~= old_self.fathers().insert(id, id));
        }
        Ok(())
    }

    /// The root that `v` leads to; on the way, each visited node gets its
    /// root as parent.
    fn find(&mut self, v: usize) -> (r: usize)
        requires
            old(self).wf(),
            old(self).items@.contains_key(v),
        ensures
            final(self).wf(),
            final(self).compressed_from(*old(self)),
            r == old(self).root_of@[v],
            forall|u: usize|
                old(self).items@.contains_key(u) && #[trigger] old(self).rank@[u] < old(self).rank@[v]
                    ==> final(self).items@[u] == old(self).items@[u],
        decreases old(self).max_rank@ - old(self).rank@[v],
    {
        reveal(DisjointSets::wf);
        let f = self.items.get(&v).unwrap().father;
        if f == v {
            return v;
        }
        let ghost before = *self;
        let r = self.find(f);
        let ghost mid = *self;
        let mut node = self.items.remove(&v).unwrap();
        node.father = r;
        self.items.insert(v, node);
        proof {
            assert(mid.items@[v] == before.items@[v]);
            assert(self.items@.dom() =~= before.items@.dom());
            assert forall|u: usize| #[trigger] self.items@.contains_key(u) implies self.items@.contains_key(
                self.items@[u].father,
            ) by {
                if u != v {
                    assert(mid.items@.contains_key(u));
                }
            }
            assert forall|u: usize| #[trigger]
                self.root_items@.contains(u) <==> (self.items@.contains_key(u)
                    && self.items@[u].father == u) by {
                if u != v {
                    assert(mid.items@.contains_key(u) == self.items@.contains_key(u));
                }
            }
            assert forall|u: usize, n: usize|
                self.items@.contains_key(u) && #[trigger] self.items@[u].neighbors@.contains(n)
                    implies self.items@.contains_key(n) by {
                if u != v {
                    assert(mid.items@[u].neighbors@.contains(n));
                } else {
                    assert(before.items@[u].neighbors@.contains(n));
                }
            }
        }
        r
    }

    /// The root of `id`, or `None` when `id` is not present. Parents met on
    /// the way are moved straight to the root.
    pub fn get_father_of(&mut self, id: usize) -> (r: Option<usize>)
        requires
            old(self).wf(),
        ensures
            final(self).wf(),
            final(self).live() == old(self).live(),
            final(self).roots() == old(self).roots(),
            final(self).root_map() == old(self).root_map(),
            final(self).neighbor_map() == old(self).neighbor_map(),
            old(self).live().contains(id) ==> r == Some(old(self).root_map()[id]),
            !old(self).live().contains(id) ==> r == None::<usize>,
    {
        if !self.items.contains_key(&id) {
            return None;
        }
        let ghost before = *self;
        let r = self.find(id);
        proof {
            self.lemma_compressed_view(before);
        }
        Some(r)
    }

    /// The node stored under `id`.
    pub fn get_set(&self, id: usize) -> (r: Option<&DisjointSet>)
        ensures
            !self.live().contains(id) ==> r is None,
            self.live().contains(id) ==> r is Some,
            self.live().contains(id) && self.wf() ==> {
                let s = r.unwrap();
                &&& s.id == id
                &&& s.father == self.fathers()[id]
                &&& s.neighbors@.to_set() == self.neighbor_map()[id]
            },
    {
        reveal(DisjointSets::wf);
        self.items.get(&id)
    }

    /// `true` when `id` is a current root.
    pub fn is_root_item(&self, id: usize) -> (r: bool)
        ensures
            r == self.roots().contains(id),
    {
        contains_id(&self.root_items, id)
    }

    /// The current roots, each once.
    pub fn get_root_items(&self) -> (r: Vec<usize>)
        requires
            self.wf(),
        ensures
            r@.to_set() == self.roots(),
            r@.no_duplicates(),
    {
        reveal(DisjointSets::wf);
        copy_ids(&self.root_items)
    }

    /// Records `n` as a neighbor of `id`.
    fn add_neighbor(&mut self, id: usize, n: usize)
        requires
            old(self).wf(),
            old(self).items@.contains_key(id),
            old(self).items@.contains_key(n),
        ensures
            final(self).wf(),
            final(self).live() == old(self).live(),
            final(self).roots() == old(self).roots(),
            final(self).root_map() == old(self).root_map(),
            final(self).fathers() == old(self).fathers(),
            final(self).neighbor_map() == old(self).neighbor_map().insert(
                id,
                old(self).neighbor_map()[id].insert(n),
            ),
    {
        reveal(DisjointSets::wf);
        let ghost before = *self;
        let mut node = self.items.remove(&id).unwrap();
        insert_id(&mut node.neighbors, n);
        self.items.insert(id, node);
        proof {
            assert(self.items@ =~= before.items@.insert(id, self.items@[id]));
            assert forall|m: usize| #[trigger] self.items@[id].neighbors@.contains(m) implies before.items@.contains_key(m) by {
                assert(self.items@[id].neighbors@.to_set().contains(m));
                if m != n {
                    assert(before.items@[id].neighbors@.to_set().contains(m));
                }
            }
            self.lemma_node_update(before, id);
            assert(self.neighbor_map() =~= before.neighbor_map().insert(
                id,
                before.neighbor_map()[id].insert(n),
            ));
        }
    }

    /// No longer records `n` as a neighbor of `id`.
    fn drop_neighbor(&mut self, id: usize, n: usize)
        requires
            old(self).wf(),
            old(self).items@.contains_key(id),
        ensures
            final(self).wf(),
            final(self).live() == old(self).live(),
            final(self).roots() == old(self).roots(),
            final(self).root_map() == old(self).root_map(),
            final(self).fathers() == old(self).fathers(),
            final(self).neighbor_map() == old(self).neighbor_map().insert(
                id,
                old(self).neighbor_map()[id].remove(n),
            ),
    {
        reveal(DisjointSets::wf);
        let ghost before = *self;
        let mut node = self.items.remove(&id).unwrap();
        node.neighbors = without_id(&node.neighbors, n);
        self.items.insert(id, node);
        proof {
            assert(self.items@ =~= before.items@.insert(id, self.items@[id]));
            assert forall|m: usize| #[trigger] self.items@[id].neighbors@.contains(m) implies before.items@.contains_key(m) by {
                assert(self.items@[id].neighbors@.to_set().contains(m));
                if m != n {
                    assert(before.items@[id].neighbors@.to_set().contains(m));
                }
            }
            self.lemma_node_update(before, id);
            assert(self.neighbor_map() =~= before.neighbor_map().insert(
                id,
                before.neighbor_map()[id].remove(n),
            ));
        }
    }

    /// Replacing the neighbors of one node by live identifiers keeps the
    /// invariant and every part of the view but the neighbor map.
    proof fn lemma_node_update(&self, old: DisjointSets, id: usize)
        requires
            old.wf(),
            old.items@.contains_key(id),
            self.items@ == old.items@.insert(id, self.items@[id]),
            self.items@[id].id == old.items@[id].id,
            self.items@[id].father == old.items@[id].father,
            forall|n: usize| #[trigger]
                self.items@[id].neighbors@.contains(n) ==> old.items@.contains_key(n),
            self.root_items == old.root_items,
            self.root_of == old.root_of,
            self.rank == old.rank,
            self.max_rank == old.max_rank,
        ensures
            self.wf(),
            self.live() == old.live(),
            self.roots() == old.roots(),
            self.root_map() == old.root_map(),
            self.fathers() == old.fathers(),
    {
        reveal(DisjointSets::wf);
        assert(self.items@.dom() =~= old.items@.dom());
        assert(self.fathers() =~= old.fathers());
        assert forall|u: usize, n: usize|
            self.items@.contains_key(u) && #[trigger] self.items@[u].neighbors@.contains(n)
                implies self.items@.contains_key(n) by {
            if u != id {
                assert(old.items@[u].neighbors@.contains(n));
            }
        }
    }

    /// Sets the parent of `id` to `f`, leaving the rest of the node alone.
    fn set_parent(&mut self, id: usize, f: usize)
        requires
            old(self).items@.contains_key(id),
        ensures
            final(self).items@ == old(self).items@.insert(
                id,
                DisjointSet {
                    id: old(self).items@[id].id,
                    father: f,
                    neighbors: old(self).items@[id].neighbors,
                },
            ),
            final(self).root_items == old(self).root_items,
            final(self).root_of == old(self).root_of,
            final(self).rank == old(self).rank,
            final(self).max_rank == old(self).max_rank,
    {
        let mut node = self.items.remove(&id).unwrap();
        node.father = f;
        self.items.insert(id, node);
    }

    /// Merges the regions of `childrends[0]` and `childrends[1]` under the
    /// fresh identifier `new_item_id`, whose neighbors are those of both.
    ///
    /// Fails with `NotFound` when a child is absent, and with `DuplicateId`
    /// when `new_item_id` is already present; either way nothing changes.
    pub fn create_new(&mut self, new_item_id: usize, childrends: [usize; 2]) -> (r: Result<
        (),
        SplitMergeError,
    >)
        requires
            old(self).wf(),
        ensures
            final(self).wf(),
            !(old(self).live().contains(childrends[0]) && old(self).live().contains(childrends[1]))
                ==> r == Err::<(), SplitMergeError>(SplitMergeError::NotFound) && final(self).same_view(
                *old(self),
            ),
            old(self).live().contains(childrends[0]) && old(self).live().contains(childrends[1])
                && old(self).live().contains(new_item_id) ==> r == Err::<(), SplitMergeError>(
                SplitMergeError::DuplicateId,
            ) && final(self).same_view(*old(self)),
            old(self).live().contains(childrends[0]) && old(self).live().contains(childrends[1])
                && !old(self).live().contains(new_item_id) ==> r == Ok::<(), SplitMergeError>(())
                && final(self).is_union_of(*old(self), new_item_id, childrends[0], childrends[1]),
    {
        let c1 = childrends[0];
        let c2 = childrends[1];
        if !self.items.contains_key(&c1) || !self.items.contains_key(&c2) {
            return Err(SplitMergeError::NotFound);
        }
        if self.items.contains_key(&new_item_id) {
            return Err(SplitMergeError::DuplicateId);
        }
        let ghost g0 = *self;
        let r1 = self.find(c1);
        proof {
            self.lemma_compressed_view(g0);
        }
        let ghost g1 = *self;
        let r2 = self.find(c2);
        proof {
            self.lemma_compressed_view(g1);
        }
        let ghost p = *self;
        proof {
            p.lemma_wf_facts();
            assert(p.root_items@.no_duplicates()) by {
                reveal(DisjointSets::wf);
            }
            assert(p.live().contains(r1));
            assert(p.live().contains(r2));
        }
        let mut nbrs = copy_ids(&self.items.get(&r1).unwrap().neighbors);
        let other = copy_ids(&self.items.get(&r2).unwrap().neighbors);
        let mut j: usize = 0;
        while j < other.len()
            invariant
                j <= other@.len(),
                *self == p,
                p.items@.contains_key(r1),
                nbrs@.to_set() == p.items@[r1].neighbors@.to_set().union(
                    other@.subrange(0, j as int).to_set(),
                ),
            decreases other.len() - j,
        {
            insert_id(&mut nbrs, other[j]);
            proof {
                assert(other@.subrange(0, j + 1).to_set() =~= other@.subrange(0, j as int).to_set().insert(other@[j as int])) by {
                    crate::id_list::lemma_push_contains(other@.subrange(0, j as int), other@[j as int]);
                    assert(other@.subrange(0, j + 1) =~= other@.subrange(0, j as int).push(other@[j as int]));
                }
            }
            j = j + 1;
        }
        assert(other@.subrange(0, other@.len() as int) =~= other@);
        let ghost nr: nat = if p.rank@[r1] >= p.rank@[r2] { p.rank@[r1] + 1 } else { p.rank@[r2] + 1 };
        self.set_parent(r1, new_item_id);
        self.set_parent(r2, new_item_id);
        self.items.insert(new_item_id, DisjointSet { id: new_item_id, father: new_item_id, neighbors: nbrs });
        let without_r1 = without_id(&self.root_items, r1);
        let mut roots = without_id(&without_r1, r2);
        proof {
            crate::id_list::lemma_push_contains(roots@, new_item_id);
            assert(!roots@.to_set().contains(new_item_id));
        }
        roots.push(new_item_id);
        self.root_items = roots;
        self.root_of = Ghost(united(p.root_of@, new_item_id, c1, c2));
        self.rank = Ghost(p.rank@.insert(new_item_id, nr));
        self.max_rank = Ghost(if nr > p.max_rank@ { nr } else { p.max_rank@ });
        proof {
            assert(r1 == p.root_of@[c1]);
            assert(r2 == p.root_of@[c2]);
            assert(self.root_items@.to_set() == p.root_items@.to_set().remove(r1).remove(r2).insert(new_item_id));
            assert(self.items@[new_item_id].neighbors@.to_set() == p.items@[r1].neighbors@.to_set().union(
                    p.items@[r2].neighbors@.to_set()));
            self.lemma_union_wf(p, new_item_id, c1, c2, nr);
        }
        Ok(())
    }

    /// The invariant and the view after the body of `create_new`.
    #[verifier::rlimit(20)]
    proof fn lemma_union_wf(&self, p: DisjointSets, new_id: usize, c1: usize, c2: usize, nr: nat)
        requires
            p.wf(),
            p.items@.contains_key(c1),
            p.items@.contains_key(c2),
            !p.items@.contains_key(new_id),
            ({
                let r1 = p.root_of@[c1];
                let r2 = p.root_of@[c2];
                &&& nr == (if p.rank@[r1] >= p.rank@[r2] { p.rank@[r1] + 1 } else { p.rank@[r2] + 1 })
                &&& self.items@ == p.items@.insert(
                    r1,
                    DisjointSet { id: p.items@[r1].id, father: new_id, neighbors: p.items@[r1].neighbors },
                ).insert(
                    r2,
                    DisjointSet {
                        id: p.items@.insert(
                            r1,
                            DisjointSet { id: p.items@[r1].id, father: new_id, neighbors: p.items@[r1].neighbors },
                        )[r2].id,
                        father: new_id,
                        neighbors: p.items@.insert(
                            r1,
                            DisjointSet { id: p.items@[r1].id, father: new_id, neighbors: p.items@[r1].neighbors },
                        )[r2].neighbors,
                    },
                ).insert(new_id, self.items@[new_id])
                &&& self.items@[new_id].id == new_id
                &&& self.items@[new_id].father == new_id
                &&& self.items@[new_id].neighbors@.to_set() == p.items@[r1].neighbors@.to_set().union(
                    p.items@[r2].neighbors@.to_set(),
                )
                &&& self.root_items@.no_duplicates()
                &&& self.root_items@.to_set() == p.root_items@.to_set().remove(r1).remove(r2).insert(new_id)
                &&& self.root_of@ == united(p.root_of@, new_id, c1, c2)
                &&& self.rank@ == p.rank@.insert(new_id, nr)
                &&& self.max_rank@ == (if nr > p.max_rank@ { nr } else { p.max_rank@ })
            }),
        ensures
            self.wf(),
            self.is_union_of(p, new_id, c1, c2),
    {
        reveal(DisjointSets::wf);
        let r1 = p.root_of@[c1];
        let r2 = p.root_of@[c2];
        assert(self.items@.dom() =~= p.items@.dom().insert(new_id));
        assert(self.root_of@.dom() =~= self.items@.dom());
        assert(self.rank@.dom() =~= self.items@.dom());
        assert forall|v: usize| #[trigger] self.items@.contains_key(v) implies self.items@[v].id == v by {
        }
        assert forall|v: usize| #[trigger]
            self.items@.contains_key(v) implies self.items@.contains_key(self.items@[v].father) by {
        }
        assert forall|v: usize| #[trigger]
            self.root_items@.contains(v) <==> (self.items@.contains_key(v) && self.items@[v].father == v) by {
            assert(self.root_items@.to_set().contains(v) == self.root_items@.contains(v));
            assert(p.root_items@.to_set().contains(v) == p.root_items@.contains(v));
        }
        assert forall|v: usize| #[trigger]
            self.items@.contains_key(v) implies {
                let r = self.root_of@[v];
                let f = self.items@[v].father;
                &&& self.items@.contains_key(r)
                &&& self.items@[r].father == r
                &&& self.root_of@[f] == r
                &&& (f == v ==> r == v)
                &&& self.rank@[v] <= self.max_rank@
                &&& (f != v ==> self.rank@[f] > self.rank@[v] && self.rank@[r] > self.rank@[v])
            } by {
            if v != new_id {
                let pf = p.items@[v].father;
                assert(p.items@.contains_key(pf));
                assert(p.items@.contains_key(p.root_of@[v]));
                if p.root_of@[v] != r1 && p.root_of@[v] != r2 {
                    assert(p.root_of@[pf] == p.root_of@[v]);
                }
            }
        }
        assert forall|v: usize, n: usize|
            self.items@.contains_key(v) && #[trigger] self.items@[v].neighbors@.contains(n)
                implies self.items@.contains_key(n) by {
            if v == new_id {
                assert(self.items@[v].neighbors@.to_set().contains(n));
                if p.items@[r1].neighbors@.to_set().contains(n) {
                    assert(p.items@[r1].neighbors@.contains(n));
                } else {
                    assert(p.items@[r2].neighbors@.contains(n));
                }
            } else {
                assert(p.items@[v].neighbors@.contains(n));
            }
        }
        assert(self.wf());
        assert(self.roots() =~= p.roots().remove(r1).remove(r2).insert(new_id));
        assert(self.neighbor_map() =~= p.neighbor_map().insert(
            new_id,
            p.neighbor_map()[r1].union(p.neighbor_map()[r2]),
        ));
    }

    /// Replaces the neighbors of `id` by `nbrs`.
    fn replace_neighbors(&mut self, id: usize, nbrs: Vec<usize>)
        requires
            old(self).wf(),
            old(self).items@.contains_key(id),
            forall|n: usize| #[trigger] nbrs@.contains(n) ==> old(self).items@.contains_key(n),
        ensures
            final(self).wf(),
            final(self).live() == old(self).live(),
            final(self).roots() == old(self).roots(),
            final(self).root_map() == old(self).root_map(),
            final(self).root_items == old(self).root_items,
            final(self).neighbor_map() == old(self).neighbor_map().insert(id, nbrs@.to_set()),
    {
        let ghost before = *self;
        let mut node = self.items.remove(&id).unwrap();
        node.neighbors = nbrs;
        self.items.insert(id, node);
        proof {
            assert(self.items@ =~= before.items@.insert(id, self.items@[id]));
            self.lemma_node_update(before, id);
            assert(self.neighbor_map() =~= before.neighbor_map().insert(id, nbrs@.to_set()));
        }
    }

    /// The current root of each neighbor of `r`, without `r` itself.
    fn compacted_neighbors(&mut self, r: usize) -> (new_nb: Vec<usize>)
        requires
            old(self).wf(),
            old(self).items@.contains_key(r),
        ensures
            final(self).wf(),
            final(self).live() == old(self).live(),
            final(self).roots() == old(self).roots(),
            final(self).root_map() == old(self).root_map(),
            final(self).neighbor_map() == old(self).neighbor_map(),
            final(self).root_items == old(self).root_items,
            new_nb@.to_set() == compacted(old(self).neighbor_map()[r], old(self).root_map(), r),
            forall|x: usize| #[trigger] new_nb@.contains(x) ==> old(self).live().contains(x),
    {
        let ghost g0 = *self;
        proof {
            g0.lemma_wf_facts();
        }
        let nb = copy_ids(&self.items.get(&r).unwrap().neighbors);
        let mut new_nb: Vec<usize> = Vec::new();
        let mut j: usize = 0;
        proof {
            assert(nb@.subrange(0, 0).to_set() =~= Set::<usize>::empty());
            assert(compacted(Set::<usize>::empty(), g0.root_map(), r) =~= Set::<usize>::empty());
            assert(new_nb@.to_set() =~= Set::<usize>::empty());
        }
        while j < nb.len()
            invariant
                self.wf(),
                self.compressed_from(g0),
                j <= nb@.len(),
                nb@.to_set() == g0.neighbor_map()[r],
                g0.wf(),
                g0.items@.contains_key(r),
                new_nb@.to_set() == compacted(nb@.subrange(0, j as int).to_set(), g0.root_map(), r),
            decreases nb@.len() - j,
        {
            let y = nb[j];
            proof {
                g0.lemma_wf_facts();
                assert(nb@.to_set().contains(y));
                assert(g0.live().contains(r));
                assert(g0.neighbor_map()[r].contains(y));
                assert(g0.live().contains(y));
            }
            let ghost before = *self;
            let z = self.find(y);
            proof {
                lemma_compressed_trans(*self, before, g0);
                lemma_compacted_insert(nb@.subrange(0, j as int).to_set(), g0.root_map(), r, y);
                let j1: int = j + 1;
                assert(nb@.subrange(0, j1).to_set() =~= nb@.subrange(0, j as int).to_set().insert(y)) by {
                    crate::id_list::lemma_push_contains(nb@.subrange(0, j as int), y);
                    assert(nb@.subrange(0, j1) =~= nb@.subrange(0, j as int).push(y));
                }
            }
            if z != r {
                insert_id(&mut new_nb, z);
            }
            j = j + 1;
        }
        proof {
            assert(nb@.subrange(0, nb@.len() as int) =~= nb@);
            self.lemma_compressed_view(g0);
            assert forall|x: usize| #[trigger] new_nb@.contains(x) implies g0.live().contains(x) by {
                assert(new_nb@.to_set().contains(x));
                let w = choose|w: usize| g0.neighbor_map()[r].contains(w) && g0.root_map()[w] == x;
            }
        }
        new_nb
    }

    /// Rewrites the neighbor set of every root so that it holds the current
    /// root of each former neighbor, and never the root itself. Afterwards
    /// every neighbor of a root is a root other than it.
    pub fn clear_data(&mut self)
        requires
            old(self).wf(),
        ensures
            final(self).wf(),
            final(self).live() == old(self).live(),
            final(self).roots() == old(self).roots(),
            final(self).root_map() == old(self).root_map(),
            forall|v: usize|
                old(self).live().contains(v) && !old(self).roots().contains(v)
                    ==> #[trigger] final(self).neighbor_map()[v] == old(self).neighbor_map()[v],
            forall|v: usize| #[trigger]
                old(self).roots().contains(v) ==> final(self).neighbor_map()[v] == compacted(
                    old(self).neighbor_map()[v],
                    old(self).root_map(),
                    v,
                ),
            forall|v: usize, n: usize|
                final(self).roots().contains(v) && #[trigger] final(self).neighbor_map()[v].contains(n)
                    ==> final(self).roots().contains(n) && n != v,
    {
        let ghost g0 = *self;
        proof {
            g0.lemma_wf_facts();
        }
        let mut i: usize = 0;
        while i < self.root_items.len()
            invariant
                self.wf(),
                g0.wf(),
                self.root_items == g0.root_items,
                self.live() == g0.live(),
                self.roots() == g0.roots(),
                self.root_map() == g0.root_map(),
                i <= self.root_items@.len(),
                forall|v: usize|
                    g0.live().contains(v) && !self.root_items@.subrange(0, i as int).contains(v)
                        ==> #[trigger] self.neighbor_map()[v] == g0.neighbor_map()[v],
                forall|v: usize| #[trigger]
                    self.root_items@.subrange(0, i as int).contains(v) ==> self.neighbor_map()[v]
                        == compacted(g0.neighbor_map()[v], g0.root_map(), v),
            decreases g0.root_items@.len() - i,
        {
            let r = self.root_items[i];
            proof {
                assert(self.root_items@.contains(r));
                assert(!self.root_items@.subrange(0, i as int).contains(r)) by {
                    reveal(DisjointSets::wf);
                    if self.root_items@.subrange(0, i as int).contains(r) {
                        let k = choose|k: int| 0 <= k < i && self.root_items@.subrange(0, i as int)[k] == r;
                        assert(self.root_items@[k] == self.root_items@[i as int]);
                    }
                }
                g0.lemma_wf_facts();
                assert(self.roots().contains(r));
                assert(g0.live().contains(r));
                assert(self.neighbor_map()[r] == g0.neighbor_map()[r]);
            }
            let new_nb = self.compacted_neighbors(r);
            self.replace_neighbors(r, new_nb);
            proof {
                let i1: int = i + 1;
                assert forall|v: usize| #[trigger]
                    self.root_items@.subrange(0, i1).contains(v) implies (self.root_items@.subrange(0, i as int).contains(v) || v == r) by {
                    let k = choose|k: int| 0 <= k < i1 && self.root_items@.subrange(0, i1)[k] == v;
                    if k < i {
                        assert(self.root_items@.subrange(0, i as int)[k] == v);
                    }
                }
                assert forall|v: usize| #[trigger]
                    self.root_items@.subrange(0, i as int).contains(v) implies self.root_items@.subrange(0, i1).contains(v) by {
                    let k = choose|k: int| 0 <= k < i && self.root_items@.subrange(0, i as int)[k] == v;
                    assert(self.root_items@.subrange(0, i1)[k] == v);
                }
                assert(self.root_items@.subrange(0, i1)[i as int] == r);
            }
            i = i + 1;
        }
        proof {
            assert(self.root_items@.subrange(0, i as int) =~= self.root_items@);
            assert forall|v: usize, n: usize|
                self.roots().contains(v) && #[trigger] self.neighbor_map()[v].contains(n)
                    implies self.roots().contains(n) && n != v by {
                assert(self.root_items@.contains(v));
                let y = choose|y: usize| g0.neighbor_map()[v].contains(y) && g0.root_map()[y] == n;
            }
        }
    }

    /// `r` is a choice of pairs to examine: each pair is a root and one of
    /// its neighbors, no identifier occurs in two pairs (nor twice in one
    /// when no root is its own neighbor), and every root left out has all
    /// its neighbors taken.
    pub open spec fn valid_pairs(&self, r: Seq<[usize; 2]>) -> bool {
        &&& forall|i: int|
            0 <= i < r.len() ==> self.roots().contains(#[trigger] r[i][0]) && self.neighbor_map()[r[i][0]].contains(
                r[i][1],
            )
        &&& forall|i: int, j: int, k: int, l: int|
            0 <= i < j < r.len() && 0 <= k < 2 && 0 <= l < 2 ==> #[trigger] r[i][k] != #[trigger] r[j][l]
        &&& (forall|v: usize| self.roots().contains(v) ==> !(#[trigger] self.neighbor_map()[v]).contains(v))
            ==> forall|i: int| 0 <= i < r.len() ==> #[trigger] r[i][0] != r[i][1]
        &&& forall|a: usize, b: usize|
            self.roots().contains(a) && !paired(r, a) && #[trigger] self.neighbor_map()[a].contains(b)
                ==> paired(r, b)
    }

    /// Pairs of adjacent regions to examine next, chosen greedily so that no
    /// identifier occurs in two pairs: each root not yet taken is paired with
    /// its first neighbor not yet taken, if there is one.
    pub fn get_tuple_of_items_to_check(&self) -> (r: Vec<[usize; 2]>)
        requires
            self.wf(),
        ensures
            forall|i: int|
                0 <= i < r@.len() ==> self.roots().contains(#[trigger] r@[i][0])
                    && self.neighbor_map()[r@[i][0]].contains(r@[i][1]),
            forall|i: int, j: int, k: int, l: int|
                0 <= i < j < r@.len() && 0 <= k < 2 && 0 <= l < 2 ==> #[trigger] r@[i][k]
                    != #[trigger] r@[j][l],
            (forall|v: usize| self.roots().contains(v) ==> !(#[trigger] self.neighbor_map()[v]).contains(v))
                ==> forall|i: int| 0 <= i < r@.len() ==> #[trigger] r@[i][0] != r@[i][1],
            forall|a: usize, b: usize|
                self.roots().contains(a) && !paired(r@, a) && #[trigger] self.neighbor_map()[a].contains(b)
                    ==> paired(r@, b),
            self.valid_pairs(r@),
    {
        proof {
            self.lemma_wf_facts();
        }
        let mut present: HashSet<usize> = HashSet::new();
        let mut to_return: Vec<[usize; 2]> = Vec::new();
        let mut i: usize = 0;
        while i < self.root_items.len()
            invariant
                self.wf(),
                i <= self.root_items@.len(),
                forall|x: usize| #[trigger] present@.contains(x) <==> paired(to_return@, x),
                forall|q: int|
                    0 <= q < to_return@.len() ==> self.roots().contains(#[trigger] to_return@[q][0])
                        && self.neighbor_map()[to_return@[q][0]].contains(to_return@[q][1]),
                forall|q: int, j: int, k: int, l: int|
                    0 <= q < j < to_return@.len() && 0 <= k < 2 && 0 <= l < 2 ==> #[trigger] to_return@[q][k]
                        != #[trigger] to_return@[j][l],
                forall|q: int, b: usize|
                    0 <= q < i && !paired(to_return@, self.root_items@[q])
                        && #[trigger] self.neighbor_map()[self.root_items@[q]].contains(b) ==> paired(to_return@, b),
            decreases self.root_items@.len() - i,
        {
            let a = self.root_items[i];
            proof {
                assert(self.roots().contains(a));
                self.lemma_wf_facts();
            }
            if !present.contains(&a) {
                let nbrs = &self.items.get(&a).unwrap().neighbors;
                let mut j: usize = 0;
                let mut found = false;
                while j < nbrs.len() && !found
                    invariant
                        self.wf(),
                        i < self.root_items@.len(),
                        a == self.root_items@[i as int],
                        self.roots().contains(a),
                        !paired(to_return@, a),
                        nbrs@.to_set() == self.neighbor_map()[a],
                        j <= nbrs@.len(),
                        forall|x: usize| #[trigger] present@.contains(x) <==> paired(to_return@, x),
                        forall|k: int| 0 <= k < j ==> paired(to_return@, #[trigger] nbrs@[k]),
                        found ==> j < nbrs@.len() && !paired(to_return@, nbrs@[j as int]),
                    decreases nbrs@.len() - j + (if found { 0int } else { 1int }),
                {
                    if !present.contains(&nbrs[j]) {
                        found = true;
                    } else {
                        j = j + 1;
                    }
                }
                if found {
                    let b = nbrs[j];
                    let ghost before = to_return@;
                    present.insert(a);
                    present.insert(b);
                    to_return.push([a, b]);
                    proof {
                        assert(nbrs@.to_set().contains(b));
                        assert forall|x: usize| paired(before, x) implies #[trigger] paired(to_return@, x) by {
                            let q = choose|q: int| 0 <= q < before.len() && (before[q][0] == x || before[q][1] == x);
                            assert(to_return@[q] == before[q]);
                        }
                        assert forall|x: usize| #[trigger] paired(to_return@, x) implies (paired(before, x) || x == a || x == b) by {
                            let q = choose|q: int| 0 <= q < to_return@.len() && (to_return@[q][0] == x || to_return@[q][1] == x);
                            if q < before.len() {
                                assert(before[q] == to_return@[q]);
                            }
                        }
                        assert(to_return@[before.len() as int] == [a, b]);
                        assert(paired(to_return@, a));
                        assert(paired(to_return@, b));
                        assert forall|q: int, j2: int, k: int, l: int|
                            0 <= q < j2 < to_return@.len() && 0 <= k < 2 && 0 <= l < 2 implies #[trigger] to_return@[q][k]
                                != #[trigger] to_return@[j2][l] by {
                            if j2 == before.len() {
                                assert(paired(before, to_return@[q][k]));
                            } else {
                                assert(to_return@[q] == before[q]);
                                assert(to_return@[j2] == before[j2]);
                            }
                        }
                    }
                } else {
                    proof {
                        assert forall|b: usize| #[trigger] self.neighbor_map()[a].contains(b) implies paired(to_return@, b) by {
                            assert(nbrs@.to_set().contains(b));
                            let k = choose|k: int| 0 <= k < nbrs@.len() && nbrs@[k] == b;
                        }
                    }
                }
            }
            i = i + 1;
        }
        proof {
            assert forall|a: usize, b: usize|
                self.roots().contains(a) && !paired(to_return@, a) && #[trigger] self.neighbor_map()[a].contains(b)
                    implies paired(to_return@, b) by {
                assert(self.root_items@.contains(a));
                let q = choose|q: int| 0 <= q < self.root_items@.len() && self.root_items@[q] == a;
            }
        }
        to_return
    }

    /// Records `a` and `b` as adjacent, each in the other's set.
    ///
    /// Fails with `NotFound`, changing nothing, when either is absent.
    pub fn set_as_neighbors(&mut self, a: usize, b: usize) -> (r: Result<(), SplitMergeError>)
        requires
            old(self).wf(),
        ensures
            final(self).wf(),
            !(old(self).live().contains(a) && old(self).live().contains(b)) ==> r == Err::<
                (),
                SplitMergeError,
            >(SplitMergeError::NotFound) && final(self).same_view(*old(self)),
            old(self).live().contains(a) && old(self).live().contains(b) ==> {
                &&& r == Ok::<(), SplitMergeError>(())
                &&& final(self).live() == old(self).live()
                &&& final(self).roots() == old(self).roots()
                &&& final(self).root_map() == old(self).root_map()
                &&& final(self).fathers() == old(self).fathers()
                &&& final(self).neighbor_map() == linked(old(self).neighbor_map(), a, b)
            },
    {
        if !self.items.contains_key(&a) || !self.items.contains_key(&b) {
            return Err(SplitMergeError::NotFound);
        }
        self.add_neighbor(a, b);
        self.add_neighbor(b, a);
        Ok(())
    }

    /// Forgets that `id1` and `id2` are adjacent, so that the pair is not
    /// proposed again.
    ///
    /// Fails with `NotFound`, changing nothing, when either is absent.
    pub fn mark_as_non_neighbors(&mut self, id1: usize, id2: usize) -> (r: Result<
        (),
        SplitMergeError,
    >)
        requires
            old(self).wf(),
        ensures
            final(self).wf(),
            !(old(self).live().contains(id1) && old(self).live().contains(id2)) ==> r == Err::<
                (),
                SplitMergeError,
            >(SplitMergeError::NotFound) && final(self).same_view(*old(self)),
            old(self).live().contains(id1) && old(self).live().contains(id2) ==> {
                &&& r == Ok::<(), SplitMergeError>(())
                &&& final(self).live() == old(self).live()
                &&& final(self).roots() == old(self).roots()
                &&& final(self).root_map() == old(self).root_map()
                &&& final(self).fathers() == old(self).fathers()
                &&& final(self).neighbor_map() == unlinked(old(self).neighbor_map(), id1, id2)
            },
    {
        if !self.items.contains_key(&id1) || !self.items.contains_key(&id2) {
            return Err(SplitMergeError::NotFound);
        }
        self.drop_neighbor(id1, id2);
        self.drop_neighbor(id2, id1);
        Ok(())
    }
}

} // verus!
