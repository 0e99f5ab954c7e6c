use std::collections::HashMap;

use vstd::prelude::*;

use crate::area::{Area, AreaMarker, Mask};
use crate::disjoint_set::{lemma_disjoint_merges_commute, united, unlinked, DisjointSets};
use crate::error::SplitMergeError;
use crate::image_container::{ImageContainer, ImageContainerSplit};
use crate::split_phase::SplitState;
use crate::split_tree::{leaves, lemma_leaf_ids_distinct, lemma_leaves_partition, SplitTree};

verus! {

broadcast use vstd::std_specs::hash::group_hash_axioms;

/// The decisions of the merge phase: the forest of regions, the region of
/// each identifier, and the next identifier to hand out.
pub struct MergeState {
    image: ImageContainer,
    disjoint_sets: DisjointSets,
    areas: HashMap<usize, Area>,
    next_area_id: usize,
}

/// The pair of leaf positions `(a, b)` has been examined once every pair
/// before `(p, q)`, in row order over `a < b`, has been.
spec fn done(a: int, b: int, p: int, q: int) -> bool {
    (a < b && (a < p || (a == p && b < q))) || (b < a && (b < p || (b == p && a < q)))
}

/// The pairs of the accepted answers, in order.
pub open spec fn accepted(s: Seq<(bool, usize, usize)>) -> Seq<[usize; 2]>
    decreases s.len(),
{
    if s.len() == 0 {
        Seq::empty()
    } else if s.last().0 {
        accepted(s.drop_last()).push([s.last().1, s.last().2])
    } else {
        accepted(s.drop_last())
    }
}

/// The roots, the root map and the neighbor map of a forest.
pub open spec fn forest_view(f: DisjointSets) -> (Set<usize>, Map<usize, usize>, Map<usize, Set<usize>>) {
    (f.roots(), f.root_map(), f.neighbor_map())
}

/// The neighbor map after every rejected pair of `s`, in order, is no
/// longer recorded as adjacent.
pub open spec fn unlink_all(n: Map<usize, Set<usize>>, s: Seq<(bool, usize, usize)>) -> Map<usize, Set<usize>>
    decreases s.len(),
{
    if s.len() == 0 {
        n
    } else if s.last().0 {
        unlink_all(n, s.drop_last())
    } else {
        unlinked(unlink_all(n, s.drop_last()), s.last().1, s.last().2)
    }
}

/// The view of a forest after `new_id` becomes the parent of the roots of
/// `a` and `b` (see `DisjointSets::is_union_of`).
pub open spec fn unite_step(
    v: (Set<usize>, Map<usize, usize>, Map<usize, Set<usize>>),
    new_id: usize,
    a: usize,
    b: usize,
) -> (Set<usize>, Map<usize, usize>, Map<usize, Set<usize>>) {
    let ra = v.1[a];
    let rb = v.1[b];
    (
        v.0.remove(ra).remove(rb).insert(new_id),
        united(v.1, new_id, a, b),
        v.2.insert(new_id, v.2[ra].union(v.2[rb])),
    )
}

/// The view of a forest after the merges `e`, `(new_id, [a, b])`, in order.
pub open spec fn unite_all(
    v: (Set<usize>, Map<usize, usize>, Map<usize, Set<usize>>),
    e: Seq<(usize, [usize; 2])>,
) -> (Set<usize>, Map<usize, usize>, Map<usize, Set<usize>>)
    decreases e.len(),
{
    if e.len() == 0 {
        v
    } else {
        unite_step(unite_all(v, e.drop_last()), e.last().0, e.last().1[0], e.last().1[1])
    }
}

/// Two accepted merges of disjoint pairs of regions, applied as
/// `receive_merge_result` applies them in one order or the other, group the
/// identifiers present before in the same way.
pub proof fn lemma_merge_order_independent(
    ds: DisjointSets,
    n: Map<usize, Set<usize>>,
    a: usize,
    b: usize,
    c: usize,
    d: usize,
    n1: usize,
    n2: usize,
)
    requires
        ds.wf(),
        ds.live().contains(a),
        ds.live().contains(b),
        ds.live().contains(c),
        ds.live().contains(d),
        !ds.live().contains(n1),
        !ds.live().contains(n2),
        n1 != n2,
        ds.root_map()[a] != ds.root_map()[c],
        ds.root_map()[a] != ds.root_map()[d],
        ds.root_map()[b] != ds.root_map()[c],
        ds.root_map()[b] != ds.root_map()[d],
    ensures
        forall|u: usize, v: usize|
            #![trigger ds.live().contains(u), ds.live().contains(v)]
            ds.live().contains(u) && ds.live().contains(v) ==> ((unite_all(
                (ds.roots(), ds.root_map(), n),
                seq![(n1, [a, b]), (n2, [c, d])],
            ).1[u] == unite_all((ds.roots(), ds.root_map(), n), seq![(n1, [a, b]), (n2, [c, d])]).1[v])
                <==> (unite_all((ds.roots(), ds.root_map(), n), seq![(n1, [c, d]), (n2, [a, b])]).1[u]
                == unite_all((ds.roots(), ds.root_map(), n), seq![(n1, [c, d]), (n2, [a, b])]).1[v])),
{
    let v0 = (ds.roots(), ds.root_map(), n);
    let e1 = seq![(n1, [a, b]), (n2, [c, d])];
    let e2 = seq![(n1, [c, d]), (n2, [a, b])];
    let f1 = seq![(n1, [a, b])];
    let f2 = seq![(n1, [c, d])];
    assert(e1.drop_last() =~= f1);
    assert(e2.drop_last() =~= f2);
    assert(f1.drop_last() =~= Seq::<(usize, [usize; 2])>::empty());
    assert(f2.drop_last() =~= Seq::<(usize, [usize; 2])>::empty());
    assert(unite_all(v0, Seq::<(usize, [usize; 2])>::empty()) == v0);
    assert(f1.len() == 1 && f1.last() == (n1, [a, b]));
    assert(f2.len() == 1 && f2.last() == (n1, [c, d]));
    assert(e1.len() == 2 && e1.last() == (n2, [c, d]));
    assert(e2.len() == 2 && e2.last() == (n2, [a, b]));
    assert(unite_all(v0, f1) == unite_step(v0, n1, a, b));
    assert(unite_all(v0, f2) == unite_step(v0, n1, c, d));
    assert(unite_all(v0, e1).1 == united(united(ds.root_map(), n1, a, b), n2, c, d));
    assert(unite_all(v0, e2).1 == united(united(ds.root_map(), n1, c, d), n2, a, b));
    lemma_disjoint_merges_commute(ds, a, b, c, d, n1, n2);
}

/// The merge `k` of a round takes the region of `u`: `u`'s root is one of
/// the two roots merged.
pub open spec fn in_pair(m: Map<usize, usize>, e: Seq<(usize, [usize; 2])>, k: int, u: usize) -> bool {
    m[u] == m[e[k].1[0]] || m[u] == m[e[k].1[1]]
}

/// The merges `e` of one round on forest `ds`: each joins two present
/// regions under a fresh identifier, the identifiers differ, and no region
/// takes part in two merges.
pub open spec fn valid_round(ds: DisjointSets, e: Seq<(usize, [usize; 2])>) -> bool {
    let m = ds.root_map();
    &&& forall|k: int|
        0 <= k < e.len() ==> ds.live().contains((#[trigger] e[k]).1[0]) && ds.live().contains(e[k].1[1])
            && !ds.live().contains(e[k].0)
    &&& forall|k: int, l: int| 0 <= k < l < e.len() ==> (#[trigger] e[k]).0 != (#[trigger] e[l]).0
    &&& forall|k: int, l: int, u: usize|
        0 <= k < l < e.len() ==> !(#[trigger] in_pair(m, e, k, u) && #[trigger] in_pair(m, e, l, u))
}

/// After a valid round, each present identifier whose region took part in
/// merge `k` leads to that merge's new identifier, and every other one keeps
/// its root.
pub proof fn lemma_round_roots(ds: DisjointSets, nb: Map<usize, Set<usize>>, e: Seq<(usize, [usize; 2])>)
    requires
        ds.wf(),
        valid_round(ds, e),
    ensures
        forall|u: usize| #[trigger]
            ds.live().contains(u) ==> unite_all((ds.roots(), ds.root_map(), nb), e).1.contains_key(u),
        forall|u: usize, k: int|
            ds.live().contains(u) && 0 <= k < e.len() && #[trigger] in_pair(ds.root_map(), e, k, u)
                ==> unite_all((ds.roots(), ds.root_map(), nb), e).1[u] == e[k].0,
        forall|u: usize|
            ds.live().contains(u) && (forall|k: int| 0 <= k < e.len() ==> !#[trigger] in_pair(ds.root_map(), e, k, u))
                ==> #[trigger] unite_all((ds.roots(), ds.root_map(), nb), e).1[u] == ds.root_map()[u],
    decreases e.len(),
{
    ds.lemma_wf_facts();
    let m = ds.root_map();
    let v0 = (ds.roots(), m, nb);
    if e.len() == 0 {
        assert(unite_all(v0, e) == v0);
        assert forall|u: usize| #[trigger] ds.live().contains(u) implies unite_all(v0, e).1.contains_key(u) by {
        }
    } else {
        let p = e.drop_last();
        let last = e.len() - 1;
        assert forall|k: int, l: int, u: usize|
            0 <= k < l < p.len() implies !(#[trigger] in_pair(m, p, k, u) && #[trigger] in_pair(m, p, l, u)) by {
            assert(p[k] == e[k] && p[l] == e[l]);
            assert(in_pair(m, p, k, u) == in_pair(m, e, k, u));
            assert(in_pair(m, p, l, u) == in_pair(m, e, l, u));
        }
        assert forall|k: int| 0 <= k < p.len() implies ds.live().contains((#[trigger] p[k]).1[0])
            && ds.live().contains(p[k].1[1]) && !ds.live().contains(p[k].0) by {
            assert(p[k] == e[k]);
        }
        assert forall|k: int, l: int| 0 <= k < l < p.len() implies (#[trigger] p[k]).0 != (#[trigger] p[l]).0 by {
            assert(p[k] == e[k] && p[l] == e[l]);
        }
        lemma_round_roots(ds, nb, p);
        let r0 = unite_all(v0, p).1;
        let id = e[last].0;
        let a = e[last].1[0];
        let b = e[last].1[1];
        assert(e.last() == e[last]);
        assert(ds.live().contains(a) && ds.live().contains(b) && !ds.live().contains(id));
        assert(in_pair(m, e, last, a));
        assert(in_pair(m, e, last, b));
        assert forall|k: int| 0 <= k < p.len() implies !#[trigger] in_pair(m, p, k, a) by {
            assert(p[k] == e[k]);
            assert(!(in_pair(m, e, k, a) && in_pair(m, e, last, a)));
        }
        assert forall|k: int| 0 <= k < p.len() implies !#[trigger] in_pair(m, p, k, b) by {
            assert(p[k] == e[k]);
            assert(!(in_pair(m, e, k, b) && in_pair(m, e, last, b)));
        }
        assert(r0[a] == m[a]);
        assert(r0[b] == m[b]);
        assert(unite_all(v0, e).1 == united(r0, id, a, b));
        assert forall|u: usize| #[trigger] ds.live().contains(u) implies unite_all(v0, e).1.contains_key(u) by {
        }
        assert forall|u: usize, k: int|
            ds.live().contains(u) && 0 <= k < e.len() && #[trigger] in_pair(m, e, k, u) implies unite_all(v0, e).1[u]
                == e[k].0 by {
            assert(ds.live().contains(m[a]) && ds.live().contains(m[b]));
            if k < last {
                assert(p[k] == e[k]);
                assert(in_pair(m, p, k, u));
                assert(r0[u] == p[k].0);
                assert(!ds.live().contains(e[k].0));
                assert(r0[u] != r0[a] && r0[u] != r0[b]);
            } else {
                assert forall|j: int| 0 <= j < p.len() implies !#[trigger] in_pair(m, p, j, u) by {
                    assert(p[j] == e[j]);
                    assert(!(in_pair(m, e, j, u) && in_pair(m, e, last, u)));
                }
                assert(r0[u] == m[u]);
            }
        }
        assert forall|u: usize|
            ds.live().contains(u) && (forall|k: int| 0 <= k < e.len() ==> !#[trigger] in_pair(m, e, k, u)) implies #[trigger] unite_all(
            v0,
            e,
        ).1[u] == m[u] by {
            assert forall|k: int| 0 <= k < p.len() implies !#[trigger] in_pair(m, p, k, u) by {
                assert(p[k] == e[k]);
                assert(!in_pair(m, e, k, u));
            }
            assert(!in_pair(m, e, last, u));
        }
    }
}

/// After a valid round, two present identifiers share a root exactly when
/// they did before or their regions took part in the same merge. This does
/// not depend on the order in which the merges were applied.
pub proof fn lemma_round_grouping(ds: DisjointSets, nb: Map<usize, Set<usize>>, e: Seq<(usize, [usize; 2])>)
    requires
        ds.wf(),
        valid_round(ds, e),
    ensures
        forall|u: usize, v: usize|
            #![trigger ds.live().contains(u), ds.live().contains(v)]
            ds.live().contains(u) && ds.live().contains(v) ==> ((unite_all((ds.roots(), ds.root_map(), nb), e).1[u]
                == unite_all((ds.roots(), ds.root_map(), nb), e).1[v]) <==> (ds.root_map()[u] == ds.root_map()[v]
                || exists|k: int| 0 <= k < e.len() && in_pair(ds.root_map(), e, k, u) && in_pair(ds.root_map(), e, k, v))),
{
    lemma_round_roots(ds, nb, e);
    ds.lemma_wf_facts();
    let m = ds.root_map();
    let r = unite_all((ds.roots(), m, nb), e).1;
    assert forall|u: usize, v: usize|
        #![trigger ds.live().contains(u), ds.live().contains(v)]
        ds.live().contains(u) && ds.live().contains(v) implies ((r[u] == r[v]) <==> (m[u] == m[v] || exists|k: int|
            0 <= k < e.len() && in_pair(m, e, k, u) && in_pair(m, e, k, v))) by {
        assert(ds.live().contains(m[u]) && ds.live().contains(m[v]));
        if exists|k: int| 0 <= k < e.len() && #[trigger] in_pair(m, e, k, u) {
            let k = choose|k: int| 0 <= k < e.len() && #[trigger] in_pair(m, e, k, u);
            assert(r[u] == e[k].0);
            if exists|l: int| 0 <= l < e.len() && #[trigger] in_pair(m, e, l, v) {
                let l = choose|l: int| 0 <= l < e.len() && #[trigger] in_pair(m, e, l, v);
                assert(r[v] == e[l].0);
                if k != l {
                    if k < l {
                        assert(e[k].0 != e[l].0);
                    } else {
                        assert(e[l].0 != e[k].0);
                    }
                    assert forall|j: int| 0 <= j < e.len() implies !(in_pair(m, e, j, u) && in_pair(m, e, j, v)) by {
                        if j != k {
                            if j < k {
                                assert(!(in_pair(m, e, j, u) && in_pair(m, e, k, u)));
                            } else {
                                assert(!(in_pair(m, e, k, u) && in_pair(m, e, j, u)));
                            }
                        } else if j != l {
                            if j < l {
                                assert(!(in_pair(m, e, j, v) && in_pair(m, e, l, v)));
                            } else {
                                assert(!(in_pair(m, e, l, v) && in_pair(m, e, j, v)));
                            }
                        }
                    }
                    if m[u] == m[v] {
                        assert(in_pair(m, e, k, v));
                    }
                }
            } else {
                assert(r[v] == m[v]);
                assert(!ds.live().contains(e[k].0));
                if m[u] == m[v] {
                    assert(in_pair(m, e, k, v));
                }
            }
        } else {
            assert(r[u] == m[u]);
            if exists|l: int| 0 <= l < e.len() && #[trigger] in_pair(m, e, l, v) {
                let l = choose|l: int| 0 <= l < e.len() && #[trigger] in_pair(m, e, l, v);
                assert(r[v] == e[l].0);
                assert(!ds.live().contains(e[l].0));
                if m[u] == m[v] {
                    assert(in_pair(m, e, l, u));
                }
            } else {
                assert(r[v] == m[v]);
            }
        }
    }
}

/// Two orders of the same merges of one round group the identifiers present
/// before in the same way.
pub proof fn lemma_round_order_independent(
    ds: DisjointSets,
    nb: Map<usize, Set<usize>>,
    e1: Seq<(usize, [usize; 2])>,
    e2: Seq<(usize, [usize; 2])>,
)
    requires
        ds.wf(),
        valid_round(ds, e1),
        valid_round(ds, e2),
        forall|k: int| 0 <= k < e1.len() ==> exists|l: int| 0 <= l < e2.len() && (#[trigger] e1[k]).1 == e2[l].1,
        forall|l: int| 0 <= l < e2.len() ==> exists|k: int| 0 <= k < e1.len() && (#[trigger] e2[l]).1 == e1[k].1,
    ensures
        forall|u: usize, v: usize|
            #![trigger ds.live().contains(u), ds.live().contains(v)]
            ds.live().contains(u) && ds.live().contains(v) ==> ((unite_all((ds.roots(), ds.root_map(), nb), e1).1[u]
                == unite_all((ds.roots(), ds.root_map(), nb), e1).1[v]) <==> (unite_all(
                (ds.roots(), ds.root_map(), nb),
                e2,
            ).1[u] == unite_all((ds.roots(), ds.root_map(), nb), e2).1[v])),
{
    lemma_round_grouping(ds, nb, e1);
    lemma_round_grouping(ds, nb, e2);
    let m = ds.root_map();
    assert forall|u: usize, v: usize|
        #![trigger ds.live().contains(u), ds.live().contains(v)]
        ds.live().contains(u) && ds.live().contains(v) implies ((exists|k: int|
            0 <= k < e1.len() && in_pair(m, e1, k, u) && in_pair(m, e1, k, v)) <==> (exists|l: int|
            0 <= l < e2.len() && in_pair(m, e2, l, u) && in_pair(m, e2, l, v))) by {
        if exists|k: int| 0 <= k < e1.len() && in_pair(m, e1, k, u) && in_pair(m, e1, k, v) {
            let k = choose|k: int| 0 <= k < e1.len() && in_pair(m, e1, k, u) && in_pair(m, e1, k, v);
            assert(e1[k] == e1[k]);
            let l = choose|l: int| 0 <= l < e2.len() && e1[k].1 == e2[l].1;
            assert(in_pair(m, e2, l, u) && in_pair(m, e2, l, v));
        }
        if exists|l: int| 0 <= l < e2.len() && in_pair(m, e2, l, u) && in_pair(m, e2, l, v) {
            let l = choose|l: int| 0 <= l < e2.len() && in_pair(m, e2, l, u) && in_pair(m, e2, l, v);
            assert(e2[l] == e2[l]);
            let k = choose|k: int| 0 <= k < e1.len() && e2[l].1 == e1[k].1;
            assert(in_pair(m, e1, k, u) && in_pair(m, e1, k, v));
        }
    }
}

/// One more identifier, the next one, is in use.
proof fn lemma_live_step(before: Set<usize>, after: Set<usize>, start: Set<usize>, lo: nat, hi: nat, new_id: usize)
    requires
        forall|v: usize| #[trigger] before.contains(v) <==> (start.contains(v) || (lo <= v < hi)),
        after == before.insert(new_id),
        new_id == hi,
        lo <= hi,
    ensures
        forall|v: usize| #[trigger] after.contains(v) <==> (start.contains(v) || (lo <= v < hi + 1)),
{
    assert forall|v: usize| #[trigger] after.contains(v) <==> (start.contains(v) || (lo <= v < hi + 1)) by {
        if v != new_id {
            assert(after.contains(v) == before.contains(v));
        }
    }
}

/// Each accepted pair comes from one of the answers.
pub proof fn lemma_accepted_from(s: Seq<(bool, usize, usize)>)
    ensures
        forall|q: int|
            0 <= q < accepted(s).len() ==> exists|j: int|
                0 <= j < s.len() && #[trigger] accepted(s)[q] == [s[j].1, s[j].2],
    decreases s.len(),
{
    if s.len() > 0 {
        let t = s.drop_last();
        lemma_accepted_from(t);
        assert forall|q: int|
            0 <= q < accepted(s).len() implies exists|j: int|
                0 <= j < s.len() && #[trigger] accepted(s)[q] == [s[j].1, s[j].2] by {
            if q < accepted(t).len() {
                let j = choose|j: int| 0 <= j < t.len() && #[trigger] accepted(t)[q] == [t[j].1, t[j].2];
                assert(s[j] == t[j]);
            } else {
                assert(accepted(s)[q] == [s[s.len() - 1].1, s[s.len() - 1].2]);
            }
        }
    }
}

/// There are no more accepted answers than answers.
pub proof fn accepted_len(s: Seq<(bool, usize, usize)>)
    ensures
        accepted(s).len() <= s.len(),
    decreases s.len(),
{
    if s.len() > 0 {
        accepted_len(s.drop_last());
    }
}

spec fn old_events_at(e: Seq<(usize, [usize; 2])>, j: int) -> (usize, [usize; 2]) {
    e[j]
}

/// Sharing an edge does not depend on the order of the two regions.
proof fn lemma_neighbors_symmetric(a: ImageContainerSplit, b: ImageContainerSplit)
    ensures
        ImageContainerSplit::neighbors_spec(a, b) == ImageContainerSplit::neighbors_spec(b, a),
{
}

impl MergeState {
    /// The image being segmented.
    pub closed spec fn image_spec(&self) -> ImageContainer {
        self.image
    }

    /// The forest of regions.
    pub closed spec fn forest(&self) -> DisjointSets {
        self.disjoint_sets
    }

    /// The region stored under each identifier.
    pub closed spec fn areas_spec(&self) -> Map<usize, Area> {
        self.areas@
    }

    /// The identifier the next merged region will get.
    pub closed spec fn next_id(&self) -> nat {
        self.next_area_id as nat
    }

    /// The pixels of the region `id`.
    pub open spec fn mask_of(&self, id: usize) -> Seq<u8> {
        self.areas_spec()[id].marker.mask_spec(
            self.image_spec().height as int,
            self.image_spec().width as int,
        )
    }

    /// Every identifier of the forest has its region, whose stored mask has
    /// the image's dimensions, and every identifier in use is below the next.
    pub open spec fn wf(&self) -> bool {
        &&& self.image_spec().wf()
        &&& self.image_spec().height * self.image_spec().width <= usize::MAX
        &&& self.forest().wf()
        &&& self.areas_spec().dom() == self.forest().live()
        &&& forall|id: usize| #[trigger]
            self.areas_spec().contains_key(id) ==> self.areas_spec()[id].id == id
                && self.areas_spec()[id].marker.fits(
                self.image_spec().height as int,
                self.image_spec().width as int,
            )
        &&& forall|id: usize| #[trigger] self.forest().live().contains(id) ==> id < self.next_id()
    }

    /// Materialises the region `id` as a mask; no region changes its pixels.
    fn materialize(&mut self, id: usize)
        requires
            old(self).wf(),
            old(self).areas_spec().contains_key(id),
        ensures
            final(self).wf(),
            final(self).image_spec() == old(self).image_spec(),
            final(self).forest() == old(self).forest(),
            final(self).next_id() == old(self).next_id(),
            final(self).areas_spec().dom() == old(self).areas_spec().dom(),
            final(self).areas_spec()[id].marker is MaskedArea,
            forall|w: usize| #[trigger] old(self).areas_spec().contains_key(w) ==> final(self).mask_of(w) == old(self).mask_of(w),
            forall|w: usize| w != id ==> #[trigger] final(self).areas_spec()[w] == old(self).areas_spec()[w],
    {
        let mut area = self.areas.remove(&id).unwrap();
        area.marker.to_maks(&self.image);
        self.areas.insert(id, area);
        assert(self.areas@.dom() =~= old(self).areas@.dom());
    }

    /// The stored mask of region `id`, once it has been materialised.
    pub fn area_mask(&self, id: usize) -> (r: Option<&Mask>)
        requires
            self.wf(),
        ensures
            r is Some <==> (self.areas_spec().contains_key(id) && self.areas_spec()[id].marker is MaskedArea),
            r is Some ==> r.unwrap().wf() && r.unwrap().rows == self.image_spec().height && r.unwrap().cols
                == self.image_spec().width && r.unwrap().data@ == self.mask_of(id),
    {
        match self.areas.get(&id) {
            Some(a) => match &a.marker {
                AreaMarker::MaskedArea(m) => Some(m),
                AreaMarker::SquaredArea { .. } => None,
            },
            None => None,
        }
    }

    /// Chooses the pairs of adjacent regions to examine in this round (see
    /// `DisjointSets::valid_pairs`) and materialises the masks of their
    /// regions, which `area_mask` then gives.
    pub fn send_merge_request(&mut self) -> (r: Vec<[usize; 2]>)
        requires
            old(self).wf(),
        ensures
            final(self).wf(),
            final(self).image_spec() == old(self).image_spec(),
            final(self).forest() == old(self).forest(),
            final(self).next_id() == old(self).next_id(),
            final(self).forest().valid_pairs(r@),
            forall|i: int, k: int|
                0 <= i < r@.len() && 0 <= k < 2 ==> (#[trigger] final(self).areas_spec()[r@[i][k]]).marker is MaskedArea,
            forall|w: usize| #[trigger] old(self).areas_spec().contains_key(w) ==> final(self).mask_of(w) == old(self).mask_of(w),
    {
        let pairs = self.disjoint_sets.get_tuple_of_items_to_check();
        let ghost s0 = *self;
        proof {
            self.disjoint_sets.lemma_wf_facts();
        }
        let mut i: usize = 0;
        while i < pairs.len()
            invariant
                self.wf(),
                self.image_spec() == s0.image_spec(),
                self.forest() == s0.forest(),
                self.next_id() == s0.next_id(),
                self.areas_spec().dom() == s0.areas_spec().dom(),
                s0.forest().valid_pairs(pairs@),
                s0.forest().wf(),
                i <= pairs@.len(),
                forall|j: int, k: int|
                    0 <= j < i && 0 <= k < 2 ==> (#[trigger] self.areas_spec()[pairs@[j][k]]).marker is MaskedArea,
                forall|w: usize| #[trigger] s0.areas_spec().contains_key(w) ==> self.mask_of(w) == s0.mask_of(w),
            decreases pairs@.len() - i,
        {
            let a = pairs[i][0];
            let b = pairs[i][1];
            proof {
                s0.forest().lemma_wf_facts();
                assert(s0.forest().roots().contains(pairs@[i as int][0]));
                assert(s0.forest().live().contains(a));
                assert(s0.forest().live().contains(b));
            }
            self.materialize(a);
            self.materialize(b);
            i = i + 1;
        }
        pairs
    }

    /// Applies the answers of one round, each `(merge, a, b)`. Rejected
    /// pairs are first forgotten as neighbors, so that they are not proposed
    /// again; then each accepted pair, in order, becomes a new region with
    /// the next identifier, whose mask is the union of both masks. The
    /// merges are returned as `(new_id, [a, b])`.
    ///
    /// Fails with `NotFound` when an answer names an unknown region; it
    /// succeeds whenever every region named is present beforehand.
    #[verifier::spinoff_prover]
    pub fn receive_merge_result(&mut self, results: &Vec<(bool, usize, usize)>) -> (r: Result<
        Vec<(usize, [usize; 2])>,
        SplitMergeError,
    >)
        requires
            old(self).wf(),
            old(self).next_id() + results@.len() <= usize::MAX,
        ensures
            final(self).wf(),
            final(self).image_spec() == old(self).image_spec(),
            (forall|j: int|
                0 <= j < results@.len() ==> old(self).forest().live().contains((#[trigger] results@[j]).1)
                    && old(self).forest().live().contains(results@[j].2)) ==> r is Ok,
            r is Err ==> r->Err_0 == SplitMergeError::NotFound,
            r is Ok ==> r->Ok_0@.len() == accepted(results@).len(),
            r is Ok ==> final(self).next_id() == old(self).next_id() + r->Ok_0@.len(),
            r is Ok ==> forall|k: int|
                0 <= k < r->Ok_0@.len() ==> (#[trigger] r->Ok_0@[k]).0 == old(self).next_id() + k
                    && r->Ok_0@[k].1 == accepted(results@)[k],
            r is Ok ==> forall|k: int|
                0 <= k < r->Ok_0@.len() ==> crate::area::is_union(
                    final(self).mask_of((#[trigger] r->Ok_0@[k]).0),
                    final(self).mask_of(r->Ok_0@[k].1[0]),
                    final(self).mask_of(r->Ok_0@[k].1[1]),
                ),
            r is Ok ==> forall|w: usize|
                #[trigger] old(self).areas_spec().contains_key(w) ==> final(self).mask_of(w) == old(self).mask_of(w),
            r is Ok ==> forest_view(final(self).forest()) == unite_all(
                (
                    old(self).forest().roots(),
                    old(self).forest().root_map(),
                    unlink_all(old(self).forest().neighbor_map(), results@),
                ),
                r->Ok_0@,
            ),
            r is Ok ==> forall|v: usize|
                final(self).forest().live().contains(v) <==> (old(self).forest().live().contains(v) || (
                old(self).next_id() <= v < final(self).next_id())),
            r is Ok ==> forall|k: int|
                0 <= k < r->Ok_0@.len() ==> {
                    let m = final(self).forest().root_map();
                    &&& m[(#[trigger] r->Ok_0@[k]).0] == m[r->Ok_0@[k].1[0]]
                    &&& m[r->Ok_0@[k].0] == m[r->Ok_0@[k].1[1]]
                },
            r is Ok ==> forall|j: int|
                0 <= j < results@.len() && !(#[trigger] results@[j]).0 ==> {
                    let n = final(self).forest().neighbor_map();
                    !n[results@[j].1].contains(results@[j].2) && !n[results@[j].2].contains(results@[j].1)
                },
    {
        let ghost s0 = *self;
        let mut to_merge: Vec<[usize; 2]> = Vec::new();
        let mut i: usize = 0;
        while i < results.len()
            invariant
                s0 == *old(self),
                self.wf(),
                self.image_spec() == s0.image_spec(),
                self.next_id() == s0.next_id(),
                self.areas_spec() == s0.areas_spec(),
                self.forest().live() == s0.forest().live(),
                i <= results@.len(),
                to_merge@ == accepted(results@.subrange(0, i as int)),
                self.forest().roots() == s0.forest().roots(),
                self.forest().root_map() == s0.forest().root_map(),
                self.forest().neighbor_map() == unlink_all(s0.forest().neighbor_map(), results@.subrange(0, i as int)),
                forall|j: int|
                    0 <= j < i && !(#[trigger] results@[j]).0 ==> s0.forest().live().contains(results@[j].1)
                        && s0.forest().live().contains(results@[j].2),
                forall|j: int|
                    0 <= j < i && !(#[trigger] results@[j]).0 ==> {
                        let n = self.forest().neighbor_map();
                        !n[results@[j].1].contains(results@[j].2) && !n[results@[j].2].contains(results@[j].1)
                    },
            decreases results@.len() - i,
        {
            let (to_merge_pair, id_a, id_b) = results[i];
            proof {
                assert(results@.subrange(0, i + 1).drop_last() =~= results@.subrange(0, i as int));
            }
            if !to_merge_pair {
                let ghost before = self.disjoint_sets;
                assert(!results@.subrange(0, i + 1).last().0);
                if self.disjoint_sets.mark_as_non_neighbors(id_a, id_b).is_err() {
                    return Err(SplitMergeError::NotFound);
                }
                proof {
                    assert forall|j: int|
                        0 <= j < i + 1 && !(#[trigger] results@[j]).0 implies {
                            let n = self.forest().neighbor_map();
                            !n[results@[j].1].contains(results@[j].2) && !n[results@[j].2].contains(results@[j].1)
                        } by {
                        if j < i {
                            let n0 = before.neighbor_map();
                            assert(!n0[results@[j].1].contains(results@[j].2));
                            assert(!n0[results@[j].2].contains(results@[j].1));
                        }
                    }
                }
            } else {
                to_merge.push([id_a, id_b]);
            }
            i = i + 1;
        }
        assert(results@.subrange(0, i as int) =~= results@);
        let mut events: Vec<(usize, [usize; 2])> = Vec::new();
        let mut k: usize = 0;
        proof {
            accepted_len(results@);
            lemma_accepted_from(results@);
        }
        while k < to_merge.len()
            invariant
                s0 == *old(self),
                self.wf(),
                self.image_spec() == s0.image_spec(),
                to_merge@ == accepted(results@),
                forall|q: int|
                    0 <= q < to_merge@.len() ==> exists|j: int|
                        0 <= j < results@.len() && #[trigger] to_merge@[q] == [results@[j].1, results@[j].2],
                to_merge@.len() <= results@.len(),
                s0.next_id() + results@.len() <= usize::MAX,
                k <= to_merge@.len(),
                self.next_id() == s0.next_id() + k,
                events@.len() == k,
                forall|j: int| 0 <= j < k ==> (#[trigger] events@[j]).0 == s0.next_id() + j && events@[j].1 == to_merge@[j],
                forall|w: usize| #[trigger] s0.areas_spec().contains_key(w) ==> self.areas_spec().contains_key(w)
                    && self.mask_of(w) == s0.mask_of(w),
                forest_view(self.forest()) == unite_all(
                    (
                        s0.forest().roots(),
                        s0.forest().root_map(),
                        unlink_all(s0.forest().neighbor_map(), results@),
                    ),
                    events@,
                ),
                forall|j: int|
                    0 <= j < k ==> self.areas_spec().contains_key((#[trigger] events@[j]).0)
                        && self.areas_spec().contains_key(events@[j].1[0]) && self.areas_spec().contains_key(
                        events@[j].1[1],
                    ),
                forall|j: int|
                    0 <= j < k ==> crate::area::is_union(
                        self.mask_of((#[trigger] events@[j]).0),
                        self.mask_of(events@[j].1[0]),
                        self.mask_of(events@[j].1[1]),
                    ),
                forall|v: usize|
                    self.forest().live().contains(v) <==> (s0.forest().live().contains(v) || (s0.next_id() <= v
                        < self.next_id())),
                forall|j: int|
                    0 <= j < k ==> {
                        let m = self.forest().root_map();
                        &&& m[(#[trigger] events@[j]).0] == m[events@[j].1[0]]
                        &&& m[events@[j].0] == m[events@[j].1[1]]
                    },
                forall|j: int|
                    0 <= j < results@.len() && !(#[trigger] results@[j]).0 ==> {
                        let n = self.forest().neighbor_map();
                        !n[results@[j].1].contains(results@[j].2) && !n[results@[j].2].contains(results@[j].1)
                    },
                forall|j: int|
                    0 <= j < results@.len() && !(#[trigger] results@[j]).0 ==> s0.forest().live().contains(results@[j].1)
                        && s0.forest().live().contains(results@[j].2),
            decreases to_merge@.len() - k,
        {
            let id_a = to_merge[k][0];
            let id_b = to_merge[k][1];
            if !self.areas.contains_key(&id_a) || !self.areas.contains_key(&id_b) {
                proof {
                    let j = choose|j: int|
                        0 <= j < results@.len() && #[trigger] to_merge@[k as int] == [results@[j].1, results@[j].2];
                    assert(!(s0.forest().live().contains(results@[j].1) && s0.forest().live().contains(results@[j].2)));
                }
                return Err(SplitMergeError::NotFound);
            }
            let ghost s2 = *self;
            assert(forall|v: usize|
                #[trigger] s2.forest().live().contains(v) <==> (s0.forest().live().contains(v) || (s0.next_id() <= v
                    < s2.next_id())));
            let new_item_id = self.next_area_id;
            self.next_area_id = self.next_area_id + 1;
            self.materialize(id_a);
            self.materialize(id_b);
            let marker = match (self.area_mask(id_a), self.area_mask(id_b)) {
                (Some(ma), Some(mb)) => AreaMarker::merge(ma, mb),
                _ => {
                    return Err(SplitMergeError::NotFound);
                },
            };
            let ghost s3 = *self;
            self.areas.insert(new_item_id, Area::new_from_id_and_marker(new_item_id, marker));
            let ghost f3 = self.disjoint_sets;
            let _ = self.disjoint_sets.create_new(new_item_id, [id_a, id_b]);
            proof {
                assert forall|j: int|
                    0 <= j < results@.len() && !(#[trigger] results@[j]).0 implies {
                        let n = self.forest().neighbor_map();
                        !n[results@[j].1].contains(results@[j].2) && !n[results@[j].2].contains(results@[j].1)
                    } by {
                    assert(results@[j].1 != new_item_id);
                    assert(results@[j].2 != new_item_id);
                }
            }
            proof {
                assert(self.disjoint_sets.is_union_of(f3, new_item_id, id_a, id_b));
                assert(f3 == s2.forest());
                lemma_live_step(s2.forest().live(), self.forest().live(), s0.forest().live(), s0.next_id(), s2.next_id(), new_item_id);
                assert forall|w: usize| #[trigger] s0.areas_spec().contains_key(w) implies self.areas_spec().contains_key(w)
                    && self.mask_of(w) == s0.mask_of(w) by {
                    assert(s2.areas_spec().contains_key(w));
                    assert(s3.areas_spec().contains_key(w));
                    assert(w != new_item_id);
                }
            }
            let ghost ev0 = events@;
            events.push((new_item_id, [id_a, id_b]));
            proof {
                assert(events@.drop_last() =~= ev0);
                assert(self.disjoint_sets.is_union_of(f3, new_item_id, id_a, id_b));
                assert(f3.live().contains(id_a) && f3.live().contains(id_b) && !f3.live().contains(new_item_id));
                assert(self.disjoint_sets.is_union_of(f3, new_item_id, id_a, id_b));
                f3.lemma_wf_facts();
                assert forall|j: int|
                    0 <= j < k + 1 implies {
                        let m = self.forest().root_map();
                        &&& m[(#[trigger] events@[j]).0] == m[events@[j].1[0]]
                        &&& m[events@[j].0] == m[events@[j].1[1]]
                    } by {
                    if j < k {
                        assert(events@[j] == old_events_at(events@, j));
                        let m0 = f3.root_map();
                        assert(m0[events@[j].0] == m0[events@[j].1[0]]);
                        assert(m0[events@[j].0] == m0[events@[j].1[1]]);
                        assert(f3.live().contains(events@[j].0));
                        assert(f3.live().contains(events@[j].1[0]));
                        assert(f3.live().contains(events@[j].1[1]));
                    } else {
                        assert(events@[j] == (new_item_id, [id_a, id_b]));
                    }
                }

                assert(self.areas@.dom() =~= self.disjoint_sets.live());
                assert forall|w: usize| #[trigger] s2.areas_spec().contains_key(w) implies self.mask_of(w) == s2.mask_of(w) by {
                    assert(w != new_item_id);
                }
                assert forall|j: int|
                    0 <= j < k + 1 implies crate::area::is_union(
                        self.mask_of((#[trigger] events@[j]).0),
                        self.mask_of(events@[j].1[0]),
                        self.mask_of(events@[j].1[1]),
                    ) by {
                    if j < k {
                        assert(events@[j] == old_events_at(events@, j));
                        assert(s2.areas_spec().contains_key(events@[j].0));
                        assert(s2.areas_spec().contains_key(events@[j].1[0]));
                        assert(s2.areas_spec().contains_key(events@[j].1[1]));
                    } else {
                        assert(events@[j] == (new_item_id, [id_a, id_b]));
                        assert(self.mask_of(id_a) == s3.mask_of(id_a));
                        assert(self.mask_of(id_b) == s3.mask_of(id_b));
                    }
                }
            }
            k = k + 1;
        }
        proof {
            let ev = events@;
            assert(ev.len() == accepted(results@).len());
            assert(self.next_id() == s0.next_id() + ev.len());
            assert(forall|j: int| 0 <= j < ev.len() ==> (#[trigger] ev[j]).0 == s0.next_id() + j && ev[j].1 == accepted(results@)[j]);
            assert(forall|j: int|
                0 <= j < ev.len() ==> crate::area::is_union(
                    self.mask_of((#[trigger] ev[j]).0),
                    self.mask_of(ev[j].1[0]),
                    self.mask_of(ev[j].1[1]),
                ));
            assert forall|v: usize|
                #[trigger] self.forest().live().contains(v) <==> (old(self).forest().live().contains(v) || (
                old(self).next_id() <= v < self.next_id())) by {
                assert(s0.forest().live().contains(v) == old(self).forest().live().contains(v));
            }
        }
        Ok(events)
    }

    /// Rewrites the neighbor sets of the forest's roots; see
    /// `DisjointSets::clear_data`.
    pub fn clear_data(&mut self)
        requires
            old(self).wf(),
        ensures
            final(self).wf(),
            final(self).image_spec() == old(self).image_spec(),
            final(self).next_id() == old(self).next_id(),
            final(self).areas_spec() == old(self).areas_spec(),
            final(self).forest().live() == old(self).forest().live(),
            final(self).forest().roots() == old(self).forest().roots(),
            final(self).forest().root_map() == old(self).forest().root_map(),
            forall|v: usize|
                old(self).forest().live().contains(v) && !old(self).forest().roots().contains(v)
                    ==> #[trigger] final(self).forest().neighbor_map()[v] == old(self).forest().neighbor_map()[v],
            forall|v: usize| #[trigger]
                old(self).forest().roots().contains(v) ==> final(self).forest().neighbor_map()[v]
                    == crate::disjoint_set::compacted(
                    old(self).forest().neighbor_map()[v],
                    old(self).forest().root_map(),
                    v,
                ),
            forall|v: usize, n: usize|
                final(self).forest().roots().contains(v) && #[trigger] final(self).forest().neighbor_map()[v].contains(n)
                    ==> final(self).forest().roots().contains(n) && n != v,
    {
        self.disjoint_sets.clear_data();
    }

    /// The forest.
    pub fn disjoint_sets(&self) -> (r: &DisjointSets)
        ensures
            *r == self.forest(),
    {
        &self.disjoint_sets
    }

    /// The identifier the next merged region will get.
    pub fn next_area_id(&self) -> (r: usize)
        ensures
            r == self.next_id(),
    {
        self.next_area_id
    }

    /// The start of the merge phase: every leaf of the split tree becomes a
    /// region of its own, kept as its rectangle, and two leaves are
    /// neighbors exactly when their rectangles share an edge. The next
    /// identifier is one past the largest leaf identifier.
    pub fn initialize(split: &SplitState) -> (r: MergeState)
        requires
            split.wf(),
            split.image_spec().height * split.image_spec().width <= usize::MAX,
        ensures
            r.wf(),
            r.image_spec() == split.image_spec(),
            ({
                let l = leaves(split.tree(), 0);
                &&& forall|v: usize|
                    r.forest().live().contains(v) <==> exists|k: int| 0 <= k < l.len() && (#[trigger] l[k]).0 == v
                &&& r.forest().roots() == r.forest().live()
                &&& forall|k: int|
                    0 <= k < l.len() ==> (#[trigger] r.areas_spec()[l[k].0]).marker == (AreaMarker::SquaredArea {
                        height: l[k].1.height,
                        width: l[k].1.width,
                        y_start: l[k].1.y_start,
                        x_start: l[k].1.x_start,
                    })
                &&& forall|p: int, q: int|
                    0 <= p < l.len() && 0 <= q < l.len() ==> (r.forest().neighbor_map()[(#[trigger] l[p]).0].contains(
                        (#[trigger] l[q]).0,
                    ) <==> ImageContainerSplit::neighbors_spec(l[p].1, l[q].1))
                &&& forall|v: usize| r.forest().live().contains(v) ==> v < r.next_id()
                &&& r.forest().live().contains((r.next_id() - 1) as usize)
            }),
    {
        let tree = split.split_tree();
        let ghost l = leaves(tree@, 0);
        proof {
            lemma_leaves_partition(tree@, 0);
            lemma_leaf_ids_distinct(tree@, 0);
            let r0 = tree@[0].image;
            assert(r0.contains(r0.x_start as int, r0.y_start as int));
            assert(l.len() >= 1);
        }
        let mut v: Vec<(usize, ImageContainerSplit)> = Vec::new();
        tree[0].collect_leafs(tree, &mut v);
        assert(v@ =~= l);
        let image = split.image();
        let tree_len = tree.len();
        let mut forest = DisjointSets::new();
        proof {
            forest.lemma_wf_facts();
        }
        let mut areas: HashMap<usize, Area> = HashMap::new();
        let mut max_id: usize = 0;
        let mut i: usize = 0;
        while i < v.len()
            invariant
                v@ == l,
                i <= v@.len(),
                forest.wf(),
                image == split.image_spec(),
                forall|k1: int, k2: int|
                    0 <= k1 < l.len() && 0 <= k2 < l.len() && k1 != k2 ==> (#[trigger] l[k1]).0 != (#[trigger] l[k2]).0,
                forall|k: int| 0 <= k < l.len() ==> (#[trigger] l[k]).1.wf(),
                forall|w: usize|
                    forest.live().contains(w) <==> exists|k: int| 0 <= k < i && (#[trigger] l[k]).0 == w,
                forest.roots() == forest.live(),
                areas@.dom() == forest.live(),
                forall|k: int|
                    0 <= k < i ==> (#[trigger] areas@[l[k].0]).marker == (AreaMarker::SquaredArea {
                        height: l[k].1.height,
                        width: l[k].1.width,
                        y_start: l[k].1.y_start,
                        x_start: l[k].1.x_start,
                    }),
                forall|w: usize| #[trigger] areas@.contains_key(w) ==> areas@[w].id == w && areas@[w].marker is SquaredArea,
                forall|w: usize| forest.live().contains(w) ==> w <= max_id,
                i > 0 ==> forest.live().contains(max_id),
                i == 0 ==> max_id == 0,
                max_id < tree_len,
                tree_len == tree@.len(),
                forall|k: int| 0 <= k < l.len() ==> (#[trigger] l[k]).0 < tree_len,
                forall|w: usize| #[trigger] forest.neighbor_map().contains_key(w) ==> forest.neighbor_map()[w] == Set::<usize>::empty(),
            decreases v@.len() - i,
        {
            let (id, rect) = v[i];
            proof {
                forest.lemma_wf_facts();
                if forest.live().contains(id) {
                    let k = choose|k: int| 0 <= k < i && (#[trigger] l[k]).0 == id;
                    assert(l[k].0 != l[i as int].0);
                }
            }
            let _ = forest.add_item(id);
            assert(forest.live().contains(id));
            areas.insert(id, Area::new_from_split(id, &rect));
            if id > max_id {
                max_id = id;
            }
            assert(forest.live().contains(max_id)) by {
                if max_id != id {
                    assert(i > 0 || id == 0);
                }
            }
            proof {
                assert forall|w: usize|
                    forest.live().contains(w) <==> exists|k: int| 0 <= k < i + 1 && (#[trigger] l[k]).0 == w by {
                    if w == id {
                        assert(l[i as int].0 == w);
                    }
                }
            }
            i = i + 1;
        }
        let n = v.len();
        let mut p: usize = 0;
        proof {
            assert(n >= 1);
            forest.lemma_wf_facts();
            assert forall|a: int, b: int|
                0 <= a < n && 0 <= b < n implies !forest.neighbor_map()[(#[trigger] l[a]).0].contains((#[trigger] l[b]).0) by {
                assert(forest.live().contains(l[a].0));
            }
        }
        while p < n
            invariant
                n == l.len(),
                v@ == l,
                p <= n,
                forest.wf(),
                forall|k1: int, k2: int|
                    0 <= k1 < l.len() && 0 <= k2 < l.len() && k1 != k2 ==> (#[trigger] l[k1]).0 != (#[trigger] l[k2]).0,
                forall|k: int| 0 <= k < l.len() ==> (#[trigger] l[k]).1.wf(),
                forall|w: usize|
                    forest.live().contains(w) <==> exists|k: int| 0 <= k < n && (#[trigger] l[k]).0 == w,
                areas@.dom() == forest.live(),
                forall|k: int|
                    0 <= k < n ==> (#[trigger] areas@[l[k].0]).marker == (AreaMarker::SquaredArea {
                        height: l[k].1.height,
                        width: l[k].1.width,
                        y_start: l[k].1.y_start,
                        x_start: l[k].1.x_start,
                    }),
                forall|w: usize| #[trigger] areas@.contains_key(w) ==> areas@[w].id == w && areas@[w].marker is SquaredArea,
                forall|w: usize| forest.live().contains(w) ==> w <= max_id,
                forest.live().contains(max_id),
                max_id < tree_len,
                tree_len == tree@.len(),
                image == split.image_spec(),
                forest.roots() == forest.live(),
                forall|a: int, b: int|
                    0 <= a < n && 0 <= b < n ==> (forest.neighbor_map()[(#[trigger] l[a]).0].contains((#[trigger] l[b]).0)
                        <==> (done(a, b, p as int, 0) && ImageContainerSplit::neighbors_spec(l[a].1, l[b].1))),
            decreases n - p,
        {
            let mut q: usize = p + 1;
            while q < n
                invariant
                    n == l.len(),
                    v@ == l,
                    p < n,
                    p < q <= n,
                    forest.wf(),
                    forall|k1: int, k2: int|
                        0 <= k1 < l.len() && 0 <= k2 < l.len() && k1 != k2 ==> (#[trigger] l[k1]).0 != (#[trigger] l[k2]).0,
                    forall|k: int| 0 <= k < l.len() ==> (#[trigger] l[k]).1.wf(),
                    forall|w: usize|
                        forest.live().contains(w) <==> exists|k: int| 0 <= k < n && (#[trigger] l[k]).0 == w,
                areas@.dom() == forest.live(),
                    forall|k: int|
                        0 <= k < n ==> (#[trigger] areas@[l[k].0]).marker == (AreaMarker::SquaredArea {
                            height: l[k].1.height,
                            width: l[k].1.width,
                            y_start: l[k].1.y_start,
                            x_start: l[k].1.x_start,
                        }),
                    forall|w: usize| #[trigger] areas@.contains_key(w) ==> areas@[w].id == w && areas@[w].marker is SquaredArea,
                    forall|w: usize| forest.live().contains(w) ==> w <= max_id,
                    forest.live().contains(max_id),
                    max_id < tree_len,
                    tree_len == tree@.len(),
                    image == split.image_spec(),
                    forest.roots() == forest.live(),
                    forall|a: int, b: int|
                        0 <= a < n && 0 <= b < n ==> (forest.neighbor_map()[(#[trigger] l[a]).0].contains((#[trigger] l[b]).0)
                            <==> (done(a, b, p as int, q as int) && ImageContainerSplit::neighbors_spec(l[a].1, l[b].1))),
                decreases n - q,
            {
                if ImageContainerSplit::are_neighbors(&v[p].1, &v[q].1) {
                    let ghost before = forest;
                    proof {
                        assert(forest.live().contains(l[p as int].0));
                        assert(forest.live().contains(l[q as int].0));
                    }
                    let _ = forest.set_as_neighbors(v[p].0, v[q].0);
                    proof {
                        before.lemma_wf_facts();
                        assert forall|a: int, b: int|
                            0 <= a < n && 0 <= b < n implies (forest.neighbor_map()[(#[trigger] l[a]).0].contains((#[trigger] l[b]).0)
                                <==> (done(a, b, p as int, q + 1) && ImageContainerSplit::neighbors_spec(l[a].1, l[b].1))) by {
                            assert(before.live().contains(l[a].0));
                            assert(before.live().contains(l[b].0));
                            if a != p && a != q {
                                assert(l[a].0 != l[p as int].0 && l[a].0 != l[q as int].0);
                            }
                            if b != p && b != q {
                                assert(l[b].0 != l[p as int].0 && l[b].0 != l[q as int].0);
                            }
                            if a == p && b != q {
                                assert(l[b].0 != l[q as int].0);
                            }
                            if a == q && b != p {
                                assert(l[b].0 != l[p as int].0);
                            }
                            assert(l[p as int].0 != l[q as int].0);
                        }
                    }
                } else {
                    proof {
                        assert forall|a: int, b: int|
                            0 <= a < n && 0 <= b < n implies (forest.neighbor_map()[(#[trigger] l[a]).0].contains((#[trigger] l[b]).0)
                                <==> (done(a, b, p as int, q + 1) && ImageContainerSplit::neighbors_spec(l[a].1, l[b].1))) by {
                            lemma_neighbors_symmetric(l[a].1, l[b].1);
                        }
                    }
                }
                q = q + 1;
            }
            p = p + 1;
        }
        let state = MergeState { image, disjoint_sets: forest, areas, next_area_id: max_id + 1 };
        proof {
            state.disjoint_sets.lemma_wf_facts();
        }
        state
    }
}

} // verus!
