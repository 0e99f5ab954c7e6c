use vstd::prelude::*;

verus! {

/// `true` when `x` is an element of `v`.
pub fn contains_id(v: &Vec<usize>, x: usize) -> (r: bool)
    ensures
        r == v@.contains(x),
{
    let mut i: usize = 0;
    while i < v.len()
        invariant
            i <= v.len(),
            forall|j: int| 0 <= j < i ==> v@[j] != x,
        decreases v.len() - i,
    {
        if v[i] == x {
            return true;
        }
        i = i + 1;
    }
    false
}

/// Pushing `y` adds exactly `y` to what a sequence contains.
pub proof fn lemma_push_contains(s: Seq<usize>, y: usize)
    ensures
        forall|z: usize| #[trigger] s.push(y).contains(z) <==> (s.contains(z) || z == y),
{
    assert forall|z: usize| #[trigger] s.push(y).contains(z) implies (s.contains(z) || z == y) by {
        let k = choose|k: int| 0 <= k < s.push(y).len() && s.push(y)[k] == z;
        if k < s.len() {
            assert(s[k] == z);
        }
    }
    assert forall|z: usize| (s.contains(z) || z == y) implies #[trigger] s.push(y).contains(z) by {
        if s.contains(z) {
            let k = choose|k: int| 0 <= k < s.len() && s[k] == z;
            assert(s.push(y)[k] == z);
        } else {
            assert(s.push(y)[s.len() as int] == z);
        }
    }
}

/// Adds `x` to `v` unless it is already there.
pub fn insert_id(v: &mut Vec<usize>, x: usize)
    ensures
        final(v)@.to_set() == old(v)@.to_set().insert(x),
        old(v)@.no_duplicates() ==> final(v)@.no_duplicates(),
{
    if !contains_id(v, x) {
        proof {
            lemma_push_contains(v@, x);
        }
        v.push(x);
    }
    assert(final(v)@.to_set() =~= old(v)@.to_set().insert(x));
}

/// The elements of `v` other than `x`, in their order.
pub fn without_id(v: &Vec<usize>, x: usize) -> (r: Vec<usize>)
    ensures
        r@.to_set() == v@.to_set().remove(x),
        v@.no_duplicates() ==> r@.no_duplicates(),
{
    let mut r: Vec<usize> = Vec::new();
    let mut i: usize = 0;
    while i < v.len()
        invariant
            i <= v.len(),
            forall|y: usize| #[trigger]
                r@.contains(y) <==> (y != x && exists|j: int| 0 <= j < i && v@[j] == y),
            v@.no_duplicates() ==> r@.no_duplicates(),
        decreases v.len() - i,
    {
        let y = v[i];
        if y != x {
            proof {
                lemma_push_contains(r@, y);
                if v@.no_duplicates() && r@.contains(y) {
                    let j = choose|j: int| 0 <= j < i && v@[j] == y;
                    assert(v@[j] == v@[i as int]);
                }
                assert(v@.no_duplicates() ==> forall|a: int, b: int|
                    0 <= a < b < r@.push(y).len() ==> #[trigger] r@.push(y)[a] != #[trigger] r@.push(y)[b]) by {
                    if v@.no_duplicates() {
                        assert forall|a: int, b: int|
                            0 <= a < b < r@.push(y).len() implies #[trigger] r@.push(y)[a] != #[trigger] r@.push(y)[b] by {
                            if b == r@.len() {
                                assert(r@.contains(r@[a]));
                            }
                        }
                    }
                }
            }
            r.push(y);
        }
        assert(forall|z: usize| #[trigger]
            r@.contains(z) <==> (z != x && exists|j: int| 0 <= j < i + 1 && v@[j] == z)) by {
            assert(v@[i as int] == y);
        }
        i = i + 1;
    }
    assert(r@.to_set() =~= v@.to_set().remove(x));
    r
}

/// A copy of `v`.
pub fn copy_ids(v: &Vec<usize>) -> (r: Vec<usize>)
    ensures
        r@ == v@,
{
    let mut r: Vec<usize> = Vec::new();
    let mut i: usize = 0;
    while i < v.len()
        invariant
            i <= v.len(),
            r@ == v@.subrange(0, i as int),
        decreases v.len() - i,
    {
        r.push(v[i]);
        i = i + 1;
    }
    assert(r@ =~= v@);
    r
}

} // verus!
