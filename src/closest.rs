//! Ordering identifiers by distance to a target, and placing the local
//! identifier among them.

use vstd::prelude::*;
use crate::distance::KBucketsPeerId;

verus! {

broadcast use vstd::seq_lib::group_to_multiset_ensures;

/// `s` is ordered by non-decreasing distance to `target`.
pub open spec fn sorted_by_distance<Id: KBucketsPeerId>(s: Seq<Id>, target: Id) -> bool {
    forall|i: int, j: int|
        0 <= i < j < s.len() ==> Id::spec_distance(#[trigger] s[i], target) <= Id::spec_distance(
            #[trigger] s[j],
            target,
        )
}

/// Sorts identifiers by ascending distance to `target`, closest first.
pub fn sort_by_distance<Id: KBucketsPeerId>(ids: Vec<Id>, target: &Id) -> (r: Vec<Id>)
    ensures
        r@.to_multiset() == ids@.to_multiset(),
        sorted_by_distance(r@, *target),
{
    let mut rest = ids;
    let mut out: Vec<Id> = Vec::new();
    while rest.len() > 0
        invariant
            out@.to_multiset().add(rest@.to_multiset()) == ids@.to_multiset(),
            sorted_by_distance(out@, *target),
        decreases rest.len(),
    {
        let ghost before = rest@;
        let x = rest.pop().unwrap();
        assert(before =~= rest@.push(x));
        let dx = x.distance_with(target);
        let mut k: usize = 0;
        while k < out.len()
            invariant
                k <= out@.len(),
                Id::distance_value(dx) == Id::spec_distance(x, *target),
                forall|j: int|
                    0 <= j < k ==> Id::spec_distance(#[trigger] out@[j], *target)
                        <= Id::spec_distance(x, *target),
            ensures
                k <= out@.len(),
                forall|j: int|
                    0 <= j < k ==> Id::spec_distance(#[trigger] out@[j], *target)
                        <= Id::spec_distance(x, *target),
                k < out@.len() ==> Id::spec_distance(out@[k as int], *target) > Id::spec_distance(
                    x,
                    *target,
                ),
            decreases out@.len() - k,
        {
            let dk = out[k].distance_with(target);
            if !Id::distance_le(&dk, &dx) {
                break;
            }
            k = k + 1;
        }
        let ghost prev = out@;
        out.insert(k, x);
        proof {
            assert(out@ =~= prev.insert(k as int, x));
            assert forall|i: int, j: int| 0 <= i < j < out@.len() implies Id::spec_distance(
                #[trigger] out@[i],
                *target,
            ) <= Id::spec_distance(#[trigger] out@[j], *target) by {
                if i < k {
                    assert(out@[i] == prev[i]);
                }
                if j < k {
                    assert(out@[j] == prev[j]);
                }
                if i < k && j == k {
                    assert(out@[j] == x);
                } else if i == k && j > k {
                    assert(out@[i] == x);
                    assert(out@[j] == prev[j - 1]);
                    assert(Id::spec_distance(prev[k as int], *target) <= Id::spec_distance(prev[j - 1], *target));
                } else if i < k && j > k {
                    assert(out@[j] == prev[j - 1]);
                } else if i > k {
                    assert(out@[i] == prev[i - 1]);
                    assert(out@[j] == prev[j - 1]);
                }
            }
        }
    }
    assert(rest@ =~= Seq::<Id>::empty());
    out
}

/// `k` is the first position in `s` whose distance to `target` is no
/// smaller than that of `local`.
pub open spec fn is_first_not_closer<Id: KBucketsPeerId>(s: Seq<Id>, local: Id, target: Id, k: int) -> bool {
    &&& 0 <= k < s.len()
    &&& Id::spec_distance(local, target) <= Id::spec_distance(s[k], target)
    &&& forall|j: int|
        0 <= j < k ==> Id::spec_distance(#[trigger] s[j], target) < Id::spec_distance(local, target)
}

/// `s` with `local` inserted before the first identifier that is not closer
/// to `target` than `local` (unless that identifier is `local` itself), or
/// appended when every identifier is closer.
pub open spec fn with_self<Id: KBucketsPeerId>(s: Seq<Id>, local: Id, target: Id) -> Seq<Id> {
    if exists|k: int| is_first_not_closer(s, local, target, k) {
        let k = choose|k: int| is_first_not_closer(s, local, target, k);
        if Id::spec_distance(s[k], local) == 0 {
            s
        } else {
            s.insert(k, local)
        }
    } else {
        s.push(local)
    }
}

proof fn lemma_first_not_closer<Id: KBucketsPeerId>(s: Seq<Id>, local: Id, target: Id, k: int)
    requires
        is_first_not_closer(s, local, target, k),
    ensures
        (choose|m: int| is_first_not_closer(s, local, target, m)) == k,
{
    let m = choose|m: int| is_first_not_closer(s, local, target, m);
    assert(is_first_not_closer(s, local, target, m));
    if m < k {
        assert(Id::spec_distance(s[m], target) < Id::spec_distance(local, target));
    }
    if k < m {
        assert(Id::spec_distance(s[k], target) < Id::spec_distance(local, target));
    }
}

/// Inserts `local` into `ids`, which are sorted by distance to `target`, at
/// the place that keeps them sorted.
pub fn insert_self<Id: KBucketsPeerId>(ids: Vec<Id>, local: &Id, target: &Id) -> (r: Vec<Id>)
    ensures
        r@ == with_self(ids@, *local, *target),
{
    let ghost orig = ids@;
    let mut out = ids;
    let d_local = local.distance_with(target);
    let mut k: usize = 0;
    while k < out.len()
        invariant
            k <= out@.len(),
            out@ == orig,
            orig == ids@,
            Id::distance_value(d_local) == Id::spec_distance(*local, *target),
            forall|j: int|
                0 <= j < k ==> Id::spec_distance(#[trigger] out@[j], *target) < Id::spec_distance(
                    *local,
                    *target,
                ),
        decreases out@.len() - k,
    {
        let d = out[k].distance_with(target);
        if Id::distance_le(&d_local, &d) {
            proof {
                lemma_first_not_closer(out@, *local, *target, k as int);
            }
            assert(is_first_not_closer(orig, *local, *target, k as int));
            if !out[k].same_id(local) {
                out.insert(k, local.clone_id());
            }
            assert(out@ == with_self(orig, *local, *target));
            return out;
        }
        k = k + 1;
    }
    assert(!exists|m: int| is_first_not_closer(out@, *local, *target, m)) by {
        if exists|m: int| is_first_not_closer(out@, *local, *target, m) {
            let m = choose|m: int| is_first_not_closer(out@, *local, *target, m);
            assert(Id::spec_distance(out@[m], *target) < Id::spec_distance(*local, *target));
        }
    }
    out.push(local.clone_id());
    assert(out@ == with_self(orig, *local, *target));
    out
}

/// Inserting the local identifier into a list sorted by distance to `target`
/// that does not hold it keeps the list sorted, and adds the local identifier
/// exactly once and nothing else.
pub proof fn lemma_with_self<Id: KBucketsPeerId>(s: Seq<Id>, local: Id, target: Id)
    requires
        sorted_by_distance(s, target),
        forall|i: int| 0 <= i < s.len() ==> Id::spec_distance(local, #[trigger] s[i]) != 0,
    ensures
        sorted_by_distance(with_self(s, local, target), target),
        with_self(s, local, target).to_multiset() == s.to_multiset().insert(local),
        with_self(s, local, target).to_multiset().count(local) == 1,
{
    Id::lemma_distance(local, local);
    assert(!s.contains(local)) by {
        if s.contains(local) {
            let i = choose|i: int| 0 <= i < s.len() && s[i] == local;
            assert(Id::spec_distance(local, s[i]) != 0);
        }
    }
    assert(s.to_multiset().count(local) == 0);
    let r = with_self(s, local, target);
    if exists|k: int| is_first_not_closer(s, local, target, k) {
        let k = choose|k: int| is_first_not_closer(s, local, target, k);
        Id::lemma_distance(s[k], local);
        assert(Id::spec_distance(s[k], local) != 0);
        assert(r == s.insert(k, local));
        assert forall|i: int, j: int| 0 <= i < j < r.len() implies Id::spec_distance(
            #[trigger] r[i],
            target,
        ) <= Id::spec_distance(#[trigger] r[j], target) by {
            if i < k {
                assert(r[i] == s[i]);
            }
            if j < k {
                assert(r[j] == s[j]);
            }
            if i == k {
                assert(r[i] == local);
            }
            if j == k {
                assert(r[j] == local);
            }
            if i > k {
                assert(r[i] == s[i - 1]);
            }
            if j > k {
                assert(r[j] == s[j - 1]);
                if i == k {
                    assert(Id::spec_distance(s[k], target) <= Id::spec_distance(s[j - 1], target));
                }
            }
        }
    } else {
        assert forall|i: int| 0 <= i < s.len() implies Id::spec_distance(#[trigger] s[i], target)
            < Id::spec_distance(local, target) by {
            if Id::spec_distance(s[i], target) >= Id::spec_distance(local, target) {
                lemma_first_exists(s, local, target, i);
            }
        }
        assert forall|i: int, j: int| 0 <= i < j < r.len() implies Id::spec_distance(
            #[trigger] r[i],
            target,
        ) <= Id::spec_distance(#[trigger] r[j], target) by {
            assert(r[i] == s[i]);
            if j < s.len() {
                assert(r[j] == s[j]);
            }
        }
    }
}

proof fn lemma_first_exists<Id: KBucketsPeerId>(s: Seq<Id>, local: Id, target: Id, w: int)
    requires
        0 <= w < s.len(),
        Id::spec_distance(local, target) <= Id::spec_distance(s[w], target),
    ensures
        exists|k: int| is_first_not_closer(s, local, target, k),
    decreases w,
{
    if forall|j: int|
        0 <= j < w ==> Id::spec_distance(#[trigger] s[j], target) < Id::spec_distance(local, target) {
        assert(is_first_not_closer(s, local, target, w));
    } else {
        let j = choose|j: int|
            0 <= j < w && Id::spec_distance(local, target) <= Id::spec_distance(#[trigger] s[j], target);
        lemma_first_exists(s, local, target, j);
    }
}

} // verus!
