//! Properties of the table that relate several calls or hold of every state.

use vstd::prelude::*;
use crate::bucket::{
    bucket_update, elapsed, flushed, holds_id, is_first_match, lemma_first_match,
    lemma_holds_id_equal, summary_of, Node,
    UpdateOutcome, MAX_NODES_PER_BUCKET,
};
use crate::closest::{lemma_with_self, sorted_by_distance, with_self};
use crate::distance::{bucket_index, lemma_bucket_index, KBucketsPeerId};
use crate::table::{
    closest_of, flush_all, lemma_flush_placed, lemma_live_ids_member, lemma_live_ids_not_local, live_ids,
    placed_in, table_update, table_wf, TableView,
};

verus! {

broadcast use vstd::seq_lib::group_to_multiset_ensures;

/// Updating with the local identifier is rejected and changes nothing; an
/// update with any other identifier is not rejected.
pub proof fn lemma_self_update_rejected<Id: KBucketsPeerId, Val>(
    t: TableView<Id, Val>,
    value: Val,
    now: u64,
)
    requires
        table_wf(t),
    ensures
        table_update(t, t.my_id, value, now) == (t, UpdateOutcome::<Id, Val>::FailSelfUpdate),
        forall|x: Id|
            (#[trigger] table_update(t, x, value, now)).1 is FailSelfUpdate <==> x == t.my_id,
{
    lemma_bucket_index(t.my_id, t.my_id);
    assert forall|x: Id|
        (#[trigger] table_update(t, x, value, now)).1 is FailSelfUpdate <==> x == t.my_id by {
        lemma_bucket_index(t.my_id, x);
    }
}

/// A contact that is added lands at the back of bucket
/// `(num_bits - 1) - leading_zeros(distance(local, x))`, whose count grows by
/// exactly one; no other bucket changes.
pub proof fn lemma_added_placement<Id: KBucketsPeerId, Val>(
    t: TableView<Id, Val>,
    x: Id,
    value: Val,
    now: u64,
)
    requires
        table_wf(t),
        table_update(t, x, value, now).1 is Added,
    ensures
        bucket_index(t.my_id, x) is Some,
        ({
            let i = bucket_index(t.my_id, x).unwrap() as int;
            let u = table_update(t, x, value, now).0;
            &&& u.buckets[i].nodes.len() == t.buckets[i].nodes.len() + 1
            &&& u.buckets[i].nodes.last() == (Node { id: x, value })
            &&& forall|j: int| 0 <= j < t.buckets.len() && j != i ==> u.buckets[j] == t.buckets[j]
        }),
{
    let i = bucket_index(t.my_id, x).unwrap() as int;
    assert(crate::bucket::bucket_wf(t.buckets[i]));
}

/// Adding `x` with `v1` and then updating it with `v2` reports `v1` and
/// leaves `x` with `v2` as the most recently seen contact of its bucket.
pub proof fn lemma_refresh_returns_previous<Id: KBucketsPeerId, Val>(
    t: TableView<Id, Val>,
    x: Id,
    v1: Val,
    v2: Val,
    now1: u64,
    now2: u64,
)
    requires
        table_wf(t),
        table_update(t, x, v1, now1).1 is Added,
    ensures
        ({
            let t1 = table_update(t, x, v1, now1).0;
            let (t2, r) = table_update(t1, x, v2, now2);
            let i = bucket_index(t.my_id, x).unwrap() as int;
            &&& r == UpdateOutcome::<Id, Val>::Refreshed(v1)
            &&& t2.buckets[i].nodes.last() == (Node { id: x, value: v2 })
            &&& t2.buckets[i].nodes.len() == t1.buckets[i].nodes.len()
        }),
{
    let i = bucket_index(t.my_id, x).unwrap() as int;
    assert(crate::bucket::bucket_wf(t.buckets[i]));
    let f = flushed(t.buckets[i], now1, t.ping_timeout);
    let t1 = table_update(t, x, v1, now1).0;
    let b1 = t1.buckets[i];
    assert(b1.pending is None);
    assert(flushed(b1, now2, t1.ping_timeout) == b1);
    let last = b1.nodes.len() - 1;
    Id::lemma_distance(x, x);
    assert forall|j: int| 0 <= j < last implies Id::spec_distance(#[trigger] b1.nodes[j].id, x) != 0 by {
        assert(b1.nodes[j] == f.nodes[j]);
        if Id::spec_distance(f.nodes[j].id, x) == 0 {
            assert(holds_id(f.nodes, x));
        }
    }
    assert(is_first_match(b1.nodes, x, last));
    lemma_first_match(b1.nodes, x, last);
}

/// A contact new to its bucket is added while the bucket has room; once the
/// bucket is full, the first such contact becomes pending and the oldest
/// contact is to be pinged, with the contacts unchanged; while one is pending,
/// further ones are discarded and nothing changes.
pub proof fn lemma_capacity_and_pending<Id: KBucketsPeerId, Val>(
    t: TableView<Id, Val>,
    x: Id,
    value: Val,
    now: u64,
)
    requires
        table_wf(t),
        x != t.my_id,
        forall|j: int|
            0 <= j < flushed(
                t.buckets[bucket_index(t.my_id, x).unwrap() as int],
                now,
                t.ping_timeout,
            ).nodes.len() ==> (#[trigger] flushed(
                t.buckets[bucket_index(t.my_id, x).unwrap() as int],
                now,
                t.ping_timeout,
            ).nodes[j]).id != x,
    ensures
        ({
            let i = bucket_index(t.my_id, x).unwrap() as int;
            let f = flushed(t.buckets[i], now, t.ping_timeout);
            let (u, r) = table_update(t, x, value, now);
            &&& f.nodes.len() < MAX_NODES_PER_BUCKET ==> r is Added && u.buckets[i].nodes.len()
                == f.nodes.len() + 1
            &&& f.nodes.len() == MAX_NODES_PER_BUCKET && f.pending is None ==> r
                == UpdateOutcome::<Id, Val>::NeedPing(f.nodes[0].id) && u.buckets[i].nodes
                == f.nodes && u.buckets[i].pending == Some((Node { id: x, value }, now))
            &&& f.pending is Some ==> r is Discarded && u.buckets[i] == f
        }),
{
    lemma_bucket_index(t.my_id, x);
    let i = bucket_index(t.my_id, x).unwrap() as int;
    assert(crate::bucket::bucket_wf(t.buckets[i]));
    lemma_holds_id_equal(flushed(t.buckets[i], now, t.ping_timeout).nodes, x);
}

/// A pending contact that has waited the ping timeout or more replaces the
/// oldest contact at the next access: it is appended as the most recently
/// seen, the oldest contact is dropped, and the count stays the same; the
/// dropped identifier no longer appears in closest-node queries, and the
/// bucket's view reports the same count and no pending contact.
pub proof fn lemma_pending_promoted<Id: KBucketsPeerId, Val>(
    t: TableView<Id, Val>,
    i: int,
    now: u64,
)
    requires
        table_wf(t),
        0 <= i < t.buckets.len(),
        t.buckets[i].pending matches Some(p) && elapsed(now, p.1) >= t.ping_timeout,
    ensures
        ({
            let b = t.buckets[i];
            let f = flush_all(t, now).buckets[i];
            &&& f.nodes == b.nodes.drop_first().push(b.pending.unwrap().0)
            &&& f.nodes.len() == b.nodes.len()
            &&& f.pending is None
            &&& summary_of(flushed(b, now, t.ping_timeout)) == (b.nodes.len(), false, b.last_update)
        }),
        forall|x: Id, v: Val|
            bucket_index(t.my_id, x) == Some(i as nat) ==> (#[trigger] table_update(t, x, v, now)).0.buckets[i]
                == bucket_update(flush_all(t, now).buckets[i], x, v, now).0,
        !live_ids(flush_all(t, now).buckets, now, t.ping_timeout).contains(t.buckets[i].nodes[0].id),
{
    let b = t.buckets[i];
    assert(crate::bucket::bucket_wf(b));
    let e = b.nodes[0].id;
    let p = b.pending.unwrap().0.id;
    let fa = flush_all(t, now).buckets;
    Id::lemma_distance(e, e);
    if live_ids(fa, now, t.ping_timeout).contains(e) {
        lemma_live_ids_member(fa, now, t.ping_timeout, e);
        let (j, k) = choose|j: int, k: int|
            0 <= j < fa.len() && 0 <= k < fa[j].nodes.len() && (#[trigger] fa[j].nodes[k]).id == e;
        assert(placed_in(t.buckets[j], t.my_id, j));
        lemma_flush_placed(t.buckets[j], t.my_id, j, now, t.ping_timeout);
        assert(placed_in(b, t.my_id, i));
        assert(bucket_index(t.my_id, b.nodes[0].id) == Some(i as nat));
        assert(bucket_index(t.my_id, fa[j].nodes[k].id) == Some(j as nat));
        assert(j == i);
        if k < fa[j].nodes.len() - 1 {
            assert(fa[j].nodes[k] == b.nodes[k + 1]);
            assert(Id::spec_distance(b.nodes[k + 1].id, b.nodes[0].id) != 0);
        } else {
            assert(fa[j].nodes[k].id == p);
            assert(holds_id(b.nodes, p));
        }
    }
}

/// For any table and target, the answer of `find_closest_with_self` holds the
/// answer of `find_closest` and the local identifier exactly once, ordered by
/// non-decreasing distance to the target.
pub proof fn lemma_closest_with_self<Id: KBucketsPeerId, Val>(
    t: TableView<Id, Val>,
    now: u64,
    target: Id,
    c: Seq<Id>,
)
    requires
        table_wf(t),
        closest_of(t, now, target, c),
    ensures
        sorted_by_distance(with_self(c, t.my_id, target), target),
        with_self(c, t.my_id, target).to_multiset() == c.to_multiset().insert(t.my_id),
        with_self(c, t.my_id, target).to_multiset().count(t.my_id) == 1,
{
    let fa = flush_all(t, now);
    assert forall|i: int| 0 <= i < fa.buckets.len() implies crate::table::placed_in(
        #[trigger] fa.buckets[i],
        t.my_id,
        i,
    ) by {
        crate::table::lemma_flush_placed(t.buckets[i], t.my_id, i, now, t.ping_timeout);
    }
    lemma_live_ids_not_local(fa.buckets, t.my_id, now, t.ping_timeout);
    let l = crate::table::live_ids(fa.buckets, now, t.ping_timeout);
    assert forall|k: int| 0 <= k < c.len() implies Id::spec_distance(t.my_id, #[trigger] c[k]) != 0 by {
        assert(c.to_multiset().count(c[k]) > 0);
        assert(l.contains(c[k]));
    }
    lemma_with_self(c, t.my_id, target);
}

/// The table and the outcomes after updating it with each of `ids` in turn,
/// all with `value` at instant `now`.
pub open spec fn update_all<Id: KBucketsPeerId, Val>(
    t: TableView<Id, Val>,
    ids: Seq<Id>,
    value: Val,
    now: u64,
) -> (TableView<Id, Val>, Seq<UpdateOutcome<Id, Val>>)
    decreases ids.len(),
{
    if ids.len() == 0 {
        (t, Seq::empty())
    } else {
        let (t1, o1) = update_all(t, ids.drop_last(), value, now);
        let (t2, o) = table_update(t1, ids.last(), value, now);
        (t2, o1.push(o))
    }
}

proof fn lemma_fill_prefix<Id: KBucketsPeerId, Val>(
    t: TableView<Id, Val>,
    i: int,
    ids: Seq<Id>,
    value: Val,
    now: u64,
    n: int,
)
    requires
        table_wf(t),
        0 <= i < t.buckets.len(),
        t.buckets[i].nodes.len() == 0,
        0 <= n <= MAX_NODES_PER_BUCKET,
        n <= ids.len(),
        forall|k: int| 0 <= k < ids.len() ==> bucket_index(t.my_id, #[trigger] ids[k]) == Some(i as nat),
        forall|a: int, b: int|
            0 <= a < ids.len() && 0 <= b < ids.len() && a != b ==> #[trigger] ids[a] != #[trigger] ids[b],
    ensures
        ({
            let (u, o) = update_all(t, ids.take(n), value, now);
            &&& u.my_id == t.my_id
            &&& u.ping_timeout == t.ping_timeout
            &&& u.buckets.len() == t.buckets.len()
            &&& u.buckets[i].nodes.len() == n
            &&& forall|k: int| 0 <= k < n ==> #[trigger] u.buckets[i].nodes[k] == Node { id: ids[k], value }
            &&& u.buckets[i].pending is None
            &&& o.len() == n
            &&& forall|k: int| 0 <= k < n ==> #[trigger] o[k] == UpdateOutcome::<Id, Val>::Added
        }),
    decreases n,
{
    assert(crate::bucket::bucket_wf(t.buckets[i]));
    if n > 0 {
        let prev = ids.take(n - 1);
        assert(ids.take(n).drop_last() =~= prev);
        lemma_fill_prefix(t, i, ids, value, now, n - 1);
        let (u1, o1) = update_all(t, prev, value, now);
        let x = ids[n - 1];
        assert(ids.take(n).last() == x);
        let b = u1.buckets[i];
        assert(flushed(b, now, u1.ping_timeout) == b);
        assert(!holds_id(b.nodes, x)) by {
            if holds_id(b.nodes, x) {
                let k = choose|k: int| 0 <= k < b.nodes.len() && Id::spec_distance(#[trigger] b.nodes[k].id, x) == 0;
                assert(b.nodes[k] == Node { id: ids[k], value });
                Id::lemma_distance(ids[k], ids[n - 1]);
            }
        }
        let (u, o) = update_all(t, ids.take(n), value, now);
        assert(u.buckets[i].nodes == b.nodes.push(Node { id: x, value }));
        assert forall|k: int| 0 <= k < n implies #[trigger] u.buckets[i].nodes[k] == Node { id: ids[k], value } by {
            if k < n - 1 {
                assert(u.buckets[i].nodes[k] == b.nodes[k]);
            }
        }
        assert forall|k: int| 0 <= k < n implies #[trigger] o[k] == UpdateOutcome::<Id, Val>::Added by {
            if k < n - 1 {
                assert(o[k] == o1[k]);
            }
        }
    }
}

/// Updating an empty bucket with distinct identifiers that belong in it
/// reports `Added` for each of the first `MAX_NODES_PER_BUCKET`, which fill
/// the bucket; the next one is to wait while the oldest contact is pinged,
/// with the bucket still full; and, before the ping timeout, the one after
/// that is discarded.
pub proof fn lemma_fill_bucket<Id: KBucketsPeerId, Val>(
    t: TableView<Id, Val>,
    i: int,
    ids: Seq<Id>,
    value: Val,
    now: u64,
)
    requires
        table_wf(t),
        t.ping_timeout > 0,
        0 <= i < t.buckets.len(),
        t.buckets[i].nodes.len() == 0,
        ids.len() == MAX_NODES_PER_BUCKET + 2,
        forall|k: int| 0 <= k < ids.len() ==> bucket_index(t.my_id, #[trigger] ids[k]) == Some(i as nat),
        forall|a: int, b: int|
            0 <= a < ids.len() && 0 <= b < ids.len() && a != b ==> #[trigger] ids[a] != #[trigger] ids[b],
    ensures
        ({
            let k = MAX_NODES_PER_BUCKET as int;
            let (full, _) = update_all(t, ids.take(k), value, now);
            let (waiting, _) = update_all(t, ids.take(k + 1), value, now);
            let (_, o) = update_all(t, ids, value, now);
            &&& forall|j: int| 0 <= j < k ==> #[trigger] o[j] is Added
            &&& full.buckets[i].nodes.len() == k
            &&& o[k] == UpdateOutcome::<Id, Val>::NeedPing(ids[0])
            &&& waiting.buckets[i].nodes.len() == k
            &&& o[k + 1] is Discarded
        }),
{
    let k = MAX_NODES_PER_BUCKET as int;
    lemma_fill_prefix(t, i, ids, value, now, k);
    let (full, o_full) = update_all(t, ids.take(k), value, now);
    let b = full.buckets[i];
    assert(flushed(b, now, full.ping_timeout) == b);
    let x = ids[k];
    assert(ids.take(k + 1).drop_last() =~= ids.take(k));
    assert(ids.take(k + 1).last() == x);
    assert(!holds_id(b.nodes, x)) by {
        if holds_id(b.nodes, x) {
            let j = choose|j: int| 0 <= j < b.nodes.len() && Id::spec_distance(#[trigger] b.nodes[j].id, x) == 0;
            assert(b.nodes[j] == Node { id: ids[j], value });
            Id::lemma_distance(ids[j], ids[k]);
        }
    }
    let (waiting, o_waiting) = update_all(t, ids.take(k + 1), value, now);
    assert(b.nodes[0] == Node { id: ids[0], value });
    let w = waiting.buckets[i];
    assert(w.nodes == b.nodes);
    assert(w.pending == Some((Node { id: x, value }, now)));
    assert(flushed(w, now, waiting.ping_timeout) == w);
    let y = ids[k + 1];
    assert(ids.drop_last() =~= ids.take(k + 1));
    assert(!holds_id(w.nodes, y)) by {
        if holds_id(w.nodes, y) {
            let j = choose|j: int| 0 <= j < w.nodes.len() && Id::spec_distance(#[trigger] w.nodes[j].id, y) == 0;
            assert(w.nodes[j] == Node { id: ids[j], value });
            Id::lemma_distance(ids[j], ids[k + 1]);
        }
    }
    let (_, o) = update_all(t, ids, value, now);
    assert forall|j: int| 0 <= j < k implies #[trigger] o[j] is Added by {
        assert(o[j] == o_waiting[j]);
        assert(o_waiting[j] == o_full[j]);
    }
    assert(o[k] == o_waiting[k]);
}

} // verus!
