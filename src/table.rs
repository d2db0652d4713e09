//! The routing table: one bucket per bit of the distance, the update state
//! machine and the closest-node queries. Instants are milliseconds on a
//! monotonic clock that the caller reads.

use vstd::prelude::*;
use crate::bucket::{
    bucket_update, bucket_wf, elapsed, flushed, summary_of, Bucket, BucketView, KBucket, Node,
    UpdateOutcome,
};
use crate::closest::{insert_self, sort_by_distance, sorted_by_distance, with_self};
use crate::distance::{bucket_index, bucket_num, lemma_bucket_index, KBucketsPeerId};

verus! {

/// The contents of a table: the local identifier, the buckets by index, and
/// the ping timeout in milliseconds.
pub struct TableView<Id, Val> {
    pub my_id: Id,
    pub buckets: Seq<BucketView<Id, Val>>,
    pub ping_timeout: u64,
}

/// Every contact of bucket `b`, pending or not, belongs in bucket `i`.
pub open spec fn placed_in<Id: KBucketsPeerId, Val>(b: BucketView<Id, Val>, local: Id, i: int) -> bool {
    &&& forall|j: int|
        0 <= j < b.nodes.len() ==> bucket_index(local, #[trigger] b.nodes[j].id) == Some(i as nat)
    &&& b.pending matches Some(p) ==> bucket_index(local, p.0.id) == Some(i as nat)
}

/// One bucket per bit of the distance, each well formed and holding only
/// contacts that belong in it.
pub open spec fn table_wf<Id: KBucketsPeerId, Val>(t: TableView<Id, Val>) -> bool {
    &&& t.buckets.len() == Id::spec_num_bits()
    &&& Id::spec_num_bits() > 0
    &&& forall|i: int| 0 <= i < t.buckets.len() ==> bucket_wf(#[trigger] t.buckets[i])
    &&& forall|i: int| 0 <= i < t.buckets.len() ==> placed_in(#[trigger] t.buckets[i], t.my_id, i)
}

/// What `update` leaves in the table and reports: the contact's bucket is
/// flushed and then updated; an update with the local identifier changes nothing.
pub open spec fn table_update<Id: KBucketsPeerId, Val>(
    t: TableView<Id, Val>,
    id: Id,
    value: Val,
    now: u64,
) -> (TableView<Id, Val>, UpdateOutcome<Id, Val>) {
    match bucket_index(t.my_id, id) {
        None => (t, UpdateOutcome::FailSelfUpdate),
        Some(i) => {
            let (b, outcome) = bucket_update(
                flushed(t.buckets[i as int], now, t.ping_timeout),
                id,
                value,
                now,
            );
            (TableView { my_id: t.my_id, buckets: t.buckets.update(i as int, b), ping_timeout: t.ping_timeout }, outcome)
        },
    }
}

/// The table with every bucket flushed at instant `now`.
pub open spec fn flush_all<Id, Val>(t: TableView<Id, Val>, now: u64) -> TableView<Id, Val> {
    TableView {
        my_id: t.my_id,
        buckets: t.buckets.map_values(|b: BucketView<Id, Val>| flushed(b, now, t.ping_timeout)),
        ping_timeout: t.ping_timeout,
    }
}

/// The identifiers of the contacts of a bucket, oldest first.
pub open spec fn bucket_ids<Id, Val>(b: BucketView<Id, Val>) -> Seq<Id> {
    b.nodes.map_values(|n: Node<Id, Val>| n.id)
}

/// The identifiers in `buckets`, bucket by bucket, leaving out each bucket
/// whose last update is more than `timeout` before `now`.
pub open spec fn live_ids<Id, Val>(buckets: Seq<BucketView<Id, Val>>, now: u64, timeout: u64) -> Seq<
    Id,
>
    decreases buckets.len(),
{
    if buckets.len() == 0 {
        Seq::empty()
    } else {
        let last = buckets.last();
        live_ids(buckets.drop_last(), now, timeout) + if elapsed(now, last.last_update) > timeout {
            Seq::empty()
        } else {
            bucket_ids(last)
        }
    }
}

/// `r` is an answer of `find_closest(target)` at instant `now` on table `t`:
/// the live identifiers of the flushed table, closest to `target` first.
pub open spec fn closest_of<Id: KBucketsPeerId, Val>(
    t: TableView<Id, Val>,
    now: u64,
    target: Id,
    r: Seq<Id>,
) -> bool {
    &&& r.to_multiset() == live_ids(flush_all(t, now).buckets, now, t.ping_timeout).to_multiset()
    &&& sorted_by_distance(r, target)
}

/// Every identifier collected from `buckets` is that of a contact of one of them.
pub(crate) proof fn lemma_live_ids_member<Id, Val>(
    buckets: Seq<BucketView<Id, Val>>,
    now: u64,
    timeout: u64,
    x: Id,
)
    requires
        live_ids(buckets, now, timeout).contains(x),
    ensures
        exists|j: int, k: int|
            0 <= j < buckets.len() && 0 <= k < buckets[j].nodes.len() && (#[trigger] buckets[j].nodes[k]).id
                == x,
    decreases buckets.len(),
{
    let init = buckets.drop_last();
    let last = buckets.last();
    let a = live_ids(init, now, timeout);
    let s = live_ids(buckets, now, timeout);
    let m = choose|m: int| 0 <= m < s.len() && s[m] == x;
    if m < a.len() {
        assert(a[m] == s[m]);
        lemma_live_ids_member(init, now, timeout, x);
        let (j, k) = choose|j: int, k: int|
            0 <= j < init.len() && 0 <= k < init[j].nodes.len() && (#[trigger] init[j].nodes[k]).id == x;
        assert(buckets[j] == init[j]);
    } else {
        let k = m - a.len();
        assert(bucket_ids(last)[k] == last.nodes[k].id);
        assert(buckets[buckets.len() - 1].nodes[k].id == x);
    }
}

/// Every identifier collected from buckets whose contacts are placed is at a
/// non-zero distance of the local identifier.
pub(crate) proof fn lemma_live_ids_not_local<Id: KBucketsPeerId, Val>(
    buckets: Seq<BucketView<Id, Val>>,
    local: Id,
    now: u64,
    timeout: u64,
)
    requires
        Id::spec_num_bits() > 0,
        forall|i: int| 0 <= i < buckets.len() ==> placed_in(#[trigger] buckets[i], local, i),
    ensures
        forall|x: Id|
            live_ids(buckets, now, timeout).contains(x) ==> Id::spec_distance(local, x) != 0,
    decreases buckets.len(),
{
    if buckets.len() > 0 {
        let init = buckets.drop_last();
        assert forall|i: int| 0 <= i < init.len() implies placed_in(#[trigger] init[i], local, i) by {
            assert(init[i] == buckets[i]);
        }
        lemma_live_ids_not_local(init, local, now, timeout);
        let last = buckets.last();
        assert(placed_in(buckets[buckets.len() - 1], local, buckets.len() - 1));
        assert forall|x: Id| live_ids(buckets, now, timeout).contains(x) implies Id::spec_distance(
            local,
            x,
        ) != 0 by {
            let s = live_ids(buckets, now, timeout);
            let k = choose|k: int| 0 <= k < s.len() && s[k] == x;
            let a = live_ids(init, now, timeout);
            if k < a.len() {
                assert(a.contains(a[k]));
            } else {
                let j = k - a.len();
                assert(bucket_ids(last)[j] == last.nodes[j].id);
                lemma_bucket_index(local, x);
            }
        }
    }
}

/// Flushing and then updating a bucket keeps every contact in its place.
proof fn lemma_update_placed<Id: KBucketsPeerId, Val>(
    b: BucketView<Id, Val>,
    local: Id,
    i: int,
    id: Id,
    value: Val,
    now: u64,
    timeout: u64,
)
    requires
        bucket_wf(b),
        placed_in(b, local, i),
        bucket_index(local, id) == Some(i as nat),
    ensures
        placed_in(flushed(b, now, timeout), local, i),
        placed_in(bucket_update(flushed(b, now, timeout), id, value, now).0, local, i),
{
    let f = flushed(b, now, timeout);
    lemma_flush_placed(b, local, i, now, timeout);
    let u = bucket_update(f, id, value, now).0;
    if crate::bucket::holds_id(f.nodes, id) {
        let k = crate::bucket::first_match(f.nodes, id);
        crate::bucket::lemma_holds_id(f.nodes, id);
        assert forall|j: int| 0 <= j < u.nodes.len() implies bucket_index(
            local,
            #[trigger] u.nodes[j].id,
        ) == Some(i as nat) by {
            if j < u.nodes.len() - 1 {
                if j < k {
                    assert(u.nodes[j] == f.nodes[j]);
                } else {
                    assert(u.nodes[j] == f.nodes[j + 1]);
                }
            }
        }
    } else if f.nodes.len() < crate::bucket::MAX_NODES_PER_BUCKET {
        assert forall|j: int| 0 <= j < u.nodes.len() implies bucket_index(
            local,
            #[trigger] u.nodes[j].id,
        ) == Some(i as nat) by {
            if j < u.nodes.len() - 1 {
                assert(u.nodes[j] == f.nodes[j]);
            }
        }
    }
}

/// Flushing a bucket keeps every contact in its place.
pub(crate) proof fn lemma_flush_placed<Id: KBucketsPeerId, Val>(
    b: BucketView<Id, Val>,
    local: Id,
    i: int,
    now: u64,
    timeout: u64,
)
    requires
        bucket_wf(b),
        placed_in(b, local, i),
    ensures
        placed_in(flushed(b, now, timeout), local, i),
{
    let f = flushed(b, now, timeout);
    assert(placed_in(f, local, i)) by {
        if f != b {
            assert forall|j: int| 0 <= j < f.nodes.len() implies bucket_index(
                local,
                #[trigger] f.nodes[j].id,
            ) == Some(i as nat) by {
                if j < f.nodes.len() - 1 {
                    assert(f.nodes[j] == b.nodes[j + 1]);
                }
            }
        }
    }
}

/// A walk over the buckets of a table, closest bucket first. Each bucket is
/// flushed when its view is handed out.
pub struct BucketsIter {
    pos: usize,
    len: usize,
}

impl BucketsIter {
    /// The index of the next bucket to hand out.
    pub closed spec fn position(&self) -> nat {
        self.pos as nat
    }

    /// The number of buckets of the table walked over.
    pub closed spec fn total(&self) -> nat {
        self.len as nat
    }

    /// The view of the next bucket of `table`, flushed at instant `now`, if
    /// any is left.
    pub fn next<Id: KBucketsPeerId, Val>(&mut self, table: &mut KBucketsTable<Id, Val>, now: u64) -> (r:
        Option<Bucket>)
        requires
            old(table).wf(),
            old(self).total() == old(table)@.buckets.len(),
            old(self).position() <= old(self).total(),
        ensures
            final(table).wf(),
            final(self).total() == old(self).total(),
            final(self).position() <= final(self).total(),
            old(self).position() == old(self).total() ==> r is None && final(self).position()
                == old(self).position() && final(table)@ == old(table)@,
            old(self).position() < old(self).total() ==> ({
                let i = old(self).position() as int;
                &&& r matches Some(b) && b@ == summary_of(
                    flushed(old(table)@.buckets[i], now, old(table)@.ping_timeout),
                )
                &&& final(self).position() == old(self).position() + 1
                &&& final(table)@ == flush_one(old(table)@, i, now)
            }),
    {
        if self.pos < self.len {
            let b = table.bucket(self.pos, now);
            self.pos = self.pos + 1;
            Some(b)
        } else {
            None
        }
    }

    /// The number of views left, exactly.
    pub fn size_hint(&self) -> (r: (usize, Option<usize>))
        requires
            self.position() <= self.total(),
        ensures
            r.0 == self.total() - self.position(),
            r.1 == Some(r.0),
    {
        let n = self.len - self.pos;
        (n, Some(n))
    }
}

/// The table with bucket `i` flushed at instant `now`.
pub open spec fn flush_one<Id, Val>(t: TableView<Id, Val>, i: int, now: u64) -> TableView<Id, Val> {
    TableView {
        my_id: t.my_id,
        buckets: t.buckets.update(i, flushed(t.buckets[i], now, t.ping_timeout)),
        ping_timeout: t.ping_timeout,
    }
}

/// Table of k-buckets. It is changed through `&mut self`; callers that share
/// it between threads put a lock around it, or one around each bucket.
pub struct KBucketsTable<Id, Val> {
    my_id: Id,
    tables: Vec<KBucket<Id, Val>>,
    ping_timeout: u64,
}

impl<Id, Val> View for KBucketsTable<Id, Val> {
    type V = TableView<Id, Val>;

    closed spec fn view(&self) -> TableView<Id, Val> {
        TableView {
            my_id: self.my_id,
            buckets: self.tables@.map_values(|b: KBucket<Id, Val>| b@),
            ping_timeout: self.ping_timeout,
        }
    }
}

impl<Id: KBucketsPeerId, Val> KBucketsTable<Id, Val> {
    /// The table is well formed.
    pub open spec fn wf(&self) -> bool {
        table_wf(self@)
    }

    /// Builds a new routing table at instant `now`, with a ping timeout in
    /// milliseconds.
    pub fn new(my_id: Id, ping_timeout: u64, now: u64) -> (r: Self)
        ensures
            r.wf(),
            r@.my_id == my_id,
            r@.ping_timeout == ping_timeout,
            forall|i: int|
                0 <= i < r@.buckets.len() ==> #[trigger] r@.buckets[i] == (BucketView::<Id, Val> {
                    nodes: Seq::empty(),
                    pending: None,
                    last_update: now,
                }),
    {
        let n = Id::num_bits();
        let mut tables: Vec<KBucket<Id, Val>> = Vec::new();
        while tables.len() < n
            invariant
                tables.len() <= n,
                n == Id::spec_num_bits(),
                forall|i: int|
                    0 <= i < tables.len() ==> (#[trigger] tables@[i])@ == (BucketView::<Id, Val> {
                        nodes: Seq::empty(),
                        pending: None,
                        last_update: now,
                    }),
            decreases n - tables.len(),
        {
            tables.push(KBucket::new(now));
        }
        KBucketsTable { my_id, tables, ping_timeout }
    }

    /// Returns the ID of the local node.
    pub fn my_id(&self) -> (r: &Id)
        ensures
            *r == self@.my_id,
    {
        &self.my_id
    }

    /// Marks the node as "most recent" in its bucket and sets the value
    /// associated with it; `now` is the current instant in milliseconds. To be
    /// called whenever we receive a communication from a node.
    pub fn update(&mut self, id: Id, value: Val, now: u64) -> (r: UpdateOutcome<Id, Val>)
        requires
            old(self).wf(),
        ensures
            final(self).wf(),
            (final(self)@, r) == table_update(old(self)@, id, value, now),
    {
        proof {
            lemma_bucket_index(self.my_id, id);
        }
        let n = match bucket_num(&self.my_id, &id) {
            Some(n) => n,
            None => return UpdateOutcome::FailSelfUpdate,
        };
        let ghost t = self@;
        let mut bucket = self.tables.remove(n);
        assert(bucket@ == t.buckets[n as int]);
        proof {
            lemma_update_placed(bucket@, t.my_id, n as int, id, value, now, t.ping_timeout);
        }
        bucket.flush(now, self.ping_timeout);
        let r = bucket.update(id, value, now);
        self.tables.insert(n, bucket);
        proof {
            let want = table_update(t, id, value, now).0;
            assert(self@.buckets =~= want.buckets);
        }
        r
    }

    /// Finds the nodes closest to `id`, ordered by ascending distance, at
    /// instant `now`. Every bucket is flushed first; buckets not updated
    /// within the ping timeout are left out.
    pub fn find_closest(&mut self, id: &Id, now: u64) -> (r: Vec<Id>)
        requires
            old(self).wf(),
        ensures
            final(self).wf(),
            final(self)@ == flush_all(old(self)@, now),
            closest_of(old(self)@, now, *id, r@),
    {
        let ghost t = self@;
        let mut out: Vec<Id> = Vec::new();
        let mut i: usize = 0;
        while i < self.tables.len()
            invariant
                i <= self.tables@.len(),
                self@.my_id == t.my_id,
                self@.ping_timeout == t.ping_timeout,
                self@.buckets.len() == t.buckets.len(),
                table_wf(t),
                forall|j: int|
                    0 <= j < i ==> #[trigger] self@.buckets[j] == flush_all(t, now).buckets[j],
                forall|j: int| i <= j < self@.buckets.len() ==> #[trigger] self@.buckets[j] == t.buckets[j],
                out@ == live_ids(flush_all(t, now).buckets.take(i as int), now, t.ping_timeout),
            decreases self.tables@.len() - i,
        {
            let ghost before = self.tables@;
            let ghost before_view = self@.buckets;
            assert(self@.buckets[i as int] == t.buckets[i as int]);
            let mut bucket = self.tables.remove(i);
            assert(bucket@ == t.buckets[i as int]);
            bucket.flush_and_collect(now, self.ping_timeout, &mut out);
            self.tables.insert(i, bucket);
            proof {
                assert(self.tables@ =~= before.update(i as int, bucket));
                assert(self@.buckets =~= before_view.update(i as int, bucket@));
                let fb = flush_all(t, now).buckets;
                assert(fb.take(i + 1).drop_last() =~= fb.take(i as int));
                assert(self@.buckets[i as int] == fb[i as int]);
            }
            i = i + 1;
            proof {
                assert forall|j: int| 0 <= j < i implies #[trigger] self@.buckets[j] == flush_all(
                    t,
                    now,
                ).buckets[j] by {
                    if j < i - 1 {
                        assert(self@.buckets[j] == before_view[j]);
                    }
                }
            }
        }
        proof {
            let fb = flush_all(t, now).buckets;
            assert(fb.take(i as int) =~= fb);
            assert(self@.buckets =~= fb);
            assert forall|j: int| 0 <= j < self@.buckets.len() implies placed_in(
                #[trigger] self@.buckets[j],
                self@.my_id,
                j,
            ) by {
                lemma_flush_placed(t.buckets[j], t.my_id, j, now, t.ping_timeout);
            }
            assert forall|j: int| 0 <= j < self@.buckets.len() implies bucket_wf(
                #[trigger] self@.buckets[j],
            ) by {
                crate::bucket::lemma_flush_wf(t.buckets[j], now, t.ping_timeout);
            }
        }
        sort_by_distance(out, id)
    }

    /// Same as `find_closest`, with the local identifier inserted where it
    /// keeps the order.
    pub fn find_closest_with_self(&mut self, id: &Id, now: u64) -> (r: Vec<Id>)
        requires
            old(self).wf(),
        ensures
            final(self).wf(),
            final(self)@ == flush_all(old(self)@, now),
            exists|c: Seq<Id>|
                closest_of(old(self)@, now, *id, c) && r@ == with_self(c, old(self)@.my_id, *id),
    {
        let closest = self.find_closest(id, now);
        let ghost c = closest@;
        let r = insert_self(closest, &self.my_id, id);
        assert(closest_of(old(self)@, now, *id, c));
        r
    }

    /// Returns an iterator over the buckets of this table, ordered by
    /// proximity to the local node: the closest bucket (index zero, holding
    /// at most one node) comes first. The table is not changed here.
    pub fn buckets(&self) -> (r: BucketsIter)
        requires
            self.wf(),
        ensures
            r.position() == 0,
            r.total() == self@.buckets.len(),
    {
        BucketsIter { pos: 0, len: self.tables.len() }
    }

    /// The view of bucket `i`, flushed at instant `now` first.
    pub fn bucket(&mut self, i: usize, now: u64) -> (r: Bucket)
        requires
            old(self).wf(),
            i < old(self)@.buckets.len(),
        ensures
            final(self).wf(),
            final(self)@ == flush_one(old(self)@, i as int, now),
            r@ == summary_of(flushed(old(self)@.buckets[i as int], now, old(self)@.ping_timeout)),
    {
        let ghost t = self@;
        let ghost before = self.tables@;
        assert(self@.buckets[i as int] == t.buckets[i as int]);
        let mut bucket = self.tables.remove(i);
        proof {
            lemma_flush_placed(bucket@, t.my_id, i as int, now, t.ping_timeout);
            crate::bucket::lemma_flush_wf(bucket@, now, t.ping_timeout);
        }
        bucket.flush(now, self.ping_timeout);
        let r = bucket.summary();
        self.tables.insert(i, bucket);
        proof {
            assert(self.tables@ =~= before.update(i as int, bucket));
            assert(self@.buckets =~= flush_one(t, i as int, now).buckets);
        }
        r
    }
}

} // verus!
