//! A single bucket: recency-ordered contacts, one pending replacement, and
//! the ping-before-evict protocol run lazily on each access.

use vstd::prelude::*;
use crate::distance::KBucketsPeerId;

verus! {

/// Maximum number of nodes in a bucket.
pub const MAX_NODES_PER_BUCKET: usize = 20;

/// A contact: an identifier with the value associated with it.
#[derive(Debug, Clone)]
pub struct Node<Id, Val> {
    pub id: Id,
    pub value: Val,
}

/// Return value of the `update()` method.
#[derive(Debug, Copy, Clone, PartialEq, Eq)]
#[must_use]
pub enum UpdateOutcome<Id, Val> {
    /// The node has been added to the bucket.
    Added,
    /// The node was already in the bucket and has been refreshed.
    Refreshed(Val),
    /// The node wasn't added. Instead we need to ping the node passed as parameter, and call
    /// `update` if it responds.
    NeedPing(Id),
    /// The node wasn't added at all because a node was already pending.
    Discarded,
    /// Tried to update the local peer ID. This is an invalid operation.
    FailSelfUpdate,
}

/// The contents of a bucket: contacts from least to most recently seen, the
/// contact waiting for a slot with the instant it started waiting, and the
/// instant of the last addition or refresh.
pub struct BucketView<Id, Val> {
    pub nodes: Seq<Node<Id, Val>>,
    pub pending: Option<(Node<Id, Val>, u64)>,
    pub last_update: u64,
}

/// Milliseconds between `since` and `now`, zero if `now` comes first.
pub open spec fn elapsed(now: u64, since: u64) -> nat {
    if now >= since {
        (now - since) as nat
    } else {
        0
    }
}

/// A bucket holds at most `MAX_NODES_PER_BUCKET` contacts, no two with the
/// same identifier, and only a full bucket has a pending contact, whose
/// identifier is none of theirs.
pub open spec fn bucket_wf<Id: KBucketsPeerId, Val>(b: BucketView<Id, Val>) -> bool {
    &&& b.nodes.len() <= MAX_NODES_PER_BUCKET
    &&& b.pending is Some ==> b.nodes.len() == MAX_NODES_PER_BUCKET
    &&& forall|j: int, k: int|
        0 <= j < b.nodes.len() && 0 <= k < b.nodes.len() && j != k ==> Id::spec_distance(
            #[trigger] b.nodes[j].id,
            #[trigger] b.nodes[k].id,
        ) != 0
    &&& b.pending matches Some(p) ==> !holds_id(b.nodes, p.0.id)
}

/// Flushing keeps a bucket well formed.
pub proof fn lemma_flush_wf<Id: KBucketsPeerId, Val>(b: BucketView<Id, Val>, now: u64, timeout: u64)
    requires
        bucket_wf(b),
    ensures
        bucket_wf(flushed(b, now, timeout)),
{
    let f = flushed(b, now, timeout);
    if f != b {
        let p = b.pending.unwrap().0.id;
        let n = f.nodes.len();
        assert forall|j: int, k: int|
            0 <= j < n && 0 <= k < n && j != k implies Id::spec_distance(
            #[trigger] f.nodes[j].id,
            #[trigger] f.nodes[k].id,
        ) != 0 by {
            if j < n - 1 {
                assert(f.nodes[j] == b.nodes[j + 1]);
            }
            if k < n - 1 {
                assert(f.nodes[k] == b.nodes[k + 1]);
            }
            if j == n - 1 {
                Id::lemma_distance(p, b.nodes[k + 1].id);
                if Id::spec_distance(b.nodes[k + 1].id, p) == 0 {
                    assert(holds_id(b.nodes, p));
                }
            }
            if k == n - 1 {
                if Id::spec_distance(b.nodes[j + 1].id, p) == 0 {
                    assert(holds_id(b.nodes, p));
                }
            }
        }
    }
}

/// Updating keeps a flushed bucket well formed.
pub proof fn lemma_update_wf<Id: KBucketsPeerId, Val>(
    b: BucketView<Id, Val>,
    id: Id,
    value: Val,
    now: u64,
)
    requires
        bucket_wf(b),
    ensures
        bucket_wf(bucket_update(b, id, value, now).0),
{
    let u = bucket_update(b, id, value, now).0;
    let n = u.nodes.len();
    if holds_id(b.nodes, id) {
        lemma_holds_id(b.nodes, id);
        let i = first_match(b.nodes, id);
        assert forall|j: int, k: int|
            0 <= j < n && 0 <= k < n && j != k implies Id::spec_distance(
            #[trigger] u.nodes[j].id,
            #[trigger] u.nodes[k].id,
        ) != 0 by {
            let jj = if j == n - 1 { i } else if j < i { j } else { j + 1 };
            let kk = if k == n - 1 { i } else if k < i { k } else { k + 1 };
            assert(u.nodes[j].id == b.nodes[jj].id);
            assert(u.nodes[k].id == b.nodes[kk].id);
        }
        if let Some(p) = u.pending {
            if holds_id(u.nodes, p.0.id) {
                let k = choose|k: int| 0 <= k < n && Id::spec_distance(#[trigger] u.nodes[k].id, p.0.id) == 0;
                let kk = if k == n - 1 { i } else if k < i { k } else { k + 1 };
                assert(u.nodes[k].id == b.nodes[kk].id);
                assert(holds_id(b.nodes, p.0.id));
            }
        }
    } else if b.nodes.len() < MAX_NODES_PER_BUCKET {
        assert forall|j: int, k: int|
            0 <= j < n && 0 <= k < n && j != k implies Id::spec_distance(
            #[trigger] u.nodes[j].id,
            #[trigger] u.nodes[k].id,
        ) != 0 by {
            if j < n - 1 {
                assert(u.nodes[j] == b.nodes[j]);
            }
            if k < n - 1 {
                assert(u.nodes[k] == b.nodes[k]);
            }
            if j == n - 1 {
                Id::lemma_distance(id, b.nodes[k].id);
                if Id::spec_distance(b.nodes[k].id, id) == 0 {
                    assert(holds_id(b.nodes, id));
                }
            }
            if k == n - 1 {
                if Id::spec_distance(b.nodes[j].id, id) == 0 {
                    assert(holds_id(b.nodes, id));
                }
            }
        }
    }
}

/// The bucket after the pending contact, if it has waited `timeout` or more,
/// replaced the oldest contact.
pub open spec fn flushed<Id, Val>(b: BucketView<Id, Val>, now: u64, timeout: u64) -> BucketView<
    Id,
    Val,
> {
    match b.pending {
        Some(p) => if elapsed(now, p.1) >= timeout {
            BucketView { nodes: b.nodes.drop_first().push(p.0), pending: None, last_update: b.last_update }
        } else {
            b
        },
        None => b,
    }
}

/// `i` is the first position in `nodes` of a contact with the identifier `id`.
pub open spec fn is_first_match<Id: KBucketsPeerId, Val>(
    nodes: Seq<Node<Id, Val>>,
    id: Id,
    i: int,
) -> bool {
    &&& 0 <= i < nodes.len()
    &&& Id::spec_distance(nodes[i].id, id) == 0
    &&& forall|j: int| 0 <= j < i ==> Id::spec_distance(#[trigger] nodes[j].id, id) != 0
}

/// Some contact in `nodes` has the identifier `id`.
pub open spec fn holds_id<Id: KBucketsPeerId, Val>(nodes: Seq<Node<Id, Val>>, id: Id) -> bool {
    exists|i: int| 0 <= i < nodes.len() && Id::spec_distance(#[trigger] nodes[i].id, id) == 0
}

/// The first position of `id` in `nodes`.
pub open spec fn first_match<Id: KBucketsPeerId, Val>(nodes: Seq<Node<Id, Val>>, id: Id) -> int {
    choose|i: int| is_first_match(nodes, id, i)
}

/// What an update of a (flushed) bucket with `id` and `value` at instant `now`
/// leaves in the bucket, and what it reports.
pub open spec fn bucket_update<Id: KBucketsPeerId, Val>(
    b: BucketView<Id, Val>,
    id: Id,
    value: Val,
    now: u64,
) -> (BucketView<Id, Val>, UpdateOutcome<Id, Val>) {
    if holds_id(b.nodes, id) {
        let i = first_match(b.nodes, id);
        let old = b.nodes[i];
        let rest = b.nodes.remove(i);
        (
            BucketView {
                nodes: rest.push(Node { id: old.id, value }),
                pending: if i == 0 { None } else { b.pending },
                last_update: now,
            },
            UpdateOutcome::Refreshed(old.value),
        )
    } else if b.nodes.len() < MAX_NODES_PER_BUCKET {
        (
            BucketView { nodes: b.nodes.push(Node { id, value }), pending: b.pending, last_update: now },
            UpdateOutcome::Added,
        )
    } else if b.pending is None {
        (
            BucketView { nodes: b.nodes, pending: Some((Node { id, value }, now)), last_update: b.last_update },
            UpdateOutcome::NeedPing(b.nodes[0].id),
        )
    } else {
        (b, UpdateOutcome::Discarded)
    }
}

/// Some contact in `nodes` has the identifier `id` exactly when one is equal to it.
pub proof fn lemma_holds_id_equal<Id: KBucketsPeerId, Val>(nodes: Seq<Node<Id, Val>>, id: Id)
    ensures
        holds_id(nodes, id) <==> exists|j: int| 0 <= j < nodes.len() && #[trigger] nodes[j].id == id,
{
    Id::lemma_distance(id, id);
    if holds_id(nodes, id) {
        let j = choose|j: int| 0 <= j < nodes.len() && Id::spec_distance(#[trigger] nodes[j].id, id) == 0;
        Id::lemma_distance(nodes[j].id, id);
    }
}

/// There is at most one first match.
pub proof fn lemma_first_match<Id: KBucketsPeerId, Val>(nodes: Seq<Node<Id, Val>>, id: Id, i: int)
    requires
        is_first_match(nodes, id, i),
    ensures
        holds_id(nodes, id),
        first_match(nodes, id) == i,
{
    let k = first_match(nodes, id);
    assert(is_first_match(nodes, id, k));
    if k < i {
        assert(Id::spec_distance(nodes[k].id, id) != 0);
    }
    if i < k {
        assert(Id::spec_distance(nodes[i].id, id) != 0);
    }
}

/// A contact with identifier `id` at `w` or before means a first match exists.
proof fn lemma_match_before<Id: KBucketsPeerId, Val>(nodes: Seq<Node<Id, Val>>, id: Id, w: int)
    requires
        0 <= w < nodes.len(),
        Id::spec_distance(nodes[w].id, id) == 0,
    ensures
        is_first_match(nodes, id, first_match(nodes, id)),
    decreases w,
{
    if forall|j: int| 0 <= j < w ==> Id::spec_distance(#[trigger] nodes[j].id, id) != 0 {
        assert(is_first_match(nodes, id, w));
    } else {
        let j = choose|j: int| 0 <= j < w && Id::spec_distance(#[trigger] nodes[j].id, id) == 0;
        lemma_match_before(nodes, id, j);
    }
}

/// If `id` occurs in `nodes`, `first_match` is its first position.
pub proof fn lemma_holds_id<Id: KBucketsPeerId, Val>(nodes: Seq<Node<Id, Val>>, id: Id)
    requires
        holds_id(nodes, id),
    ensures
        is_first_match(nodes, id, first_match(nodes, id)),
{
    let w = choose|i: int| 0 <= i < nodes.len() && Id::spec_distance(#[trigger] nodes[i].id, id) == 0;
    lemma_match_before(nodes, id, w);
}

/// Access to a bucket: what it held when it was looked at.
pub struct Bucket {
    num_entries: usize,
    has_pending: bool,
    last_update: u64,
}

/// What a bucket view reports of bucket `b`.
pub open spec fn summary_of<Id, Val>(b: BucketView<Id, Val>) -> (nat, bool, u64) {
    (b.nodes.len(), b.pending is Some, b.last_update)
}

impl View for Bucket {
    type V = (nat, bool, u64);

    closed spec fn view(&self) -> (nat, bool, u64) {
        (self.num_entries as nat, self.has_pending, self.last_update)
    }
}

impl Bucket {
    /// Returns the number of entries in that bucket.
    pub fn num_entries(&self) -> (r: usize)
        ensures
            r == self@.0,
    {
        self.num_entries
    }

    /// Returns true if this bucket has a pending node.
    pub fn has_pending(&self) -> (r: bool)
        ensures
            r == self@.1,
    {
        self.has_pending
    }

    /// Returns the instant, in milliseconds, when any of the values in this
    /// bucket was last updated; for a bucket never updated, when the table
    /// was created.
    pub fn last_update(&self) -> (r: u64)
        ensures
            r == self@.2,
    {
        self.last_update
    }
}

/// A bucket of the table.
pub struct KBucket<Id, Val> {
    nodes: Vec<Node<Id, Val>>,
    pending_node: Option<(Node<Id, Val>, u64)>,
    last_update: u64,
}

impl<Id, Val> View for KBucket<Id, Val> {
    type V = BucketView<Id, Val>;

    closed spec fn view(&self) -> BucketView<Id, Val> {
        BucketView { nodes: self.nodes@, pending: self.pending_node, last_update: self.last_update }
    }
}

impl<Id: KBucketsPeerId, Val> KBucket<Id, Val> {
    /// An empty bucket, created at instant `now`.
    pub fn new(now: u64) -> (r: Self)
        ensures
            r@ == (BucketView::<Id, Val> { nodes: Seq::empty(), pending: None, last_update: now }),
    {
        let r = KBucket { nodes: Vec::new(), pending_node: None, last_update: now };
        assert(r@.nodes =~= Seq::empty());
        r
    }

    /// Replaces the oldest contact with the pending one if it has waited
    /// `timeout` or more.
    pub fn flush(&mut self, now: u64, timeout: u64)
        requires
            bucket_wf(old(self)@),
        ensures
            final(self)@ == flushed(old(self)@, now, timeout),
            bucket_wf(final(self)@),
    {
        proof {
            lemma_flush_wf(self@, now, timeout);
        }
        if let Some((pending_node, instant)) = self.pending_node.take() {
            let waited: u64 = if now >= instant { now - instant } else { 0 };
            if waited >= timeout {
                let _ = self.nodes.remove(0);
                self.nodes.push(pending_node);
                assert(self@.nodes =~= old(self)@.nodes.drop_first().push(old(self)@.pending.unwrap().0));
            } else {
                self.pending_node = Some((pending_node, instant));
            }
        }
    }

    /// A view of this bucket as it is now.
    pub fn summary(&self) -> (r: Bucket)
        ensures
            r@ == summary_of(self@),
    {
        Bucket {
            num_entries: self.nodes.len(),
            has_pending: self.pending_node.is_some(),
            last_update: self.last_update,
        }
    }

    /// Number of contacts.
    pub fn num_entries(&self) -> (r: usize)
        ensures
            r == self@.nodes.len(),
    {
        self.nodes.len()
    }

    /// Whether a contact is pending.
    pub fn has_pending(&self) -> (r: bool)
        ensures
            r == self@.pending is Some,
    {
        self.pending_node.is_some()
    }

    /// Instant of the last addition or refresh.
    pub fn last_update(&self) -> (r: u64)
        ensures
            r == self@.last_update,
    {
        self.last_update
    }

    /// Appends clones of the contacts' identifiers to `out`, oldest first.
    fn collect_ids(&self, out: &mut Vec<Id>)
        ensures
            final(out)@ == old(out)@ + self@.nodes.map_values(|n: Node<Id, Val>| n.id),
    {
        let mut i: usize = 0;
        while i < self.nodes.len()
            invariant
                i <= self.nodes@.len(),
                out@ == old(out)@ + self@.nodes.take(i as int).map_values(
                    |n: Node<Id, Val>| n.id,
                ),
            decreases self.nodes@.len() - i,
        {
            let id = self.nodes[i].id.clone_id();
            proof {
                assert(self@.nodes.take(i + 1) =~= self@.nodes.take(i as int).push(self.nodes@[i as int]));
            }
            out.push(id);
            i = i + 1;
            proof {
                assert(out@ =~= old(out)@ + self@.nodes.take(i as int).map_values(|n: Node<Id, Val>| n.id));
            }
        }
        assert(self@.nodes.take(i as int) =~= self@.nodes);
    }

    /// Flushes the bucket, then appends its identifiers to `out` unless it was
    /// last updated more than `timeout` before `now`.
    pub fn flush_and_collect(&mut self, now: u64, timeout: u64, out: &mut Vec<Id>)
        requires
            bucket_wf(old(self)@),
        ensures
            final(self)@ == flushed(old(self)@, now, timeout),
            bucket_wf(final(self)@),
            final(out)@ == old(out)@ + if elapsed(now, final(self)@.last_update) > timeout {
                Seq::empty()
            } else {
                final(self)@.nodes.map_values(|n: Node<Id, Val>| n.id)
            },
    {
        self.flush(now, timeout);
        let waited: u64 = if now >= self.last_update { now - self.last_update } else { 0 };
        if waited <= timeout {
            self.collect_ids(out);
        } else {
            assert(out@ =~= old(out)@ + Seq::<Id>::empty());
        }
    }

    /// Position of the first contact with identifier `id`.
    fn position(&self, id: &Id) -> (r: Option<usize>)
        ensures
            r matches Some(i) ==> is_first_match(self@.nodes, *id, i as int),
            r is None ==> !holds_id(self@.nodes, *id),
    {
        let mut i: usize = 0;
        while i < self.nodes.len()
            invariant
                i <= self.nodes@.len(),
                forall|j: int| 0 <= j < i ==> Id::spec_distance(#[trigger] self@.nodes[j].id, *id) != 0,
            decreases self.nodes@.len() - i,
        {
            if self.nodes[i].id.same_id(id) {
                return Some(i);
            }
            i = i + 1;
        }
        None
    }

    /// Updates the (already flushed) bucket with a contact seen at instant `now`.
    pub fn update(&mut self, id: Id, value: Val, now: u64) -> (r: UpdateOutcome<Id, Val>)
        requires
            bucket_wf(old(self)@),
        ensures
            (final(self)@, r) == bucket_update(old(self)@, id, value, now),
            bucket_wf(final(self)@),
    {
        proof {
            lemma_update_wf(self@, id, value, now);
        }
        match self.position(&id) {
            Some(pos) => {
                proof {
                    lemma_first_match(self@.nodes, id, pos as int);
                }
                let ghost rest = self@.nodes.remove(pos as int);
                let Node { id: existing_id, value: old_val } = self.nodes.remove(pos);
                let existing = Node { id: existing_id, value };
                if pos == 0 {
                    self.nodes.truncate(MAX_NODES_PER_BUCKET - 1);
                    self.pending_node = None;
                }
                self.nodes.push(existing);
                self.last_update = now;
                proof {
                    let b = old(self)@;
                    let want = bucket_update(b, id, value, now).0;
                    assert(rest.subrange(0, rest.len() as int) =~= rest);
                    assert(self@.nodes =~= rest.push(existing));
                    assert(self@ == want);
                }
                UpdateOutcome::Refreshed(old_val)
            },
            None => {
                if self.nodes.len() < MAX_NODES_PER_BUCKET {
                    self.nodes.push(Node { id, value });
                    self.last_update = now;
                    UpdateOutcome::Added
                } else if self.pending_node.is_none() {
                    let oldest = self.nodes[0].id.clone_id();
                    self.pending_node = Some((Node { id, value }, now));
                    UpdateOutcome::NeedPing(oldest)
                } else {
                    UpdateOutcome::Discarded
                }
            },
        }
    }
}

} // verus!
