use kbuckets::{KBucketsPeerId, KBucketsTable, PeerId, UpdateOutcome, MAX_NODES_PER_BUCKET};

fn peer(first: u8, last: u8) -> PeerId {
    let mut d = [0u8; 64];
    d[0] = first;
    d[63] = last;
    PeerId::new(d)
}

fn local() -> PeerId {
    PeerId::new([0u8; 64])
}

fn counts(t: &mut KBucketsTable<PeerId, u32>, now: u64) -> Vec<usize> {
    let mut it = t.buckets();
    let mut out = Vec::new();
    while let Some(b) = it.next(t, now) {
        out.push(b.num_entries());
    }
    out
}

#[test]
fn self_update_is_rejected() {
    let mut t: KBucketsTable<PeerId, u32> = KBucketsTable::new(local(), 100, 0);
    assert_eq!(t.update(local(), 7, 1), UpdateOutcome::FailSelfUpdate);
    assert!(counts(&mut t, 1).iter().all(|&c| c == 0));
}

#[test]
fn added_contact_lands_in_its_bucket() {
    let mut t: KBucketsTable<PeerId, u32> = KBucketsTable::new(local(), 100, 0);
    // distance 5: 509 leading zeros, bucket 511 - 509 = 2
    assert_eq!(t.update(peer(0, 5), 1, 1), UpdateOutcome::Added);
    let c = counts(&mut t, 1);
    assert_eq!(c.len(), 512);
    assert_eq!(c[2], 1);
    assert_eq!(c.iter().sum::<usize>(), 1);
    // the most significant bit set: no leading zeros, bucket 511
    assert_eq!(t.update(peer(0x80, 0), 1, 1), UpdateOutcome::Added);
    assert_eq!(counts(&mut t, 1)[511], 1);
}

#[test]
fn refresh_returns_previous_value() {
    let mut t: KBucketsTable<PeerId, u32> = KBucketsTable::new(local(), 100, 0);
    let x = peer(0, 9);
    assert_eq!(t.update(x, 1, 1), UpdateOutcome::Added);
    assert_eq!(t.update(x, 2, 2), UpdateOutcome::Refreshed(1));
    assert_eq!(t.update(x, 3, 3), UpdateOutcome::Refreshed(2));
    assert_eq!(counts(&mut t, 3)[3], 1);
}

#[test]
fn full_bucket_asks_for_ping_then_discards() {
    let mut t: KBucketsTable<PeerId, u32> = KBucketsTable::new(local(), 100, 0);
    for k in 0..MAX_NODES_PER_BUCKET as u8 {
        assert_eq!(t.update(peer(0x80, k), 0, 1), UpdateOutcome::Added);
    }
    assert_eq!(counts(&mut t, 1)[511], MAX_NODES_PER_BUCKET);
    assert_eq!(t.update(peer(0x80, 100), 0, 2), UpdateOutcome::NeedPing(peer(0x80, 0)));
    assert_eq!(counts(&mut t, 2)[511], MAX_NODES_PER_BUCKET);
    assert_eq!(t.update(peer(0x80, 101), 0, 3), UpdateOutcome::Discarded);
    let last = t.bucket(511, 3);
    assert_eq!(last.num_entries(), MAX_NODES_PER_BUCKET);
    assert!(last.has_pending());
}

#[test]
fn pending_contact_is_promoted_after_timeout() {
    let mut t: KBucketsTable<PeerId, u32> = KBucketsTable::new(local(), 100, 0);
    for k in 0..MAX_NODES_PER_BUCKET as u8 {
        assert_eq!(t.update(peer(0x80, k), 0, 0), UpdateOutcome::Added);
    }
    assert_eq!(t.update(peer(0x80, 100), 0, 10), UpdateOutcome::NeedPing(peer(0x80, 0)));
    // not yet expired: still pending
    assert_eq!(t.update(peer(0x80, 101), 0, 50), UpdateOutcome::Discarded);
    // expired: the oldest is evicted, the pending one is appended
    assert_eq!(t.update(peer(0x80, 5), 9, 200), UpdateOutcome::Refreshed(0));
    assert_eq!(counts(&mut t, 200)[511], MAX_NODES_PER_BUCKET);
    let ids = t.find_closest(&local(), 200);
    assert_eq!(ids.len(), MAX_NODES_PER_BUCKET);
    assert!(!ids.contains(&peer(0x80, 0)));
    assert!(ids.contains(&peer(0x80, 100)));
    // the new oldest contact is the second one added
    assert_eq!(t.update(peer(0x80, 102), 0, 201), UpdateOutcome::NeedPing(peer(0x80, 1)));
}

#[test]
fn refreshing_oldest_clears_pending() {
    let mut t: KBucketsTable<PeerId, u32> = KBucketsTable::new(local(), 100, 0);
    for k in 0..MAX_NODES_PER_BUCKET as u8 {
        assert_eq!(t.update(peer(0x80, k), k as u32, 1), UpdateOutcome::Added);
    }
    assert_eq!(t.update(peer(0x80, 100), 0, 2), UpdateOutcome::NeedPing(peer(0x80, 0)));
    assert_eq!(t.update(peer(0x80, 0), 50, 3), UpdateOutcome::Refreshed(0));
    let last = t.bucket(511, 3);
    assert!(!last.has_pending());
    assert_eq!(last.num_entries(), MAX_NODES_PER_BUCKET);
    assert_eq!(last.last_update(), 3);
    // the refreshed contact is now the most recent: the next ping names the second
    assert_eq!(t.update(peer(0x80, 101), 0, 4), UpdateOutcome::NeedPing(peer(0x80, 1)));
}

#[test]
fn find_closest_sorts_ascending() {
    let mut t: KBucketsTable<PeerId, u32> = KBucketsTable::new(local(), 100, 0);
    for b in [9u8, 1, 3, 2] {
        assert_eq!(t.update(peer(0, b), 0, 1), UpdateOutcome::Added);
    }
    assert_eq!(t.update(peer(0x80, 0), 0, 1), UpdateOutcome::Added);
    let ids = t.find_closest(&peer(0, 3), 1);
    assert_eq!(ids, vec![peer(0, 3), peer(0, 2), peer(0, 1), peer(0, 9), peer(0x80, 0)]);
    let ids = t.find_closest(&local(), 1);
    assert_eq!(ids, vec![peer(0, 1), peer(0, 2), peer(0, 3), peer(0, 9), peer(0x80, 0)]);
}

#[test]
fn find_closest_with_self_inserts_local_once() {
    let mut t: KBucketsTable<PeerId, u32> = KBucketsTable::new(local(), 100, 0);
    for b in [9u8, 1, 3, 2] {
        assert_eq!(t.update(peer(0, b), 0, 1), UpdateOutcome::Added);
    }
    let ids = t.find_closest_with_self(&peer(0, 3), 1);
    assert_eq!(ids, vec![peer(0, 3), peer(0, 2), peer(0, 1), local(), peer(0, 9)]);
    let ids = t.find_closest_with_self(&local(), 1);
    assert_eq!(ids, vec![local(), peer(0, 1), peer(0, 2), peer(0, 3), peer(0, 9)]);
    let ids = t.find_closest_with_self(&peer(0x80, 0), 1);
    assert_eq!(ids.len(), 5);
    assert_eq!(ids.iter().filter(|i| **i == local()).count(), 1);
    assert_eq!(ids[0], local());
}

#[test]
fn empty_table_closest_with_self_is_local() {
    let mut t: KBucketsTable<PeerId, u32> = KBucketsTable::new(local(), 100, 0);
    assert!(t.find_closest(&peer(0, 1), 0).is_empty());
    assert_eq!(t.find_closest_with_self(&peer(0, 1), 0), vec![local()]);
}

#[test]
fn stale_buckets_are_left_out() {
    let mut t: KBucketsTable<PeerId, u32> = KBucketsTable::new(local(), 100, 0);
    assert_eq!(t.update(peer(0, 1), 0, 0), UpdateOutcome::Added);
    assert_eq!(t.update(peer(0, 9), 0, 150), UpdateOutcome::Added);
    assert_eq!(t.find_closest(&local(), 100), vec![peer(0, 1), peer(0, 9)]);
    assert_eq!(t.find_closest(&local(), 200), vec![peer(0, 9)]);
    assert!(t.find_closest(&local(), 251).is_empty());
}

#[test]
fn buckets_iterator_reports_exact_length() {
    let mut t: KBucketsTable<PeerId, u32> = KBucketsTable::new(local(), 100, 7);
    let mut it = t.buckets();
    assert_eq!(it.size_hint(), (512, Some(512)));
    let first = it.next(&mut t, 8).unwrap();
    assert_eq!(first.last_update(), 7);
    assert_eq!(first.num_entries(), 0);
    assert!(!first.has_pending());
    assert_eq!(it.size_hint(), (511, Some(511)));
    assert_eq!(t.my_id(), &local());
}

#[test]
fn peer_id_distance() {
    let a = peer(0x81, 0x0f);
    let b = peer(0x01, 0xf0);
    let d = a.distance_with(&b);
    assert_eq!(d[0], 0x80);
    assert_eq!(d[63], 0xff);
    assert!(d[1..63].iter().all(|&x| x == 0));
    assert_eq!(PeerId::leading_zeros(d), 0);
    assert_eq!(PeerId::leading_zeros(peer(0, 1).distance_with(&local())), 511);
    assert_eq!(PeerId::leading_zeros(local().distance_with(&local())), 512);
    assert_eq!(PeerId::num_bits(), 512);
    assert!(PeerId::distance_le(&peer(0, 1).distance_with(&local()), &d));
    assert!(!PeerId::distance_le(&d, &peer(0, 1).distance_with(&local())));
    assert!(a.same_id(&a.clone_id()));
    assert!(!a.same_id(&b));
    assert_eq!(a.digest()[0], 0x81);
    assert_eq!(a.digest().len(), 64);
}

#[test]
fn bucket_num_follows_leading_zeros() {
    assert_eq!(kbuckets::bucket_num(&local(), &local()), None);
    assert_eq!(kbuckets::bucket_num(&local(), &peer(0, 1)), Some(0));
    assert_eq!(kbuckets::bucket_num(&local(), &peer(0, 8)), Some(3));
    assert_eq!(kbuckets::bucket_num(&local(), &peer(0x40, 0)), Some(510));
}

#[test]
fn sort_by_distance_orders_closest_first() {
    let ids = vec![peer(0, 7), peer(0x80, 0), peer(0, 1), peer(0, 4)];
    let sorted = kbuckets::sort_by_distance(ids, &peer(0, 5));
    assert_eq!(sorted, vec![peer(0, 4), peer(0, 7), peer(0, 1), peer(0x80, 0)]);
    assert!(kbuckets::sort_by_distance(Vec::new(), &local()).is_empty());
}

#[test]
fn insert_self_keeps_order_and_skips_duplicate() {
    let ids = vec![peer(0, 1), peer(0, 6)];
    let r = kbuckets::insert_self(ids, &peer(0, 4), &local());
    assert_eq!(r, vec![peer(0, 1), peer(0, 4), peer(0, 6)]);
    let ids = vec![peer(0, 1), peer(0, 4), peer(0, 6)];
    let r = kbuckets::insert_self(ids, &peer(0, 4), &local());
    assert_eq!(r, vec![peer(0, 1), peer(0, 4), peer(0, 6)]);
    let r = kbuckets::insert_self(vec![peer(0, 1)], &peer(0, 9), &local());
    assert_eq!(r, vec![peer(0, 1), peer(0, 9)]);
}

#[test]
fn buckets_flush_each_bucket_as_its_view_is_handed_out() {
    let mut t: KBucketsTable<PeerId, u32> = KBucketsTable::new(local(), 100, 0);
    for k in 0..MAX_NODES_PER_BUCKET as u8 {
        assert_eq!(t.update(peer(0x80, k), 0, 0), UpdateOutcome::Added);
    }
    assert_eq!(t.update(peer(0x80, 100), 0, 10), UpdateOutcome::NeedPing(peer(0x80, 0)));
    let mut it = t.buckets();
    // creating the walk changes nothing: the expired pending contact is still there
    assert!(t.bucket(511, 50).has_pending());
    let mut views = Vec::new();
    while let Some(b) = it.next(&mut t, 500) {
        views.push(b);
    }
    assert_eq!(views.len(), 512);
    assert_eq!(views[511].num_entries(), MAX_NODES_PER_BUCKET);
    assert!(!views[511].has_pending());
    assert!(it.next(&mut t, 500).is_none());
    let ids = t.find_closest(&local(), 500);
    assert!(ids.is_empty());
    assert_eq!(t.update(peer(0x80, 1), 0, 501), UpdateOutcome::Refreshed(0));
    let ids = t.find_closest(&local(), 501);
    assert!(!ids.contains(&peer(0x80, 0)));
    assert!(ids.contains(&peer(0x80, 100)));
}
