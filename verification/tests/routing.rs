use p2p::{PeerId, RoutingTable, SeenOutcome, K_FANOUT};

fn id(bits: u64) -> PeerId {
    PeerId { bits }
}

#[test]
fn bucket_never_exceeds_fanout() {
    // 25 identities at distances 1024..1049 from the local peer: all share
    // the same distance-prefix bucket, so only K_FANOUT of them can stay.
    let mut t = RoutingTable::new(id(0));
    let mut added = 0;
    let mut full = 0;
    for i in 0..25u64 {
        match t.record_seen(id(1024 + i), format!("/addr/{}", i), i) {
            SeenOutcome::Added => added += 1,
            SeenOutcome::Full { oldest } => {
                assert_eq!(oldest.bits, 1024);
                full += 1;
            }
            other => panic!("unexpected outcome: {:?}", other),
        }
    }
    assert_eq!(added, K_FANOUT);
    assert_eq!(full, 25 - K_FANOUT);
    for b in &t.buckets {
        assert!(b.len() <= K_FANOUT);
    }
}

#[test]
fn identity_in_one_bucket_only() {
    let mut t = RoutingTable::new(id(0));
    for i in 1..40u64 {
        t.record_seen(id(i), format!("/addr/{}", i), i);
    }
    // Refreshing must not duplicate an identity anywhere.
    for i in 1..40u64 {
        t.record_seen(id(i), format!("/other/{}", i), 100 + i);
    }
    let mut seen = std::collections::HashSet::new();
    for b in &t.buckets {
        for r in b {
            assert!(seen.insert(r.id.bits), "identity {} in two places", r.id.bits);
        }
    }
    assert_eq!(seen.len(), 39);
}

#[test]
fn full_bucket_evicts_only_after_removal() {
    let mut t = RoutingTable::new(id(0));
    for i in 0..K_FANOUT as u64 {
        assert_eq!(t.record_seen(id(1024 + i), "a".to_string(), i), SeenOutcome::Added);
    }
    // Bucket full: candidate refused, the oldest entry is named for a ping.
    match t.record_seen(id(1024 + 30), "a".to_string(), 99) {
        SeenOutcome::Full { oldest } => {
            assert_eq!(oldest.bits, 1024);
            // The oldest did not answer the ping: evict and retry.
            t.remove(oldest);
            assert_eq!(t.record_seen(id(1024 + 30), "a".to_string(), 99), SeenOutcome::Added);
            assert!(!t.has(id(1024)));
            assert!(t.has(id(1024 + 30)));
        }
        other => panic!("unexpected outcome: {:?}", other),
    }
}

#[test]
fn record_seen_own_identity_is_refused() {
    let mut t = RoutingTable::new(id(7));
    assert_eq!(t.record_seen(id(7), "self".to_string(), 1), SeenOutcome::Own);
    assert!(!t.has(id(7)));
}

#[test]
fn refresh_merges_address_and_timestamp() {
    let mut t = RoutingTable::new(id(0));
    t.record_seen(id(5), "a1".to_string(), 1);
    assert_eq!(t.record_seen(id(5), "a2".to_string(), 9), SeenOutcome::Refreshed);
    assert_eq!(t.record_seen(id(5), "a1".to_string(), 10), SeenOutcome::Refreshed);
    let rec = t
        .buckets
        .iter()
        .flatten()
        .find(|r| r.id.bits == 5)
        .expect("record for 5");
    assert_eq!(rec.last_seen, 10);
    assert_eq!(rec.addrs, vec!["a1".to_string(), "a2".to_string()]);
}

#[test]
fn closest_sorted_by_xor_distance() {
    let mut t = RoutingTable::new(id(0));
    for &b in &[1u64, 2, 3, 8, 12, 100, 77, 31] {
        t.record_seen(id(b), format!("/addr/{}", b), b);
    }
    let target = id(10);
    let r = t.closest(target, 5);
    assert_eq!(r.len(), 5);
    let dists: Vec<u64> = r.iter().map(|x| x.id.bits ^ target.bits).collect();
    let mut sorted = dists.clone();
    sorted.sort();
    assert_eq!(dists, sorted);
    // The five returned really are the five closest: 8^10=2, 2^10=8,
    // 3^10=9, 1^10=11, 12^10=6.
    let mut got: Vec<u64> = r.iter().map(|x| x.id.bits).collect();
    got.sort();
    assert_eq!(got, vec![1, 2, 3, 8, 12]);
}

#[test]
fn closest_returns_everything_when_table_is_small() {
    let mut t = RoutingTable::new(id(0));
    t.record_seen(id(4), "a".to_string(), 1);
    t.record_seen(id(9), "b".to_string(), 2);
    let r = t.closest(id(1), 10);
    assert_eq!(r.len(), 2);
    let r0 = t.closest(id(1), 0);
    assert!(r0.is_empty());
}

#[test]
fn extreme_distances_land_in_first_and_last_buckets() {
    let mut t = RoutingTable::new(id(0));
    t.record_seen(id(1), "near".to_string(), 1);
    t.record_seen(id(u64::MAX), "far".to_string(), 2);
    assert_eq!(t.buckets[0].len(), 1);
    assert_eq!(t.buckets[63].len(), 1);
    assert!(t.has(id(1)) && t.has(id(u64::MAX)));
}
