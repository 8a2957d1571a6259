use p2p::{LookupState, PeerId, PeerRecord, K_FANOUT};

fn id(bits: u64) -> PeerId {
    PeerId { bits }
}

fn rec(bits: u64) -> PeerRecord {
    PeerRecord { id: id(bits), addrs: vec![format!("/addr/{}", bits)], last_seen: 0 }
}

/// Every peer of the simulated network answers a query with its whole view:
/// all other peers. Distances are deterministic, nobody fails.
fn network_view(all: &[u64], responder: u64) -> Vec<PeerRecord> {
    all.iter().filter(|&&b| b != responder).map(|&b| rec(b)).collect()
}

#[test]
fn lookup_converges_to_true_closest_peers() {
    // 30 reachable peers, target 10: the finished shortlist must be exactly
    // the K_FANOUT closest by XOR distance, closest first.
    let peers: Vec<u64> = (1..=30).collect();
    let target = id(100);
    let mut l = LookupState::new(target);
    // Seeded from two bootstrap contacts only.
    l.absorb(vec![rec(1), rec(2)]);
    let mut rounds = 0;
    loop {
        let batch = l.next_batch(3);
        if batch.is_empty() {
            break;
        }
        for p in batch {
            l.on_response(p, network_view(&peers, p.bits));
        }
        rounds += 1;
        assert!(rounds < 100, "lookup did not converge");
    }
    assert!(l.finished());
    let mut expected: Vec<u64> = peers.clone();
    expected.sort_by_key(|b| b ^ target.bits);
    expected.truncate(K_FANOUT);
    let got: Vec<u64> = l.shortlist.iter().map(|r| r.id.bits).collect();
    assert_eq!(got, expected);
}

#[test]
fn shortlist_stays_sorted_and_capped() {
    let target = id(0);
    let mut l = LookupState::new(target);
    let candidates: Vec<PeerRecord> = (1..=40).rev().map(rec).collect();
    l.absorb(candidates);
    assert_eq!(l.shortlist.len(), K_FANOUT);
    let dists: Vec<u64> = l.shortlist.iter().map(|r| r.id.bits ^ target.bits).collect();
    let mut sorted = dists.clone();
    sorted.sort();
    assert_eq!(dists, sorted);
    // The kept entries are the closest 20: 1..=20.
    assert_eq!(dists, (1..=20).collect::<Vec<u64>>());
}

#[test]
fn failed_peer_leaves_shortlist_and_lookup_goes_on() {
    let mut l = LookupState::new(id(0));
    l.absorb(vec![rec(1), rec(2), rec(3)]);
    let batch = l.next_batch(2);
    assert_eq!(batch.len(), 2);
    // The closest peer times out: dropped, not fatal.
    l.on_failure(id(1));
    assert!(l.shortlist.iter().all(|r| r.id.bits != 1));
    l.on_response(id(2), vec![rec(4)]);
    let batch = l.next_batch(2);
    assert!(!batch.is_empty());
    for p in batch {
        l.on_response(p, vec![]);
    }
    assert!(l.finished());
    assert!(!l.exhausted());
}

#[test]
fn exhausted_when_every_candidate_fails() {
    let mut l = LookupState::new(id(0));
    l.absorb(vec![rec(1), rec(2)]);
    for p in l.next_batch(3) {
        l.on_failure(p);
    }
    assert!(l.shortlist.is_empty());
    assert!(l.exhausted());
}

#[test]
fn no_peer_is_queried_twice() {
    let mut l = LookupState::new(id(0));
    l.absorb(vec![rec(1), rec(2), rec(3)]);
    let first = l.next_batch(3);
    for p in &first {
        l.on_response(*p, vec![rec(1), rec(2), rec(3)]);
    }
    let second = l.next_batch(3);
    for p in &second {
        assert!(!first.contains(p));
    }
}
