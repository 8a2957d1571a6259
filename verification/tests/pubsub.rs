use p2p::{default_topic, DedupCache, PeerId, Pubsub};

fn id(bits: u64) -> PeerId {
    PeerId { bits }
}

#[test]
fn default_topic_value() {
    assert_eq!(default_topic(), "example-topic");
}

#[test]
fn message_id_formula() {
    // The id digest folds origin, sequence, payload length and every byte
    // with h -> h * 31 + b (mod 2^64):
    // mix(1, 2) = 33; mix(33, 1) = 1024; mix(1024, 3) = 31747.
    let mut ps = Pubsub::new(8);
    ps.next_seq = 2;
    let env = ps.publish(id(1), "t".to_string(), vec![3], 0);
    assert_eq!(env.id, 31747);
    assert_eq!(env.origin.bits, 1);
    assert_eq!(env.seq, 2);
    assert_eq!(env.topic, "t");
    assert_eq!(env.payload, vec![3]);
}

#[test]
fn publish_then_replay_is_a_no_op() {
    // Publishing inserts the id into the dedup cache, so receiving the
    // identical envelope back from any session delivers nothing and
    // forwards nothing.
    let mut ps = Pubsub::new(8);
    ps.subscribe("t".to_string());
    let env = ps.publish(id(1), "t".to_string(), vec![1, 2], 5);
    let (fresh, deliver) = ps.on_inbound(&env, 6);
    assert!(!fresh);
    assert!(!deliver);
}

#[test]
fn deliver_at_most_once_per_id() {
    let mut ps = Pubsub::new(8);
    ps.subscribe("t".to_string());
    let mut other = Pubsub::new(8);
    let env = other.publish(id(9), "t".to_string(), vec![7], 0);
    let (fresh, deliver) = ps.on_inbound(&env, 1);
    assert!(fresh && deliver);
    // Replays from any number of sessions deliver nothing more.
    for _ in 0..5 {
        let (fresh, deliver) = ps.on_inbound(&env, 2);
        assert!(!fresh && !deliver);
    }
}

#[test]
fn unsubscribed_topic_relays_but_does_not_deliver() {
    let mut ps = Pubsub::new(8);
    let mut other = Pubsub::new(8);
    let env = other.publish(id(9), "t".to_string(), vec![7], 0);
    let (fresh, deliver) = ps.on_inbound(&env, 1);
    assert!(fresh);
    assert!(!deliver);
}

#[test]
fn subscribe_unsubscribe_toggle_interest() {
    let mut ps = Pubsub::new(8);
    let mut other = Pubsub::new(8);
    ps.subscribe("a".to_string());
    ps.subscribe("a".to_string());
    assert_eq!(ps.subs.len(), 1);
    ps.unsubscribe(&"a".to_string());
    let env = other.publish(id(9), "a".to_string(), vec![1], 0);
    let (_, deliver) = ps.on_inbound(&env, 1);
    assert!(!deliver);
}

#[test]
fn dedup_evicts_oldest_by_insertion_order() {
    let mut c = DedupCache::new(3);
    c.insert(1, 10);
    c.insert(2, 11);
    c.insert(3, 12);
    assert!(c.has(1) && c.has(2) && c.has(3));
    // Over capacity: the oldest id (1) leaves, the rest stay in order.
    c.insert(4, 13);
    assert!(!c.has(1));
    assert!(c.has(2) && c.has(3) && c.has(4));
    c.insert(5, 14);
    assert!(!c.has(2));
    assert_eq!(c.entries.len(), 3);
}

#[test]
fn evicted_id_is_treated_as_new_again() {
    let mut ps = Pubsub::new(2);
    ps.subscribe("t".to_string());
    let mut other = Pubsub::new(8);
    let env = other.publish(id(9), "t".to_string(), vec![1], 0);
    let (_, deliver) = ps.on_inbound(&env, 1);
    assert!(deliver);
    // Two more distinct ids push the first out of the bounded cache.
    let env2 = other.publish(id(9), "t".to_string(), vec![2], 0);
    let env3 = other.publish(id(9), "t".to_string(), vec![3], 0);
    ps.on_inbound(&env2, 2);
    ps.on_inbound(&env3, 3);
    // Seen again, the evicted envelope counts as new and is re-delivered.
    let (fresh, deliver) = ps.on_inbound(&env, 4);
    assert!(fresh && deliver);
}

#[test]
fn dedup_prunes_expired_entries() {
    let mut c = DedupCache::new(10);
    c.insert(1, 0);
    c.insert(2, 50);
    c.insert(3, 90);
    c.prune_expired(100, 30);
    assert!(!c.has(1));
    assert!(!c.has(2));
    assert!(c.has(3));
}

#[test]
fn dedup_insert_known_id_changes_nothing() {
    let mut c = DedupCache::new(2);
    c.insert(1, 0);
    c.insert(1, 5);
    assert_eq!(c.entries.len(), 1);
    assert_eq!(c.entries[0].time, 0);
}

#[test]
fn sequence_number_wraps_at_the_top() {
    let mut ps = Pubsub::new(4);
    ps.next_seq = u64::MAX;
    let env = ps.publish(id(1), "t".to_string(), vec![], 0);
    assert_eq!(env.seq, u64::MAX);
    assert_eq!(ps.next_seq, 0);
}
