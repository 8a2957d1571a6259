use p2p::{step, Action, ConnEvent, Frame, MessageEnvelope, Node, PeerId, PeerState};

fn id(bits: u64) -> PeerId {
    PeerId { bits }
}

fn new_node(bits: u64) -> Node {
    Node::new(id(bits), 50, 64, 600)
}

/// Carry one node's outbound frames to the other nodes, collecting every
/// application delivery, until nothing is in flight. Queries and replies
/// are routed by peer id; dial requests are ignored (the harness connects
/// nodes explicitly).
fn pump(nodes: &mut [Node], mut inbox: Vec<(u64, u64, Frame)>, now: u64) -> Vec<(u64, MessageEnvelope)> {
    let mut delivered = Vec::new();
    let mut guard = 0;
    while let Some((from, to, frame)) = inbox.pop() {
        guard += 1;
        assert!(guard < 10_000, "simulation did not quiesce");
        let n = nodes.iter_mut().find(|n| n.id.bits == to).expect("node");
        let acts = match frame {
            Frame::Query { target } => n.on_query_frame(id(from), target),
            Frame::Reply { target, found } => n.on_reply_frame(id(from), target, found, now),
            Frame::Publish { env } => n.on_publish_frame(id(from), env, now),
        };
        for a in acts {
            match a {
                Action::Send { to: next, frame } => inbox.push((to, next.bits, frame)),
                Action::Deliver { env } => delivered.push((to, env)),
                Action::Dial { .. } => {}
            }
        }
    }
    delivered
}

fn sends_of(from: u64, acts: Vec<Action>) -> Vec<(u64, u64, Frame)> {
    let mut out = Vec::new();
    for act in acts {
        if let Action::Send { to, frame } = act {
            out.push((from, to.bits, frame));
        }
    }
    out
}

#[test]
fn three_nodes_discover_and_flood() {
    // A bootstraps with B, B bootstraps with C. After A's self-lookup
    // converges, A's routing table knows C. A publish on "t" reaches B and
    // C exactly once each, and a replay adds zero deliveries anywhere.
    let mut nodes = vec![new_node(1), new_node(2), new_node(3)];
    nodes[1].subscribe("t".to_string());
    nodes[2].subscribe("t".to_string());

    // B bootstraps with C's address; the dial completes both ways.
    let mut inbox = sends_of(2, nodes[1].bootstrap(vec![(id(3), "/addr/3".to_string())], 1));
    inbox.extend(sends_of(2, nodes[1].on_connected(id(3), "/addr/3".to_string(), 2)));
    inbox.extend(sends_of(3, nodes[2].on_connected(id(2), "/addr/2".to_string(), 2)));
    let d = pump(&mut nodes, inbox, 3);
    assert!(d.is_empty());

    // A bootstraps with B's address.
    let mut inbox = sends_of(1, nodes[0].bootstrap(vec![(id(2), "/addr/2".to_string())], 4));
    inbox.extend(sends_of(1, nodes[0].on_connected(id(2), "/addr/2".to_string(), 5)));
    inbox.extend(sends_of(2, nodes[1].on_connected(id(1), "/addr/1".to_string(), 5)));
    let d = pump(&mut nodes, inbox, 6);
    assert!(d.is_empty());

    // A's self-lookup pulled C out of B's routing table.
    assert!(nodes[0].table.has(id(3)));

    // A publishes on "t": B and C each deliver the payload exactly once.
    let env = nodes[0].publish("t".to_string(), vec![7, 7], 20);
    let inbox = sends_of(1, nodes[0].flood_actions(&env, None));
    assert!(!inbox.is_empty());
    let delivered = pump(&mut nodes, inbox, 21);
    let mut who: Vec<u64> = delivered.iter().map(|(n, _)| *n).collect();
    who.sort();
    assert_eq!(who, vec![2, 3]);
    for (_, e) in &delivered {
        assert_eq!(e.payload, vec![7, 7]);
        assert_eq!(e.topic, "t");
        assert_eq!(e.id, env.id);
    }

    // Replaying the same envelope into A (or anyone) delivers nothing more.
    let replay = nodes[0].on_publish_frame(id(2), env.duplicate(), 30);
    assert!(replay.is_empty());
    let inbox = vec![(3, 2, Frame::Publish { env: env.duplicate() })];
    let delivered = pump(&mut nodes, inbox, 31);
    assert!(delivered.is_empty());
}

#[test]
fn dial_failure_returns_to_idle() {
    let mut n = new_node(1);
    n.bootstrap(vec![(id(9), "/addr/9".to_string())], 10);
    assert_eq!(n.dials.len(), 1);
    n.on_dial_failed(&"/addr/9".to_string(), 11);
    assert!(n.dials.is_empty());
}

#[test]
fn dial_timeout_returns_to_idle_and_does_not_block() {
    let mut n = new_node(1);
    n.subscribe("t".to_string());
    n.bootstrap(vec![(id(9), "/addr/9".to_string())], 10);
    assert_eq!(n.dials.len(), 1);
    // Before the timeout the dial is still pending, and other events are
    // handled meanwhile.
    n.on_tick(40);
    assert_eq!(n.dials.len(), 1);
    let mut other = new_node(2);
    let env = other.publish("t".to_string(), vec![1], 41);
    let acts = n.on_publish_frame(id(2), env, 41);
    assert!(acts.iter().any(|a| matches!(a, Action::Deliver { .. })));
    // At the timeout the address goes back to idle.
    n.on_tick(60);
    assert!(n.dials.is_empty());
}

#[test]
fn lifecycle_machine_transitions() {
    assert_eq!(step(PeerState::Idle, ConnEvent::DialStart), PeerState::Dialing);
    assert_eq!(step(PeerState::Dialing, ConnEvent::DialSucceeded), PeerState::Connected);
    assert_eq!(step(PeerState::Dialing, ConnEvent::DialFailed), PeerState::Idle);
    assert_eq!(step(PeerState::Dialing, ConnEvent::DialTimeout), PeerState::Idle);
    assert_eq!(step(PeerState::Connected, ConnEvent::StreamClosed), PeerState::Closed);
    // Terminal and nonsensical events leave the state alone.
    assert_eq!(step(PeerState::Closed, ConnEvent::DialStart), PeerState::Closed);
    assert_eq!(step(PeerState::Idle, ConnEvent::StreamClosed), PeerState::Idle);
}

#[test]
fn query_timeout_evicts_peer_and_lookup_goes_on() {
    let mut n = new_node(1);
    let mut inbox = sends_of(1, n.bootstrap(vec![
        (id(8), "/addr/8".to_string()),
        (id(9), "/addr/9".to_string()),
    ], 1));
    assert!(n.table.has(id(8)) && n.table.has(id(9)));
    // One bootstrap contact never answers its query.
    let acts = n.on_query_timeout(id(9), 30);
    assert!(!n.table.has(id(9)));
    assert!(n.table.has(id(8)));
    // The other one answers; the lookup still converges.
    inbox.extend(sends_of(1, acts));
    while let Some((_, to, frame)) = inbox.pop() {
        if to == 8 {
            if let Frame::Query { target } = frame {
                let more = n.on_reply_frame(id(8), target, vec![], 31);
                inbox.extend(sends_of(1, more));
            }
        }
    }
    assert!(n.lookup_result().is_some());
}

#[test]
fn tick_prunes_expired_message_ids() {
    // dedup ttl is 600 here: ids inserted at time 0 are forgotten on a tick
    // at 700, ids inserted at 200 survive.
    let mut n = new_node(1);
    n.subscribe("t".to_string());
    let mut other = new_node(2);
    let e1 = other.publish("t".to_string(), vec![1], 0);
    let e2 = other.publish("t".to_string(), vec![2], 0);
    n.on_publish_frame(id(2), e1.duplicate(), 0);
    n.on_publish_frame(id(2), e2.duplicate(), 200);
    n.on_tick(700);
    assert!(!n.pubsub.dedup.has(e1.id));
    assert!(n.pubsub.dedup.has(e2.id));
    // The pruned envelope counts as new again.
    let acts = n.on_publish_frame(id(2), e1.duplicate(), 701);
    assert!(acts.iter().any(|a| matches!(a, Action::Deliver { .. })));
}

#[test]
fn full_bucket_pings_oldest_then_evicts_and_admits() {
    // 20 peers at distances 1024..1044 from the local node fill one bucket.
    let mut n = new_node(0);
    for i in 0..20u64 {
        n.on_connected(id(1024 + i), format!("/addr/{}", i), i);
    }
    // A fresh peer for the full bucket: refused for now, but the oldest
    // entry is pinged so an unresponsive one will be evicted.
    let acts = n.on_connected(id(1024 + 30), "/addr/30".to_string(), 99);
    assert!(!n.table.has(id(1024 + 30)));
    assert!(acts.iter().any(|a| matches!(
        a,
        Action::Send { to, frame: Frame::Query { .. } } if to.bits == 1024
    )));
    // The ping goes unanswered: the oldest is evicted, and the candidate is
    // admitted the next time it is seen.
    n.on_query_timeout(id(1024), 120);
    assert!(!n.table.has(id(1024)));
    n.on_connected(id(1024 + 30), "/addr/30".to_string(), 121);
    assert!(n.table.has(id(1024 + 30)));
}
