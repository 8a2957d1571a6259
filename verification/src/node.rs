//! The node core: single-writer event dispatcher over routing table,
//! dedup cache, lookup state and live sessions.
//!
//! The transport collaborator outside this crate turns `Action`s into real
//! dials and stream writes and feeds completed dials, closed streams and
//! inbound frames back as `Event`s; everything between those two edges
//! happens here, one event at a time.

use vstd::prelude::*;
use crate::peer::PeerId;
use crate::peer::PeerRecord;
use crate::peer::seq_has_id;
use crate::peer::RecordModel;
use crate::peer::models_of;
use crate::envelope::MessageEnvelope;
use crate::envelope::EnvelopeModel;
use crate::pubsub::Pubsub;
use crate::table::RoutingTable;
use crate::lookup::LookupState;
use crate::lookup::ids_contain;
use crate::K_FANOUT;
use crate::ALPHA;

verus! {

/// An outbound dial that has not completed yet.
pub struct DialAttempt {
    pub addr: String,
    pub started: u64,
}

/// A protocol frame on the wire between two peers.
pub enum Frame {
    /// Find the peers closest to `target`.
    Query { target: PeerId },
    /// The responder's closest known peers to `target`.
    Reply { target: PeerId, found: Vec<PeerRecord> },
    /// A flooded pubsub envelope.
    Publish { env: MessageEnvelope },
}

/// What the transport tells the node.
pub enum Event {
    /// A session to `peer` is up (outbound dial done or inbound accepted).
    Connected { peer: PeerId, addr: String, now: u64 },
    /// An outbound dial gave up.
    DialFailed { addr: String, now: u64 },
    /// A session ended.
    Closed { peer: PeerId, now: u64 },
    /// A queried peer never answered within the query window.
    QueryTimeout { peer: PeerId, now: u64 },
    /// A frame arrived on `from`'s session.
    Inbound { from: PeerId, frame: Frame, now: u64 },
    /// Timer tick.
    Tick { now: u64 },
}

/// What the node asks the transport to do.
pub enum Action {
    /// Open a session to this address.
    Dial { addr: String },
    /// Write a frame to this peer's session.
    Send { to: PeerId, frame: Frame },
    /// Surface a delivered envelope to the application.
    Deliver { env: MessageEnvelope },
}

/// The action is a pubsub forward of envelope model `m` to peer `p`.
pub open spec fn is_publish_to(a: Action, p: PeerId, m: EnvelopeModel) -> bool {
    &&& a matches Action::Send { to, frame: Frame::Publish { env } } && to == p && env@ == m
}

/// The action surfaces envelope model `m` to the application.
pub open spec fn is_delivery_of(a: Action, m: EnvelopeModel) -> bool {
    &&& a matches Action::Deliver { env } && env@ == m
}

/// The action forwards envelope model `m` to one of the given peers,
/// never to the excepted one.
pub open spec fn floods_within(
    a: Action,
    peers: Seq<PeerId>,
    except: Option<PeerId>,
    m: EnvelopeModel,
) -> bool {
    exists|p: PeerId| peers.contains(p) && Some(p) != except && is_publish_to(a, p, m)
}

/// The action list carries a discovery query to this peer.
pub open spec fn queries_peer(acts: Seq<Action>, p: PeerId) -> bool {
    exists|k: int|
        0 <= k < acts.len() && (#[trigger] acts[k] matches Action::Send {
            to,
            frame: Frame::Query { .. },
        } && to == p)
}

/// The action list asks for a dial of this address.
pub open spec fn dials_address(acts: Seq<Action>, a: Seq<char>) -> bool {
    exists|k: int| 0 <= k < acts.len() && (#[trigger] acts[k] matches Action::Dial { addr } && addr@
        == a)
}

/// Some dial for this address was already in flight in `pre`.
pub open spec fn addr_was_dialed(pre: Seq<DialAttempt>, a: Seq<char>) -> bool {
    exists|j: int| 0 <= j < pre.len() && pre[j].addr@ == a
}

pub struct Node {
    pub id: PeerId,
    pub table: RoutingTable,
    pub pubsub: Pubsub,
    pub peers: Vec<PeerId>,
    pub dials: Vec<DialAttempt>,
    pub lookup: Option<LookupState>,
    pub dial_timeout: u64,
    pub dedup_ttl: u64,
}

impl Node {
    /// Structural invariant of the whole node.
    pub open spec fn wf(self) -> bool {
        &&& self.table.wf()
        &&& self.table.local == self.id
        &&& self.pubsub.wf()
        &&& forall|i: int, j: int|
            0 <= i < j < self.peers@.len() ==> self.peers@[i] != self.peers@[j]
        &&& match self.lookup {
            Some(l) => l.wf(),
            None => true,
        }
    }

    pub fn new(id: PeerId, dial_timeout: u64, dedup_cap: usize, dedup_ttl: u64) -> (r: Node)
        requires
            dedup_cap >= 1,
        ensures
            r.wf(),
            r.id == id,
            r.peers@.len() == 0,
            r.dials@.len() == 0,
            r.lookup is None,
            r.dial_timeout == dial_timeout,
            r.dedup_ttl == dedup_ttl,
            forall|x: PeerId| !r.table.spec_has(x),
            forall|x: u64| !r.pubsub.dedup.spec_has(x),
            forall|t: Seq<char>| !r.pubsub.is_subscribed(t),
    {
        Node {
            id,
            table: RoutingTable::new(id),
            pubsub: Pubsub::new(dedup_cap),
            peers: Vec::new(),
            dials: Vec::new(),
            lookup: None,
            dial_timeout,
            dedup_ttl,
        }
    }

    /// Record local interest in a topic.
    pub fn subscribe(&mut self, topic: String)
        requires
            old(self).wf(),
        ensures
            final(self).wf(),
            forall|t: Seq<char>|
                final(self).pubsub.is_subscribed(t) <==> old(self).pubsub.is_subscribed(t) || t
                    == topic@,
    {
        self.pubsub.subscribe(topic);
    }

    /// Drop local interest in a topic.
    pub fn unsubscribe(&mut self, topic: &String)
        requires
            old(self).wf(),
        ensures
            final(self).wf(),
            forall|t: Seq<char>|
                final(self).pubsub.is_subscribed(t) <==> old(self).pubsub.is_subscribed(t) && t
                    != topic@,
    {
        self.pubsub.unsubscribe(topic);
    }

    /// The connected peers an envelope must be forwarded to: everyone with
    /// a live session except, for a relayed envelope, the session it came
    /// in on.
    fn recipients_except(&self, except: Option<PeerId>) -> (r: Vec<PeerId>)
        ensures
            forall|k: int|
                0 <= k < r@.len() ==> ids_contain(self.peers@, #[trigger] r@[k]) && Some(r@[k])
                    != except,
            forall|j: int|
                0 <= j < self.peers@.len() && Some(#[trigger] self.peers@[j]) != except
                    ==> ids_contain(r@, self.peers@[j]),
    {
        let mut r: Vec<PeerId> = Vec::new();
        let mut i: usize = 0;
        while i < self.peers.len()
            invariant
                i <= self.peers@.len(),
                forall|k: int|
                    0 <= k < r@.len() ==> ids_contain(self.peers@, #[trigger] r@[k]) && Some(
                        r@[k],
                    ) != except,
                forall|j: int|
                    0 <= j < i && Some(#[trigger] self.peers@[j]) != except ==> ids_contain(
                        r@,
                        self.peers@[j],
                    ),
            decreases self.peers@.len() - i,
        {
            let p = self.peers[i];
            let skip = match except {
                Some(e) => e.bits == p.bits,
                None => false,
            };
            if !skip {
                let ghost rb = r@;
                r.push(p);
                proof {
                    assert(self.peers@.contains(p));
                    assert(r@[r@.len() - 1] == p);
                    assert forall|j: int|
                        0 <= j < i + 1 && Some(#[trigger] self.peers@[j]) != except
                            implies ids_contain(r@, self.peers@[j]) by {
                        if j < i {
                            let k = choose|k: int| 0 <= k < rb.len() && rb[k] == self.peers@[j];
                            assert(r@[k] == self.peers@[j]);
                        }
                    };
                }
            }
            i = i + 1;
        }
        r
    }

    /// Publish a payload on a topic: build the envelope and remember its
    /// id. `flood_actions` then carries it to every connected session.
    pub fn publish(&mut self, topic: String, payload: Vec<u8>, now: u64) -> (env: MessageEnvelope)
        requires
            old(self).wf(),
        ensures
            final(self).wf(),
            env.origin == old(self).id,
            env.topic@ == topic@,
            env.payload@ == payload@,
            env.id == crate::envelope::spec_message_id(
                old(self).id,
                old(self).pubsub.next_seq,
                payload@,
            ),
            final(self).pubsub.dedup.spec_has(env.id),
            final(self).peers@ == old(self).peers@,
    {
        self.pubsub.publish(self.id, topic, payload, now)
    }

    /// The flood fan-out for an envelope: one `Publish` send to every
    /// connected session, except the source session of a relayed envelope.
    pub fn flood_actions(&self, env: &MessageEnvelope, except: Option<PeerId>) -> (acts: Vec<
        Action,
    >)
        ensures
            forall|k: int|
                0 <= k < acts@.len() ==> floods_within(
                    #[trigger] acts@[k],
                    self.peers@,
                    except,
                    env@,
                ),
            forall|j: int|
                0 <= j < self.peers@.len() && Some(#[trigger] self.peers@[j]) != except
                    ==> exists|k: int|
                    0 <= k < acts@.len() && is_publish_to(acts@[k], self.peers@[j], env@),
    {
        let targets = self.recipients_except(except);
        let acts = make_publish_actions(env, &targets);
        proof {
            assert forall|k: int|
                0 <= k < acts@.len() implies floods_within(
                    #[trigger] acts@[k],
                    self.peers@,
                    except,
                    env@,
                ) by {
                assert(is_publish_to(acts@[k], targets@[k], env@));
                assert(self.peers@.contains(targets@[k]) && Some(targets@[k]) != except);
            };
            assert forall|j: int|
                0 <= j < self.peers@.len() && Some(#[trigger] self.peers@[j]) != except
                    implies exists|k: int|
                    0 <= k < acts@.len() && is_publish_to(acts@[k], self.peers@[j], env@) by {
                let p = self.peers@[j];
                assert(ids_contain(targets@, p));
                let k = choose|k: int| 0 <= k < targets@.len() && targets@[k] == p;
                assert(is_publish_to(acts@[k], p, env@));
            };
        }
        acts
    }

    /// React to an inbound pubsub envelope.
    ///
    /// A duplicate id is dropped silently with no state change and no
    /// actions; a fresh envelope is remembered, surfaced to the application
    /// exactly when the topic is locally subscribed, and relayed to every
    /// connected session except the one it arrived from.
    pub fn on_publish_frame(&mut self, from: PeerId, env: MessageEnvelope, now: u64) -> (acts: Vec<
        Action,
    >)
        requires
            old(self).wf(),
        ensures
            final(self).wf(),
            final(self).peers@ == old(self).peers@,
            old(self).pubsub.dedup.spec_has(env.id) ==> acts@.len() == 0 && final(self).pubsub
                == old(self).pubsub,
            !old(self).pubsub.dedup.spec_has(env.id) ==> final(self).pubsub.dedup.spec_has(env.id),
            (exists|k: int| 0 <= k < acts@.len() && is_delivery_of(#[trigger] acts@[k], env@))
                <==> old(self).pubsub.delivers(env),
            forall|k: int|
                0 <= k < acts@.len() && !is_delivery_of(#[trigger] acts@[k], env@) ==> exists|
                p: PeerId,
            |
                ids_contain(old(self).peers@, p) && p != from && is_publish_to(acts@[k], p, env@),
            !old(self).pubsub.dedup.spec_has(env.id) ==> forall|j: int|
                0 <= j < old(self).peers@.len() && #[trigger] old(self).peers@[j] != from
                    ==> exists|k: int|
                    0 <= k < acts@.len() && is_publish_to(acts@[k], old(self).peers@[j], env@),
    {
        let (fresh, deliver) = self.pubsub.on_inbound(&env, now);
        if !fresh {
            return Vec::new();
        }
        let targets = self.recipients_except(Some(from));
        let mut acts = make_publish_actions(&env, &targets);
        let ghost fwd = acts@;
        proof {
            assert(forall|k: int|
                0 <= k < fwd.len() ==> !is_delivery_of(#[trigger] fwd[k], env@));
        }
        if deliver {
            acts.push(Action::Deliver { env });
            proof {
                assert(is_delivery_of(acts@[acts@.len() - 1], env@));
                assert(forall|k: int| 0 <= k < fwd.len() ==> acts@[k] == fwd[k]);
            }
        }
        proof {
            assert forall|j: int|
                0 <= j < old(self).peers@.len() && #[trigger] old(self).peers@[j] != from
                    implies exists|k: int|
                    0 <= k < acts@.len() && is_publish_to(acts@[k], old(self).peers@[j], env@) by {
                let p = old(self).peers@[j];
                assert(self.peers@[j] == p);
                assert(ids_contain(targets@, p));
                let k = choose|k: int| 0 <= k < targets@.len() && targets@[k] == p;
                assert(is_publish_to(acts@[k], p, env@));
            };
        }
        acts
    }

    /// Answer a discovery query with the closest known peers.
    pub fn on_query_frame(&self, from: PeerId, target: PeerId) -> (acts: Vec<Action>)
        requires
            self.wf(),
        ensures
            acts@.len() == 1,
            acts@[0] matches Action::Send { to, frame: Frame::Reply { target: t, found } } && to
                == from && t == target && found@.len() == (if K_FANOUT <= self.table.models().len() {
                K_FANOUT as int
            } else {
                self.table.models().len() as int
            }) && (forall|i: int, j: int|
                0 <= i < j < found@.len() ==> target.spec_distance(found@[i].id)
                    <= target.spec_distance(found@[j].id)),
    {
        let found = self.table.closest(target, K_FANOUT);
        let mut acts: Vec<Action> = Vec::new();
        acts.push(Action::Send { to: from, frame: Frame::Reply { target, found } });
        acts
    }

    /// Fan the active lookup out to its next batch of peers.
    fn drive_lookup(&mut self) -> (acts: Vec<Action>)
        requires
            old(self).wf(),
        ensures
            final(self).wf(),
            final(self).table == old(self).table,
            final(self).pubsub == old(self).pubsub,
            final(self).peers@ == old(self).peers@,
            final(self).dials@ == old(self).dials@,
            old(self).lookup matches Some(l) ==> (final(self).lookup matches Some(l2) && l2.target
                == l.target && l2.shortlist@ == l.shortlist@ && l2.contacted@ == l.contacted@
                && (forall|x: PeerId| ids_contain(l.pending@, x) ==> ids_contain(l2.pending@, x))
                && (forall|x: PeerId|
                ids_contain(l2.pending@, x) ==> ids_contain(l.pending@, x) || !l.queried(x))
                && (acts@.len() < ALPHA ==> forall|i: int|
                0 <= i < l2.shortlist@.len() ==> l2.queried((#[trigger] l2.shortlist@[i]).id))),
            old(self).lookup is None ==> final(self).lookup is None,
            forall|k: int|
                0 <= k < acts@.len() ==> #[trigger] acts@[k] matches Action::Send {
                    to: _,
                    frame: Frame::Query { .. },
                },
    {
        let mut acts: Vec<Action> = Vec::new();
        let lookup = self.lookup.take();
        match lookup {
            Some(mut l) => {
                let ghost l0 = l;
                let batch = l.next_batch(ALPHA);
                let target = l.target;
                let mut i: usize = 0;
                while i < batch.len()
                    invariant
                        i <= batch@.len(),
                        acts@.len() == i,
                        forall|k: int|
                            0 <= k < acts@.len() ==> #[trigger] acts@[k] matches Action::Send {
                                to: _,
                                frame: Frame::Query { .. },
                            },
                    decreases batch@.len() - i,
                {
                    acts.push(Action::Send { to: batch[i], frame: Frame::Query { target } });
                    i = i + 1;
                }
                proof {
                    assert forall|x: PeerId|
                        ids_contain(l.pending@, x) implies ids_contain(l0.pending@, x)
                        || !l0.queried(x) by {
                        let j = choose|j: int| 0 <= j < l.pending@.len() && l.pending@[j] == x;
                        if j < l0.pending@.len() {
                            assert(l0.pending@[j] == x);
                        } else {
                            assert(batch@[j - l0.pending@.len()] == x);
                        }
                    };
                    assert forall|x: PeerId|
                        ids_contain(l0.pending@, x) implies ids_contain(l.pending@, x) by {
                        let j = choose|j: int| 0 <= j < l0.pending@.len() && l0.pending@[j] == x;
                        assert(l.pending@[j] == x);
                    };
                }
                self.lookup = Some(l);
            },
            None => {},
        }
        acts
    }

    /// Digest a discovery reply: every candidate is recorded in the routing
    /// table and merged into the lookup shortlist, and the next round of
    /// queries goes out.
    pub fn on_reply_frame(&mut self, from: PeerId, target: PeerId, found: Vec<PeerRecord>, now: u64)
        -> (acts: Vec<Action>)
        requires
            old(self).wf(),
        ensures
            final(self).wf(),
            final(self).peers@ == old(self).peers@,
            final(self).pubsub == old(self).pubsub,
            forall|x: PeerId| old(self).table.spec_has(x) ==> final(self).table.spec_has(x),
            forall|i: int|
                0 <= i < found@.len() && (#[trigger] found@[i]).addrs@.len() > 0 && found@[i].id
                    != old(self).id ==> final(self).table.spec_has(found@[i].id)
                    || final(self).table.buckets@[final(self).table.bucket_of(
                    found@[i].id,
                )]@.len() == K_FANOUT,
            old(self).lookup matches Some(l) ==> (l.target == target ==> (final(self).lookup
                matches Some(l2) && l2.target == l.target && ids_contain(l2.contacted@, from)
                && !ids_contain(l2.pending@, from) && (forall|i: int|
                0 <= i < found@.len() && (#[trigger] found@[i]).id != l.target ==> l2.absorbed(
                    found@[i],
                )) && (acts@.len() < ALPHA ==> forall|i: int|
                0 <= i < l2.shortlist@.len() ==> l2.queried((#[trigger] l2.shortlist@[i]).id)))),
            forall|k: int|
                0 <= k < acts@.len() ==> #[trigger] acts@[k] matches Action::Send {
                    to: _,
                    frame: Frame::Query { .. },
                },
    {
        let mut acts: Vec<Action> = Vec::new();
        let mut i: usize = 0;
        while i < found.len()
            invariant
                self.wf(),
                self.id == old(self).id,
                self.peers@ == old(self).peers@,
                self.pubsub == old(self).pubsub,
                self.dials@ == old(self).dials@,
                self.lookup == old(self).lookup,
                self.dial_timeout == old(self).dial_timeout,
                i <= found@.len(),
                forall|x: PeerId| old(self).table.spec_has(x) ==> self.table.spec_has(x),
                forall|j: int|
                    0 <= j < i && (#[trigger] found@[j]).addrs@.len() > 0 && found@[j].id != old(
                        self,
                    ).id ==> self.table.spec_has(found@[j].id)
                        || self.table.buckets@[self.table.bucket_of(found@[j].id)]@.len()
                        == K_FANOUT,
                forall|k: int|
                    0 <= k < acts@.len() ==> #[trigger] acts@[k] matches Action::Send {
                        to: _,
                        frame: Frame::Query { .. },
                    },
            decreases found@.len() - i,
        {
            if found[i].addrs.len() > 0 {
                let ghost pretab = self.table;
                let a = found[i].addrs[0].clone();
                let outcome = self.table.record_seen(found[i].id, a, now);
                match outcome {
                    crate::table::SeenOutcome::Full { oldest } => {
                        // Ping the bucket's oldest entry; if it never
                        // answers, the query timeout will evict it and make
                        // room for fresh candidates.
                        acts.push(Action::Send { to: oldest, frame: Frame::Query { target: oldest } });
                    },
                    _ => {},
                }
                proof {
                    assert forall|j: int|
                        0 <= j < i + 1 && (#[trigger] found@[j]).addrs@.len() > 0 && found@[j].id
                            != old(self).id implies self.table.spec_has(found@[j].id)
                        || self.table.buckets@[self.table.bucket_of(found@[j].id)]@.len()
                        == K_FANOUT by {
                        if j < i {
                            crate::peer::lemma_bucket_index_bound(
                                pretab.local.spec_distance(found@[j].id),
                            );
                            if !pretab.spec_has(found@[j].id) {
                                assert(pretab.buckets@[pretab.bucket_of(found@[j].id)]@.len()
                                    == K_FANOUT);
                                assert(self.table.buckets@[self.table.bucket_of(
                                    found@[j].id,
                                )]@.len() == K_FANOUT);
                            }
                        } else {
                            let cid = found@[i as int].id;
                            crate::peer::lemma_bucket_index_bound(
                                pretab.local.spec_distance(cid),
                            );
                            if pretab.spec_has(cid) {
                                assert(self.table.spec_has(cid));
                            } else if pretab.buckets@[pretab.bucket_of(cid)]@.len() < K_FANOUT {
                                assert(outcome == crate::table::SeenOutcome::Added);
                                assert(self.table.spec_has(cid));
                            } else {
                                assert(pretab.buckets@[pretab.bucket_of(cid)]@.len() == K_FANOUT);
                                assert(self.table.buckets@[self.table.bucket_of(cid)]@.len()
                                    == K_FANOUT);
                            }
                        }
                    };
                }
            }
            i = i + 1;
        }
        let lookup = self.lookup.take();
        match lookup {
            Some(mut l) => {
                if l.target.bits == target.bits {
                    l.on_response(from, found);
                    self.lookup = Some(l);
                    let mut more = self.drive_lookup();
                    proof {
                        match &self.lookup {
                            Some(l2) => {
                                if ids_contain(l2.pending@, from) {
                                    assert(ids_contain(l.pending@, from) || !l.queried(from));
                                }
                                assert(!ids_contain(l2.pending@, from));
                            },
                            None => {},
                        }
                    }
                    acts.append(&mut more);
                } else {
                    // A reply for a lookup that is no longer running.
                    self.lookup = Some(l);
                    let mut more = self.drive_lookup();
                    acts.append(&mut more);
                }
            },
            None => {},
        }
        acts
    }

    /// A session to `peer` is up: it leaves the dial list, joins the live
    /// sessions, is recorded in the routing table, and the active lookup,
    /// if any, learns of it and fans out.
    pub fn on_connected(&mut self, peer: PeerId, addr: String, now: u64) -> (acts: Vec<Action>)
        requires
            old(self).wf(),
        ensures
            final(self).wf(),
            peer != old(self).id ==> ids_contain(final(self).peers@, peer),
            forall|x: PeerId| ids_contain(old(self).peers@, x) ==> ids_contain(final(self).peers@, x),
            forall|x: PeerId| old(self).table.spec_has(x) ==> final(self).table.spec_has(x),
            forall|i: int| 0 <= i < final(self).dials@.len()
                ==> (#[trigger] final(self).dials@[i]).addr@ != addr@,
            peer != old(self).id && (old(self).table.spec_has(peer)
                || old(self).table.buckets@[old(self).table.bucket_of(peer)]@.len() < K_FANOUT)
                ==> final(self).table.spec_has(peer) && final(self).table.spec_record(
                peer,
            ).last_seen == now,
            peer != old(self).id && !old(self).table.spec_has(peer)
                && old(self).table.buckets@[old(self).table.bucket_of(peer)]@.len() == K_FANOUT
                ==> queries_peer(acts@, old(self).table.buckets@[old(self).table.bucket_of(
                peer,
            )]@[0].id),
            old(self).lookup matches Some(l) ==> (peer != old(self).id && peer != l.target
                && l.shortlist@.len() < K_FANOUT ==> (final(self).lookup matches Some(l2)
                && seq_has_id(l2.shortlist@, peer))),
            old(self).lookup matches Some(l) ==> (peer != old(self).id && acts@.len() < ALPHA
                ==> (final(self).lookup matches Some(l2) && forall|i: int|
                0 <= i < l2.shortlist@.len() ==> l2.queried((#[trigger] l2.shortlist@[i]).id))),
    {
        self.remove_dial(&addr);
        if peer.bits != self.id.bits {
            let known = crate::lookup::find_in(&self.peers, peer);
            if !known {
                let ghost pb = self.peers@;
                self.peers.push(peer);
                proof {
                    assert(self.peers@[self.peers@.len() - 1] == peer);
                    assert forall|x: PeerId|
                        ids_contain(pb, x) implies ids_contain(self.peers@, x) by {
                        let k = choose|k: int| 0 <= k < pb.len() && pb[k] == x;
                        assert(self.peers@[k] == x);
                    };
                    assert forall|a: int, b: int|
                        0 <= a < b < self.peers@.len() implies self.peers@[a] != self.peers@[b] by {
                        if b == self.peers@.len() - 1 {
                            assert(pb.contains(pb[a]));
                        }
                    };
                }
            } else {
                proof {
                    assert(ids_contain(self.peers@, peer));
                }
            }
            let outcome = self.table.record_seen(peer, addr, now);
            let lookup = self.lookup.take();
            match lookup {
                Some(mut l) => {
                    let addrs: Vec<String> = Vec::new();
                    l.insert_candidate(PeerRecord { id: peer, addrs, last_seen: now });
                    self.lookup = Some(l);
                },
                None => {},
            }
            let mut acts: Vec<Action> = Vec::new();
            match outcome {
                crate::table::SeenOutcome::Full { oldest } => {
                    // Ping the bucket's oldest entry; if it never answers,
                    // the query timeout evicts it and makes room.
                    acts.push(Action::Send { to: oldest, frame: Frame::Query { target: oldest } });
                    proof {
                        assert(acts@[0] matches Action::Send {
                            to,
                            frame: Frame::Query { .. },
                        } && to == oldest);
                        assert(queries_peer(acts@, oldest));
                    }
                },
                _ => {},
            }
            let ghost ping = acts@;
            let mut more = self.drive_lookup();
            acts.append(&mut more);
            proof {
                assert forall|p: PeerId| queries_peer(ping, p) implies queries_peer(acts@, p) by {
                    let k = choose|k: int|
                        #![trigger ping[k]]
                        0 <= k < ping.len() && (ping[k] matches Action::Send {
                            to,
                            frame: Frame::Query { .. },
                        } && to == p);
                    assert(acts@[k] == ping[k]);
                };
            }
            acts
        } else {
            Vec::new()
        }
    }

    fn remove_dial(&mut self, addr: &String)
        requires
            old(self).wf(),
        ensures
            final(self).wf(),
            final(self).id == old(self).id,
            final(self).table == old(self).table,
            final(self).pubsub == old(self).pubsub,
            final(self).peers@ == old(self).peers@,
            final(self).lookup == old(self).lookup,
            final(self).dial_timeout == old(self).dial_timeout,
            forall|i: int|
                0 <= i < final(self).dials@.len() ==> addr_was_dialed(
                    old(self).dials@,
                    (#[trigger] final(self).dials@[i]).addr@,
                ),
            forall|i: int| 0 <= i < final(self).dials@.len()
                ==> (#[trigger] final(self).dials@[i]).addr@ != addr@,
    {
        let ghost o = self.dials@;
        let mut kept: Vec<DialAttempt> = Vec::new();
        let mut i: usize = 0;
        while i < self.dials.len()
            invariant
                i <= self.dials@.len(),
                self.dials@ == o,
                forall|k: int|
                    0 <= k < kept@.len() ==> addr_was_dialed(o, (#[trigger] kept@[k]).addr@)
                        && (#[trigger] kept@[k]).addr@ != addr@,
            decreases self.dials@.len() - i,
        {
            if !(self.dials[i].addr == *addr) {
                let d = DialAttempt {
                    addr: self.dials[i].addr.clone(),
                    started: self.dials[i].started,
                };
                kept.push(d);
                proof {
                    assert(kept@[kept@.len() - 1].addr@ == o[i as int].addr@);
                    assert(addr_was_dialed(o, kept@[kept@.len() - 1].addr@));
                }
            }
            i = i + 1;
        }
        self.dials = kept;
    }

    /// A dial gave up: the address goes back to idle (no longer dialing)
    /// and may be retried later; nothing else changes.
    pub fn on_dial_failed(&mut self, addr: &String, now: u64) -> (acts: Vec<Action>)
        requires
            old(self).wf(),
        ensures
            final(self).wf(),
            final(self).peers@ == old(self).peers@,
            final(self).table == old(self).table,
            final(self).pubsub == old(self).pubsub,
            forall|i: int| 0 <= i < final(self).dials@.len()
                ==> (#[trigger] final(self).dials@[i]).addr@ != addr@,
    {
        self.remove_dial(addr);
        Vec::new()
    }

    /// A session ended: the peer leaves the live set; its routing-table
    /// record stays (it may come back). A query in flight to it fails over.
    pub fn on_closed(&mut self, peer: PeerId, now: u64) -> (acts: Vec<Action>)
        requires
            old(self).wf(),
        ensures
            final(self).wf(),
            !ids_contain(final(self).peers@, peer),
            final(self).table == old(self).table,
            final(self).pubsub == old(self).pubsub,
    {
        let ghost o = self.peers@;
        let found = crate::lookup::find_index(&self.peers, peer);
        match found {
            Some(i) => {
                self.peers.remove(i);
                proof {
                    let s = self.peers@;
                    assert(forall|j: int| 0 <= j < i ==> s[j] == o[j]);
                    assert(forall|j: int| i <= j < s.len() ==> s[j] == o[j + 1]);
                    assert forall|j: int| 0 <= j < s.len() implies s[j] != peer by {
                        if j >= i {
                            assert(s[j] == o[j + 1]);
                        }
                    };
                }
            },
            None => {},
        }
        let lookup = self.lookup.take();
        match lookup {
            Some(mut l) => {
                let pending = crate::lookup::find_in(&l.pending, peer);
                if pending {
                    l.on_failure(peer);
                }
                self.lookup = Some(l);
            },
            None => {},
        }
        Vec::new()
    }

    /// A queried peer never answered: it is marked unreachable — dropped
    /// from the routing table and from the lookup shortlist — and the
    /// lookup proceeds with its remaining candidates.
    pub fn on_query_timeout(&mut self, peer: PeerId, now: u64) -> (acts: Vec<Action>)
        requires
            old(self).wf(),
        ensures
            final(self).wf(),
            final(self).peers@ == old(self).peers@,
            !final(self).table.spec_has(peer),
            forall|x: PeerId|
                final(self).table.spec_has(x) <==> (old(self).table.spec_has(x) && x != peer),
            old(self).lookup matches Some(l) ==> (final(self).lookup matches Some(l2) && l2.target
                == l.target && ids_contain(l2.contacted@, peer) && !ids_contain(l2.pending@, peer)
                && !seq_has_id(l2.shortlist@, peer) && (acts@.len() < ALPHA ==> forall|i: int|
                0 <= i < l2.shortlist@.len() ==> l2.queried((#[trigger] l2.shortlist@[i]).id))),
    {
        self.table.remove(peer);
        let lookup = self.lookup.take();
        match lookup {
            Some(mut l) => {
                l.on_failure(peer);
                self.lookup = Some(l);
                let acts = self.drive_lookup();
                proof {
                    match &self.lookup {
                        Some(l2) => {
                            if ids_contain(l2.pending@, peer) {
                                assert(ids_contain(l.pending@, peer) || !l.queried(peer));
                            }
                            assert(!ids_contain(l2.pending@, peer));
                        },
                        None => {},
                    }
                }
                acts
            },
            None => {
                self.drive_lookup()
            },
        }
    }

    /// Timer tick: every dial that has been in flight for the configured
    /// timeout or longer is abandoned — its address goes back to idle —
    /// message ids past their retention window are forgotten, and other
    /// work keeps flowing.
    pub fn on_tick(&mut self, now: u64) -> (acts: Vec<Action>)
        requires
            old(self).wf(),
        ensures
            final(self).wf(),
            final(self).peers@ == old(self).peers@,
            final(self).table == old(self).table,
            final(self).pubsub.subs@ == old(self).pubsub.subs@,
            final(self).pubsub.next_seq == old(self).pubsub.next_seq,
            final(self).pubsub.dedup.entries@ == crate::dedup::fresh_entries(
                old(self).pubsub.dedup.entries@,
                now,
                old(self).dedup_ttl,
            ),
            forall|i: int|
                0 <= i < final(self).dials@.len() ==> (#[trigger] final(self).dials@[i]).started
                    + old(self).dial_timeout > now,
            forall|i: int|
                0 <= i < final(self).dials@.len() ==> addr_was_dialed(
                    old(self).dials@,
                    (#[trigger] final(self).dials@[i]).addr@,
                ),
    {
        let ghost o = self.dials@;
        let mut kept: Vec<DialAttempt> = Vec::new();
        let mut i: usize = 0;
        while i < self.dials.len()
            invariant
                i <= self.dials@.len(),
                self.dials@ == o,
                forall|k: int|
                    0 <= k < kept@.len() ==> addr_was_dialed(o, (#[trigger] kept@[k]).addr@)
                        && (#[trigger] kept@[k]).started + self.dial_timeout > now,
            decreases self.dials@.len() - i,
        {
            if (self.dials[i].started as u128) + (self.dial_timeout as u128) > (now as u128) {
                let d = DialAttempt {
                    addr: self.dials[i].addr.clone(),
                    started: self.dials[i].started,
                };
                kept.push(d);
                proof {
                    assert(kept@[kept@.len() - 1].addr@ == o[i as int].addr@);
                    assert(addr_was_dialed(o, kept@[kept@.len() - 1].addr@));
                }
            }
            i = i + 1;
        }
        self.dials = kept;
        self.pubsub.dedup.prune_expired(now, self.dedup_ttl);
        Vec::new()
    }

    /// Seed the routing table with the bootstrap contacts, dial them all,
    /// and start the self-lookup that fills the table with real neighbors.
    pub fn bootstrap(&mut self, seeds: Vec<(PeerId, String)>, now: u64) -> (acts: Vec<Action>)
        requires
            old(self).wf(),
        ensures
            final(self).wf(),
            final(self).lookup matches Some(l) && l.target == old(self).id && l.shortlist@.len()
                == (if K_FANOUT <= final(self).table.models().len() {
                K_FANOUT as int
            } else {
                final(self).table.models().len() as int
            }),
            forall|x: PeerId| old(self).table.spec_has(x) ==> final(self).table.spec_has(x),
            forall|j: int|
                0 <= j < seeds@.len() && (#[trigger] seeds@[j]).0 != old(self).id
                    ==> final(self).table.spec_has(seeds@[j].0)
                    || final(self).table.buckets@[final(self).table.bucket_of(
                    seeds@[j].0,
                )]@.len() == K_FANOUT,
            forall|j: int|
                0 <= j < seeds@.len() ==> dials_address(acts@, (#[trigger] seeds@[j]).1@),
    {
        let mut acts: Vec<Action> = Vec::new();
        let mut i: usize = 0;
        while i < seeds.len()
            invariant
                self.wf(),
                self.id == old(self).id,
                self.pubsub == old(self).pubsub,
                self.peers@ == old(self).peers@,
                self.lookup == old(self).lookup,
                self.dial_timeout == old(self).dial_timeout,
                forall|x: PeerId| old(self).table.spec_has(x) ==> self.table.spec_has(x),
                forall|j: int|
                    0 <= j < i && (#[trigger] seeds@[j]).0 != old(self).id ==> self.table.spec_has(
                        seeds@[j].0,
                    ) || self.table.buckets@[self.table.bucket_of(seeds@[j].0)]@.len() == K_FANOUT,
                forall|j: int|
                    0 <= j < i ==> dials_address(acts@, (#[trigger] seeds@[j]).1@),
            decreases seeds@.len() - i,
        {
            let (peer, addr) = (seeds[i].0, seeds[i].1.clone());
            let ghost pretab = self.table;
            let outcome = self.table.record_seen(peer, addr.clone(), now);
            proof {
                assert forall|j: int|
                    0 <= j < i + 1 && (#[trigger] seeds@[j]).0 != old(self).id
                        implies self.table.spec_has(seeds@[j].0)
                    || self.table.buckets@[self.table.bucket_of(seeds@[j].0)]@.len()
                    == K_FANOUT by {
                    crate::peer::lemma_bucket_index_bound(
                        pretab.local.spec_distance(seeds@[j].0),
                    );
                    if j < i {
                        if !pretab.spec_has(seeds@[j].0) {
                            assert(pretab.buckets@[pretab.bucket_of(seeds@[j].0)]@.len()
                                == K_FANOUT);
                            assert(self.table.buckets@[self.table.bucket_of(
                                seeds@[j].0,
                            )]@.len() == K_FANOUT);
                        }
                    } else {
                        if pretab.spec_has(seeds@[j].0) {
                            assert(self.table.spec_has(seeds@[j].0));
                        } else if pretab.buckets@[pretab.bucket_of(seeds@[j].0)]@.len()
                            < K_FANOUT {
                            assert(outcome == crate::table::SeenOutcome::Added);
                        } else {
                            assert(self.table.buckets@[self.table.bucket_of(
                                seeds@[j].0,
                            )]@.len() == K_FANOUT);
                        }
                    }
                };
            }
            self.dials.push(DialAttempt { addr: addr.clone(), started: now });
            let ghost ab = acts@;
            acts.push(Action::Dial { addr });
            proof {
                assert(acts@[acts@.len() - 1] matches Action::Dial { addr: a } && a@
                    == seeds@[i as int].1@);
                assert(dials_address(acts@, seeds@[i as int].1@));
                assert forall|j: int|
                    0 <= j < i implies dials_address(acts@, (#[trigger] seeds@[j]).1@) by {
                    let k = choose|k: int|
                        #![trigger ab[k]]
                        0 <= k < ab.len() && (ab[k] matches Action::Dial { addr: a } && a@
                            == seeds@[j].1@);
                    assert(acts@[k] == ab[k]);
                };
            }
            i = i + 1;
        }
        let ghost pre_acts = acts@;
        let own = self.id;
        let mut more = self.start_lookup(own);
        acts.append(&mut more);
        proof {
            assert forall|j: int|
                0 <= j < seeds@.len() implies dials_address(acts@, (#[trigger] seeds@[j]).1@) by {
                let k = choose|k: int|
                    #![trigger pre_acts[k]]
                    0 <= k < pre_acts.len() && (pre_acts[k] matches Action::Dial { addr: a } && a@
                        == seeds@[j].1@);
                assert(acts@[k] == pre_acts[k]);
            };
        }
        acts
    }

    /// Start a lookup: the shortlist is seeded with the table's closest
    /// known records to the target — as many as it has, up to the fanout,
    /// closest first and complete — and the first round of queries goes out.
    pub fn start_lookup(&mut self, target: PeerId) -> (acts: Vec<Action>)
        requires
            old(self).wf(),
        ensures
            final(self).wf(),
            final(self).table == old(self).table,
            final(self).pubsub == old(self).pubsub,
            final(self).peers@ == old(self).peers@,
            final(self).dials@ == old(self).dials@,
            final(self).lookup matches Some(l) && l.target == target && l.contacted@.len() == 0
                && l.shortlist@.len() == (if K_FANOUT <= old(self).table.models().len() {
                K_FANOUT as int
            } else {
                old(self).table.models().len() as int
            }) && (forall|i: int|
                0 <= i < l.shortlist@.len() ==> old(self).table.models().contains(
                    (#[trigger] l.shortlist@[i])@,
                )) && (forall|m: RecordModel, i: int|
                #![trigger old(self).table.models().contains(m), l.shortlist@[i]]
                old(self).table.models().contains(m) && !models_of(l.shortlist@).contains(m) && 0
                    <= i < l.shortlist@.len() ==> target.spec_distance(l.shortlist@[i].id)
                    <= target.spec_distance(m.id)) && (acts@.len() < ALPHA ==> forall|i: int|
                0 <= i < l.shortlist@.len() ==> l.queried((#[trigger] l.shortlist@[i]).id)),
            forall|k: int|
                0 <= k < acts@.len() ==> #[trigger] acts@[k] matches Action::Send {
                    to: _,
                    frame: Frame::Query { .. },
                },
    {
        let found = self.table.closest(target, K_FANOUT);
        let mut l = LookupState::new(target);
        l.shortlist = found;
        self.lookup = Some(l);
        self.drive_lookup()
    }

    /// The answer of a finished lookup: its shortlist, closest first; `None`
    /// while the lookup still has queries to make or in flight.
    pub fn lookup_result(&self) -> (r: Option<Vec<PeerRecord>>)
        requires
            self.wf(),
        ensures
            match r {
                Some(v) => self.lookup matches Some(l) && l.spec_finished() && v@.len()
                    == l.shortlist@.len() && forall|i: int|
                    0 <= i < v@.len() ==> v@[i]@ == l.shortlist@[i]@,
                None => self.lookup is None || (self.lookup matches Some(l)
                    && !l.spec_finished()),
            },
    {
        match &self.lookup {
            Some(l) => {
                if l.finished() {
                    let mut v: Vec<PeerRecord> = Vec::new();
                    let mut i: usize = 0;
                    while i < l.shortlist.len()
                        invariant
                            i <= l.shortlist@.len(),
                            v@.len() == i,
                            forall|j: int| 0 <= j < i ==> v@[j]@ == l.shortlist@[j]@,
                        decreases l.shortlist@.len() - i,
                    {
                        v.push(l.shortlist[i].duplicate());
                        i = i + 1;
                    }
                    Some(v)
                } else {
                    None
                }
            },
            None => None,
        }
    }

    /// Route one event to its handler. The single dispatch point: each
    /// event is handled completely before the next is taken, with the
    /// handler's key guarantees carried per event kind.
    pub fn handle_event(&mut self, ev: Event) -> (acts: Vec<Action>)
        requires
            old(self).wf(),
        ensures
            final(self).wf(),
            ev matches Event::Connected { peer, addr, now } ==> ((peer != old(self).id
                ==> ids_contain(final(self).peers@, peer)) && (peer != old(self).id && (old(
                self,
            ).table.spec_has(peer) || old(self).table.buckets@[old(self).table.bucket_of(
                peer,
            )]@.len() < K_FANOUT) ==> final(self).table.spec_has(peer)) && (forall|i: int|
                0 <= i < final(self).dials@.len() ==> (#[trigger] final(self).dials@[i]).addr@
                    != addr@)),
            ev matches Event::DialFailed { addr, now } ==> (final(self).table == old(self).table
                && final(self).pubsub == old(self).pubsub && final(self).peers@ == old(
                self,
            ).peers@ && (forall|i: int|
                0 <= i < final(self).dials@.len() ==> (#[trigger] final(self).dials@[i]).addr@
                    != addr@)),
            ev matches Event::Closed { peer, now } ==> (!ids_contain(final(self).peers@, peer)
                && final(self).table == old(self).table && final(self).pubsub == old(self).pubsub),
            ev matches Event::QueryTimeout { peer, now } ==> (forall|x: PeerId|
                final(self).table.spec_has(x) <==> (old(self).table.spec_has(x) && x != peer)),
            ev matches Event::Inbound { from, frame: Frame::Query { target }, now } ==> (acts@.len()
                == 1 && final(self).pubsub == old(self).pubsub && (acts@[0] matches Action::Send {
                to,
                frame: Frame::Reply { .. },
            } && to == from)),
            ev matches Event::Inbound { from, frame: Frame::Publish { env }, now } ==> ((old(
                self,
            ).pubsub.dedup.spec_has(env.id) ==> acts@.len() == 0 && final(self).pubsub == old(
                self,
            ).pubsub) && ((exists|k: int|
                0 <= k < acts@.len() && is_delivery_of(#[trigger] acts@[k], env@)) <==> old(
                self,
            ).pubsub.delivers(env))),
            ev matches Event::Inbound { from, frame: Frame::Reply { target, found }, now }
                ==> (forall|i: int|
                0 <= i < found@.len() && (#[trigger] found@[i]).addrs@.len() > 0 && found@[i].id
                    != old(self).id ==> final(self).table.spec_has(found@[i].id)
                    || final(self).table.buckets@[final(self).table.bucket_of(
                    found@[i].id,
                )]@.len() == K_FANOUT),
            ev matches Event::Tick { now } ==> ((forall|i: int|
                0 <= i < final(self).dials@.len() ==> (#[trigger] final(self).dials@[i]).started
                    + old(self).dial_timeout > now) && final(self).pubsub.dedup.entries@
                == crate::dedup::fresh_entries(
                old(self).pubsub.dedup.entries@,
                now,
                old(self).dedup_ttl,
            )),
    {
        match ev {
            Event::Connected { peer, addr, now } => self.on_connected(peer, addr, now),
            Event::DialFailed { addr, now } => self.on_dial_failed(&addr, now),
            Event::Closed { peer, now } => self.on_closed(peer, now),
            Event::QueryTimeout { peer, now } => self.on_query_timeout(peer, now),
            Event::Inbound { from, frame, now } => match frame {
                Frame::Query { target } => self.on_query_frame(from, target),
                Frame::Reply { target, found } => self.on_reply_frame(from, target, found, now),
                Frame::Publish { env } => self.on_publish_frame(from, env, now),
            },
            Event::Tick { now } => self.on_tick(now),
        }
    }
}

/// Build one `Publish` send per recipient, all carrying the same envelope.
fn make_publish_actions(env: &MessageEnvelope, targets: &Vec<PeerId>) -> (acts: Vec<Action>)
    ensures
        acts@.len() == targets@.len(),
        forall|k: int|
            0 <= k < acts@.len() ==> is_publish_to(#[trigger] acts@[k], targets@[k], env@),
        forall|k: int|
            0 <= k < acts@.len() ==> !is_delivery_of(#[trigger] acts@[k], env@),
{
    let mut acts: Vec<Action> = Vec::new();
    let mut i: usize = 0;
    while i < targets.len()
        invariant
            i <= targets@.len(),
            acts@.len() == i,
            forall|k: int|
                0 <= k < acts@.len() ==> is_publish_to(#[trigger] acts@[k], targets@[k], env@)
                    && !is_delivery_of(acts@[k], env@),
        decreases targets@.len() - i,
    {
        acts.push(Action::Send { to: targets[i], frame: Frame::Publish { env: env.duplicate() } });
        i = i + 1;
    }
    acts
}

} // verus!
