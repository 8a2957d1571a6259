//! Topic-based publish/subscribe by flooding, with duplicate suppression.
//!
//! Every envelope is forwarded to every connected session except the one it
//! arrived from; the dedup cache decides forward-versus-drop first, so a
//! flood can never amplify forever and the application sees each cached id
//! at most once.

use vstd::prelude::*;
use crate::peer::PeerId;
use crate::dedup::DedupCache;
use crate::envelope::MessageEnvelope;
use crate::envelope::spec_message_id;
use crate::envelope::compute_message_id;

verus! {

/// Dissemination engine state: local topic interest, the dedup cache, and
/// the sequence counter that makes published ids fresh.
pub struct Pubsub {
    pub subs: Vec<String>,
    pub dedup: DedupCache,
    pub next_seq: u64,
}

impl Pubsub {
    /// Structural invariant: a healthy dedup cache, no topic listed twice.
    pub open spec fn wf(self) -> bool {
        &&& self.dedup.wf()
        &&& forall|i: int, j: int|
            0 <= i < j < self.subs@.len() ==> self.subs@[i]@ != self.subs@[j]@
    }

    /// Whether the local node is interested in the topic.
    pub open spec fn is_subscribed(self, t: Seq<char>) -> bool {
        exists|i: int| 0 <= i < self.subs@.len() && self.subs@[i]@ == t
    }

    /// Whether handing this envelope to `on_inbound` would surface it to
    /// the application: it must be unseen and locally subscribed.
    pub open spec fn delivers(self, env: MessageEnvelope) -> bool {
        !self.dedup.spec_has(env.id) && self.is_subscribed(env.topic@)
    }

    pub fn new(dedup_cap: usize) -> (r: Pubsub)
        requires
            dedup_cap >= 1,
        ensures
            r.wf(),
            r.next_seq == 0,
            forall|t: Seq<char>| !r.is_subscribed(t),
            forall|x: u64| !r.dedup.spec_has(x),
            r.dedup.cap == dedup_cap,
    {
        Pubsub { subs: Vec::new(), dedup: DedupCache::new(dedup_cap), next_seq: 0 }
    }

    fn find_topic(&self, topic: &String) -> (r: Option<usize>)
        ensures
            match r {
                Some(i) => i < self.subs@.len() && self.subs@[i as int]@ == topic@,
                None => !self.is_subscribed(topic@),
            },
    {
        let mut i: usize = 0;
        while i < self.subs.len()
            invariant
                i <= self.subs@.len(),
                forall|j: int| 0 <= j < i ==> self.subs@[j]@ != topic@,
            decreases self.subs@.len() - i,
        {
            if self.subs[i] == *topic {
                return Some(i);
            }
            i = i + 1;
        }
        None
    }

    /// Record local interest in a topic.
    pub fn subscribe(&mut self, topic: String)
        requires
            old(self).wf(),
        ensures
            final(self).wf(),
            forall|t: Seq<char>|
                final(self).is_subscribed(t) <==> old(self).is_subscribed(t) || t == topic@,
            final(self).dedup == old(self).dedup,
            final(self).next_seq == old(self).next_seq,
    {
        let found = self.find_topic(&topic);
        match found {
            Some(_) => {
                proof {
                    assert forall|t: Seq<char>|
                        self.is_subscribed(t) <==> old(self).is_subscribed(t) || t == topic@ by {
                    };
                }
            },
            None => {
                let ghost o = self.subs@;
                self.subs.push(topic);
                proof {
                    assert forall|t: Seq<char>|
                        old(self).is_subscribed(t) || t == topic@ implies self.is_subscribed(
                        t,
                    ) by {
                        if t == topic@ {
                            assert(self.subs@[o.len() as int]@ == t);
                        } else {
                            let j = choose|j: int| 0 <= j < o.len() && o[j]@ == t;
                            assert(self.subs@[j]@ == t);
                        }
                    };
                    assert forall|t: Seq<char>|
                        self.is_subscribed(t) implies old(self).is_subscribed(t) || t
                        == topic@ by {
                        let j = choose|j: int| 0 <= j < self.subs@.len() && self.subs@[j]@ == t;
                        if j < o.len() {
                            assert(o[j]@ == t);
                        }
                    };
                }
            },
        }
    }

    /// Drop local interest in a topic.
    pub fn unsubscribe(&mut self, topic: &String)
        requires
            old(self).wf(),
        ensures
            final(self).wf(),
            forall|t: Seq<char>|
                final(self).is_subscribed(t) <==> old(self).is_subscribed(t) && t != topic@,
            final(self).dedup == old(self).dedup,
            final(self).next_seq == old(self).next_seq,
    {
        let found = self.find_topic(topic);
        match found {
            Some(i) => {
                let ghost o = self.subs@;
                self.subs.remove(i);
                proof {
                    assert(forall|j: int| 0 <= j < i ==> self.subs@[j] == o[j]);
                    assert(forall|j: int|
                        i <= j < self.subs@.len() ==> self.subs@[j] == o[j + 1]);
                    assert forall|t: Seq<char>|
                        self.is_subscribed(t) implies old(self).is_subscribed(t) && t
                        != topic@ by {
                        let j = choose|j: int| 0 <= j < self.subs@.len() && self.subs@[j]@ == t;
                        if j < i {
                            assert(o[j]@ == t);
                        } else {
                            assert(o[j + 1]@ == t);
                        }
                    };
                    assert forall|t: Seq<char>|
                        old(self).is_subscribed(t) && t != topic@ implies self.is_subscribed(
                        t,
                    ) by {
                        let j = choose|j: int| 0 <= j < o.len() && o[j]@ == t;
                        if j < i {
                            assert(self.subs@[j]@ == t);
                        } else {
                            assert(self.subs@[j - 1]@ == t);
                        }
                    };
                }
            },
            None => {
                proof {
                    assert forall|t: Seq<char>|
                        self.is_subscribed(t) <==> old(self).is_subscribed(t) && t != topic@ by {
                    };
                }
            },
        }
    }

    /// Build an envelope with a fresh sequence-derived id, remember the id,
    /// and hand the envelope back for flooding to every connected session.
    pub fn publish(&mut self, origin: PeerId, topic: String, payload: Vec<u8>, now: u64) -> (env:
        MessageEnvelope)
        requires
            old(self).wf(),
        ensures
            final(self).wf(),
            env.origin == origin,
            env.seq == old(self).next_seq,
            env.topic@ == topic@,
            env.payload@ == payload@,
            env.id == spec_message_id(origin, old(self).next_seq, payload@),
            final(self).dedup.spec_has(env.id),
            final(self).subs@ == old(self).subs@,
            final(self).next_seq == if old(self).next_seq == u64::MAX {
                0
            } else {
                old(self).next_seq + 1
            },
    {
        let id = compute_message_id(origin, self.next_seq, &payload);
        let seq = self.next_seq;
        self.next_seq = if self.next_seq == u64::MAX {
            0
        } else {
            self.next_seq + 1
        };
        self.dedup.insert(id, now);
        MessageEnvelope { id, origin, seq, topic, payload }
    }

    /// Decide what an inbound envelope means: `(fresh, deliver)`.
    ///
    /// A duplicate (`!fresh`) changes nothing and must be dropped silently;
    /// a fresh envelope is remembered at once, delivered to the application
    /// exactly when the local node subscribes to its topic, and relayed to
    /// every session but the source whatever the local interest.
    pub fn on_inbound(&mut self, env: &MessageEnvelope, now: u64) -> (r: (bool, bool))
        requires
            old(self).wf(),
        ensures
            final(self).wf(),
            r.0 == !old(self).dedup.spec_has(env.id),
            r.1 == old(self).delivers(*env),
            !r.0 ==> *final(self) == *old(self),
            r.0 ==> final(self).dedup.spec_has(env.id),
            final(self).subs@ == old(self).subs@,
            final(self).next_seq == old(self).next_seq,
            forall|x: u64|
                old(self).dedup.spec_has(x) && !final(self).dedup.spec_has(x) ==> old(
                    self,
                ).dedup.entries@.len() == old(self).dedup.cap && x == old(
                    self,
                ).dedup.entries@[0].id,
    {
        if self.dedup.has(env.id) {
            return (false, false);
        }
        let deliver = match self.find_topic(&env.topic) {
            Some(_) => true,
            None => false,
        };
        self.dedup.insert(env.id, now);
        (true, deliver)
    }
}

/// Duplicate suppression is deliver-at-most-once: while an envelope's id is
/// in the dedup cache — as it is right after the envelope was published or
/// first delivered — `on_inbound` will not surface it to the application
/// again, whichever session replays it.
pub proof fn lemma_duplicate_suppressed(s: Pubsub, env: MessageEnvelope)
    requires
        s.dedup.spec_has(env.id),
    ensures
        !s.delivers(env),
{
}

} // verus!
