//! State of one iterative lookup: converge on the peers closest to a
//! target by querying, in rounds, the closest not-yet-queried peers known.
//!
//! The shortlist is kept sorted by XOR distance to the target and capped at
//! `K_FANOUT`; contacted and in-flight peers are tracked so no peer is
//! queried twice. A peer that fails is dropped from the shortlist and the
//! lookup proceeds with the rest.

use vstd::prelude::*;
use crate::peer::PeerId;
use crate::peer::PeerRecord;
use crate::peer::seq_has_id;
use crate::peer::find_id;
use crate::K_FANOUT;

verus! {

pub struct LookupState {
    pub target: PeerId,
    pub contacted: Vec<PeerId>,
    pub pending: Vec<PeerId>,
    pub shortlist: Vec<PeerRecord>,
}

/// Whether a plain id list holds the id.
pub open spec fn ids_contain(s: Seq<PeerId>, id: PeerId) -> bool {
    s.contains(id)
}

/// Whether `a` keeps its place ahead of candidate `rec`: strictly closer to
/// the target, or as close and at least as recently seen.
fn ranks_before(a: &PeerRecord, rec: &PeerRecord, target: PeerId) -> (r: bool)
    ensures
        r == (target.spec_distance(a.id) < target.spec_distance(rec.id) || (target.spec_distance(
            a.id,
        ) == target.spec_distance(rec.id) && a.last_seen >= rec.last_seen)),
{
    let da = target.distance(a.id);
    let dr = target.distance(rec.id);
    da < dr || (da == dr && a.last_seen >= rec.last_seen)
}

/// Position of an id in a plain id list.
pub fn find_index(s: &Vec<PeerId>, id: PeerId) -> (r: Option<usize>)
    ensures
        match r {
            Some(i) => i < s@.len() && s@[i as int] == id,
            None => !ids_contain(s@, id),
        },
{
    let mut i: usize = 0;
    while i < s.len()
        invariant
            i <= s@.len(),
            forall|j: int| 0 <= j < i ==> s@[j] != id,
        decreases s@.len() - i,
    {
        if s[i].bits == id.bits {
            return Some(i);
        }
        i = i + 1;
    }
    None
}

/// Runtime membership test on a plain id list.
pub fn find_in(s: &Vec<PeerId>, id: PeerId) -> (r: bool)
    ensures
        r == ids_contain(s@, id),
{
    let found = find_index(s, id);
    match found {
        Some(i) => {
            proof {
                assert(s@[i as int] == id);
            }
            true
        },
        None => false,
    }
}

/// A round that could issue no query, with nothing in flight, has
/// converged: every shortlist peer was already contacted, so the shortlist
/// is the lookup's answer. With `absorb` capping the shortlist and
/// `next_batch` never re-querying a peer, this is why a lookup ends.
pub proof fn lemma_no_new_queries_means_finished(l: LookupState)
    requires
        l.wf(),
        l.pending@.len() == 0,
        forall|i: int| 0 <= i < l.shortlist@.len() ==> l.queried((#[trigger] l.shortlist@[i]).id),
    ensures
        l.spec_finished(),
{
}

impl LookupState {
    /// Structural invariant: shortlist sorted by distance to the target and
    /// capped, no identity twice in it, no identity twice in flight.
    pub open spec fn wf(self) -> bool {
        &&& self.shortlist@.len() <= K_FANOUT
        &&& forall|i: int, j: int|
            0 <= i < j < self.shortlist@.len() ==> self.target.spec_distance(
                self.shortlist@[i].id,
            ) <= self.target.spec_distance(self.shortlist@[j].id)
        &&& forall|i: int, j: int|
            0 <= i < j < self.shortlist@.len() ==> self.shortlist@[i].id != self.shortlist@[j].id
        &&& forall|i: int, j: int|
            0 <= i < j < self.pending@.len() ==> self.pending@[i] != self.pending@[j]
    }

    /// The shortlist has taken account of this candidate: it holds the
    /// candidate's identity, or it is full and every entry is at least as
    /// close to the target.
    pub open spec fn absorbed(self, c: PeerRecord) -> bool {
        ||| seq_has_id(self.shortlist@, c.id)
        ||| (self.shortlist@.len() == K_FANOUT && forall|j: int|
            0 <= j < self.shortlist@.len() ==> self.target.spec_distance(
                (#[trigger] self.shortlist@[j]).id,
            ) <= self.target.spec_distance(c.id))
    }

    /// Whether the peer was already queried or has a query in flight.
    pub open spec fn queried(self, id: PeerId) -> bool {
        ids_contain(self.contacted@, id) || ids_contain(self.pending@, id)
    }

    /// The lookup can make no further progress: nothing in flight and every
    /// shortlist entry already queried.
    pub open spec fn spec_finished(self) -> bool {
        self.pending@.len() == 0 && forall|i: int|
            0 <= i < self.shortlist@.len() ==> ids_contain(
                self.contacted@,
                #[trigger] self.shortlist@[i].id,
            )
    }

    /// The failure condition surfaced to the caller: every known candidate
    /// failed and nothing is in flight, so no closest set can be reported.
    pub open spec fn spec_exhausted(self) -> bool {
        self.pending@.len() == 0 && self.shortlist@.len() == 0
    }

    pub fn new(target: PeerId) -> (r: LookupState)
        ensures
            r.wf(),
            r.target == target,
            r.contacted@.len() == 0,
            r.pending@.len() == 0,
            r.shortlist@.len() == 0,
    {
        LookupState {
            target,
            contacted: Vec::new(),
            pending: Vec::new(),
            shortlist: Vec::new(),
        }
    }

    /// Merge one candidate into the shortlist: ignored if already known,
    /// inserted at its distance rank otherwise, evicting the farthest entry
    /// when the shortlist is already full.
    pub fn insert_candidate(&mut self, rec: PeerRecord)
        requires
            old(self).wf(),
        ensures
            final(self).wf(),
            final(self).target == old(self).target,
            final(self).contacted@ == old(self).contacted@,
            final(self).pending@ == old(self).pending@,
            forall|x: PeerId|
                seq_has_id(final(self).shortlist@, x) ==> seq_has_id(old(self).shortlist@, x) || x
                    == rec.id,
            rec.id == old(self).target ==> final(self).shortlist@ == old(self).shortlist@,
            rec.id != old(self).target && old(self).shortlist@.len() < K_FANOUT ==> seq_has_id(
                final(self).shortlist@,
                rec.id,
            ),
            rec.id != old(self).target && !seq_has_id(old(self).shortlist@, rec.id) && old(
                self,
            ).shortlist@.len() == K_FANOUT && old(self).target.spec_distance(rec.id) < old(
                self,
            ).target.spec_distance(old(self).shortlist@.last().id) ==> seq_has_id(
                final(self).shortlist@,
                rec.id,
            ) && !seq_has_id(final(self).shortlist@, old(self).shortlist@.last().id),
            forall|x: PeerId|
                seq_has_id(old(self).shortlist@, x) && !seq_has_id(final(self).shortlist@, x)
                    ==> old(self).shortlist@.len() == K_FANOUT && x == old(
                    self,
                ).shortlist@.last().id,
            final(self).shortlist@.len() >= old(self).shortlist@.len(),
            old(self).shortlist@.len() == K_FANOUT ==> final(self).shortlist@.len() == K_FANOUT,
            seq_has_id(final(self).shortlist@, rec.id) && !seq_has_id(old(self).shortlist@, rec.id)
                && old(self).shortlist@.len() == K_FANOUT ==> old(self).target.spec_distance(
                rec.id,
            ) <= old(self).target.spec_distance(old(self).shortlist@.last().id),
            seq_has_id(final(self).shortlist@, rec.id) || final(self).shortlist@ == old(
                self,
            ).shortlist@,
    {
        if rec.id.bits == self.target.bits {
            // The target itself is what we are looking for, not a candidate.
            return;
        }
        let found = find_id(&self.shortlist, rec.id);
        if found.is_some() {
            return;
        }
        let ghost o = self.shortlist@;
        let dr = self.target.distance(rec.id);
        let mut p: usize = 0;
        let mut scanning: bool = true;
        while scanning
            invariant
                p <= self.shortlist@.len(),
                self.shortlist@ == o,
                dr == self.target.spec_distance(rec.id),
                forall|j: int| 0 <= j < p ==> self.target.spec_distance(o[j].id) <= dr,
                !scanning ==> p == o.len() || self.target.spec_distance(o[p as int].id) >= dr,
            decreases self.shortlist@.len() - p, (if scanning {
                1int
            } else {
                0int
            }),
        {
            if p < self.shortlist.len() {
                if ranks_before(&self.shortlist[p], &rec, self.target) {
                    p = p + 1;
                } else {
                    scanning = false;
                }
            } else {
                scanning = false;
            }
        }
        self.shortlist.insert(p, rec);
        proof {
            let s = self.shortlist@;
            assert(forall|j: int| 0 <= j < p ==> s[j] == o[j]);
            assert(s[p as int] == rec);
            assert(forall|j: int| p < j < s.len() ==> s[j] == o[j - 1]);
            assert forall|i: int, j: int| 0 <= i < j < s.len() implies s[i].id != s[j].id by {
                if i == p {
                    assert(o[j - 1].id != rec.id);
                } else if j == p {
                    assert(o[i].id != rec.id);
                }
            };
            assert forall|i: int, j: int|
                0 <= i < j < s.len() implies self.target.spec_distance(s[i].id)
                <= self.target.spec_distance(s[j].id) by {
                if i == p && j > p {
                    assert(self.target.spec_distance(o[j - 1].id) >= self.target.spec_distance(
                        o[p as int].id,
                    ));
                }
            };
            assert forall|x: PeerId| seq_has_id(s, x) implies seq_has_id(o, x) || x == rec.id by {
                let j = choose|j: int| 0 <= j < s.len() && s[j].id == x;
                if j < p {
                    assert(o[j].id == x);
                } else if j > p {
                    assert(o[j - 1].id == x);
                }
            };
            assert(seq_has_id(s, rec.id));
            assert forall|x: PeerId| seq_has_id(o, x) implies seq_has_id(s, x) by {
                let j = choose|j: int| 0 <= j < o.len() && o[j].id == x;
                if j < p {
                    assert(s[j].id == x);
                } else {
                    assert(s[j + 1].id == x);
                }
            };
        }
        if self.shortlist.len() > K_FANOUT {
            let ghost t = self.shortlist@;
            self.shortlist.pop();
            proof {
                assert(self.shortlist@ =~= t.drop_last());
                let f = self.shortlist@;
                assert forall|x: PeerId| seq_has_id(f, x) implies seq_has_id(t, x) by {
                    let j = choose|j: int| 0 <= j < f.len() && f[j].id == x;
                    assert(t[j].id == x);
                };
                if p == o.len() {
                    // Every entry ranked before the candidate: the candidate
                    // itself is what was dropped and nothing changed.
                    assert(f =~= o);
                    assert(self.target.spec_distance(o.last().id) <= dr);
                    assert(!seq_has_id(f, rec.id)) by {
                        if seq_has_id(f, rec.id) {
                            let j = choose|j: int| 0 <= j < o.len() && o[j].id == rec.id;
                        }
                    };
                } else {
                    // The farthest entry was dropped; the candidate stays.
                    assert(t[o.len() as int] == o.last());
                    assert(f[p as int] == rec);
                    assert(seq_has_id(f, rec.id));
                    assert(self.target.spec_distance(o[p as int].id) <= self.target.spec_distance(
                        o.last().id,
                    ));
                    assert forall|j: int| 0 <= j < f.len() implies f[j].id != o.last().id by {
                        if j < p {
                            assert(f[j] == o[j]);
                        } else if j == p {
                        } else {
                            assert(f[j] == o[j - 1]);
                        }
                    };
                    assert forall|x: PeerId|
                        seq_has_id(o, x) && x != o.last().id implies seq_has_id(f, x) by {
                        let j = choose|j: int| 0 <= j < o.len() && o[j].id == x;
                        if j < p {
                            assert(f[j].id == x);
                        } else {
                            assert(f[j + 1].id == x);
                        }
                    };
                }
            }
        }
    }

    /// Merge every candidate of a response into the shortlist.
    pub fn absorb(&mut self, found: Vec<PeerRecord>)
        requires
            old(self).wf(),
        ensures
            final(self).wf(),
            final(self).target == old(self).target,
            final(self).contacted@ == old(self).contacted@,
            final(self).pending@ == old(self).pending@,
            forall|x: PeerId|
                seq_has_id(final(self).shortlist@, x) ==> seq_has_id(old(self).shortlist@, x)
                    || seq_has_id(found@, x),
            forall|i: int|
                0 <= i < found@.len() && (#[trigger] found@[i]).id != old(self).target
                    ==> final(self).absorbed(found@[i]),
    {
        let ghost all = found@;
        let mut rest = found;
        while rest.len() > 0
            invariant
                self.wf(),
                self.target == old(self).target,
                self.contacted@ == old(self).contacted@,
                self.pending@ == old(self).pending@,
                rest@.len() <= all.len(),
                forall|j: int| 0 <= j < rest@.len() ==> rest@[j] == all[j],
                forall|x: PeerId|
                    seq_has_id(self.shortlist@, x) ==> seq_has_id(old(self).shortlist@, x)
                        || seq_has_id(all, x),
                forall|i: int|
                    rest@.len() <= i < all.len() && (#[trigger] all[i]).id != self.target
                        ==> self.absorbed(all[i]),
            decreases rest@.len(),
        {
            let ghost before = rest@;
            let ghost pre = *self;
            let rec = rest.pop().unwrap();
            proof {
                assert(rec == all[before.len() - 1]);
            }
            self.insert_candidate(rec);
            proof {
                lemma_absorb_step(pre, *self, rec);
                assert forall|i: int|
                    rest@.len() <= i < all.len() && (#[trigger] all[i]).id != self.target
                        implies self.absorbed(all[i]) by {
                    if i > rest@.len() {
                        assert(pre.absorbed(all[i]));
                    } else {
                        assert(all[i] == rec);
                        if pre.shortlist@.len() < K_FANOUT {
                            assert(seq_has_id(self.shortlist@, rec.id));
                        } else if seq_has_id(pre.shortlist@, rec.id) {
                            assert(seq_has_id(self.shortlist@, rec.id) || (pre.shortlist@.len()
                                == K_FANOUT && rec.id == pre.shortlist@.last().id));
                            if !seq_has_id(self.shortlist@, rec.id) {
                                lemma_full_list_covers(pre, *self, rec, rec);
                            }
                        } else {
                            if !seq_has_id(self.shortlist@, rec.id) {
                                // Not entered on a full shortlist: the
                                // candidate was no closer than the farthest.
                                assert(self.shortlist@ == pre.shortlist@);
                                assert(self.target.spec_distance(rec.id)
                                    >= self.target.spec_distance(pre.shortlist@.last().id));
                                assert forall|j: int|
                                    0 <= j < self.shortlist@.len()
                                        implies self.target.spec_distance(
                                        (#[trigger] self.shortlist@[j]).id,
                                    ) <= self.target.spec_distance(rec.id) by {
                                    assert(pre.shortlist@[j] == self.shortlist@[j]);
                                };
                            }
                        }
                    }
                };
            }
        }
    }

    /// Distance from the target to the best (closest) shortlist entry.
    pub fn best_distance(&self) -> (r: Option<u64>)
        requires
            self.wf(),
        ensures
            match r {
                Some(d) => self.shortlist@.len() > 0 && d == self.target.spec_distance(
                    self.shortlist@[0].id,
                ),
                None => self.shortlist@.len() == 0,
            },
    {
        if self.shortlist.len() == 0 {
            None
        } else {
            Some(self.target.distance(self.shortlist[0].id))
        }
    }

    /// Pick up to `alpha` closest not-yet-queried shortlist peers and mark
    /// them in flight; they are the next round's query fan-out.
    pub fn next_batch(&mut self, alpha: usize) -> (batch: Vec<PeerId>)
        requires
            old(self).wf(),
        ensures
            final(self).wf(),
            final(self).target == old(self).target,
            final(self).contacted@ == old(self).contacted@,
            final(self).shortlist@ == old(self).shortlist@,
            batch@.len() <= alpha,
            forall|j: int|
                0 <= j < batch@.len() ==> seq_has_id(old(self).shortlist@, #[trigger] batch@[j])
                    && !old(self).queried(batch@[j]),
            final(self).pending@ == old(self).pending@ + batch@,
            batch@.len() < alpha ==> forall|i: int|
                0 <= i < final(self).shortlist@.len() ==> final(self).queried(
                    (#[trigger] final(self).shortlist@[i]).id,
                ),
    {
        let mut batch: Vec<PeerId> = Vec::new();
        let ghost opending = self.pending@;
        let mut i: usize = 0;
        while i < self.shortlist.len() && batch.len() < alpha
            invariant
                self.wf(),
                alpha >= batch@.len(),
                i <= self.shortlist@.len(),
                self.target == old(self).target,
                self.contacted@ == old(self).contacted@,
                self.shortlist@ == old(self).shortlist@,
                self.pending@ == opending + batch@,
                forall|j: int|
                    0 <= j < batch@.len() ==> seq_has_id(self.shortlist@, #[trigger] batch@[j])
                        && !(ids_contain(self.contacted@, batch@[j]) || ids_contain(
                        opending,
                        batch@[j],
                    )),
                forall|j: int|
                    0 <= j < i ==> ids_contain(self.contacted@, (#[trigger] self.shortlist@[j]).id)
                        || ids_contain(self.pending@, self.shortlist@[j].id),
            decreases self.shortlist@.len() - i,
        {
            let id = self.shortlist[i].id;
            let in_contacted = find_index(&self.contacted, id);
            let in_pending = find_index(&self.pending, id);
            if in_contacted.is_none() && in_pending.is_none() {
                let ghost pb = self.pending@;
                let ghost bb = batch@;
                self.pending.push(id);
                batch.push(id);
                proof {
                    assert(self.shortlist@[i as int].id == id);
                    assert(self.pending@ =~= opending + batch@);
                    assert(!ids_contain(pb, id));
                    assert forall|a: int, b: int|
                        0 <= a < b < self.pending@.len() implies self.pending@[a]
                        != self.pending@[b] by {
                        if b == self.pending@.len() - 1 {
                            assert(pb.contains(pb[a]));
                        }
                    };
                    assert(!ids_contain(opending, id)) by {
                        if opending.contains(id) {
                            let j = choose|j: int| 0 <= j < opending.len() && opending[j] == id;
                            assert(pb[j] == id);
                        }
                    };
                    assert(ids_contain(self.pending@, id)) by {
                        assert(self.pending@[self.pending@.len() - 1] == id);
                    };
                    assert forall|j: int|
                        0 <= j < i implies ids_contain(
                        self.contacted@,
                        (#[trigger] self.shortlist@[j]).id,
                    ) || ids_contain(self.pending@, self.shortlist@[j].id) by {
                        if ids_contain(pb, self.shortlist@[j].id) {
                            let k = choose|k: int|
                                0 <= k < pb.len() && pb[k] == self.shortlist@[j].id;
                            assert(self.pending@[k] == self.shortlist@[j].id);
                        }
                    };
                }
            } else {
                proof {
                    if in_pending is Some {
                        let k = in_pending.unwrap() as int;
                        assert(ids_contain(self.pending@, id));
                    }
                }
            }
            i = i + 1;
        }
        batch
    }

    /// Note a response from a queried peer: it is no longer in flight and
    /// counts as contacted; its candidates join the shortlist.
    pub fn on_response(&mut self, peer: PeerId, found: Vec<PeerRecord>)
        requires
            old(self).wf(),
        ensures
            final(self).wf(),
            final(self).target == old(self).target,
            ids_contain(final(self).contacted@, peer),
            !ids_contain(final(self).pending@, peer),
            forall|x: PeerId|
                seq_has_id(final(self).shortlist@, x) ==> seq_has_id(old(self).shortlist@, x)
                    || seq_has_id(found@, x),
            forall|i: int|
                0 <= i < found@.len() && (#[trigger] found@[i]).id != old(self).target
                    ==> final(self).absorbed(found@[i]),
    {
        self.retire(peer);
        let ghost mid = *self;
        self.absorb(found);
        proof {
            assert(self.contacted@ == mid.contacted@);
            assert(self.contacted@[self.contacted@.len() - 1] == peer);
        }
    }

    /// Note a failed or timed-out query: the peer leaves the flight list,
    /// counts as contacted (it will not be re-queried), and is dropped from
    /// the shortlist; the lookup proceeds with the remaining entries.
    pub fn on_failure(&mut self, peer: PeerId)
        requires
            old(self).wf(),
        ensures
            final(self).wf(),
            final(self).target == old(self).target,
            ids_contain(final(self).contacted@, peer),
            !ids_contain(final(self).pending@, peer),
            !seq_has_id(final(self).shortlist@, peer),
            forall|x: PeerId|
                seq_has_id(final(self).shortlist@, x) ==> seq_has_id(old(self).shortlist@, x),
    {
        self.retire(peer);
        let found = find_id(&self.shortlist, peer);
        match found {
            Some(i) => {
                let ghost o = self.shortlist@;
                self.shortlist.remove(i);
                proof {
                    let s = self.shortlist@;
                    assert(forall|j: int| 0 <= j < i ==> s[j] == o[j]);
                    assert(forall|j: int| i <= j < s.len() ==> s[j] == o[j + 1]);
                    assert forall|x: PeerId| seq_has_id(s, x) implies seq_has_id(o, x) && (x != peer
                        || false) by {
                        let j = choose|j: int| 0 <= j < s.len() && s[j].id == x;
                        if j < i {
                            assert(o[j].id == x);
                        } else {
                            assert(o[j + 1].id == x);
                        }
                    };
                    assert forall|j: int| 0 <= j < s.len() implies s[j].id != peer by {
                        if j < i {
                        } else {
                            assert(s[j] == o[j + 1]);
                        }
                    };
                }
            },
            None => {},
        }
    }

    /// Move a peer from in-flight to contacted.
    fn retire(&mut self, peer: PeerId)
        requires
            old(self).wf(),
        ensures
            final(self).wf(),
            final(self).target == old(self).target,
            final(self).shortlist@ == old(self).shortlist@,
            final(self).contacted@ == old(self).contacted@.push(peer),
            ids_contain(final(self).contacted@, peer),
            !ids_contain(final(self).pending@, peer),
    {
        let found = find_index(&self.pending, peer);
        match found {
            Some(i) => {
                let ghost o = self.pending@;
                self.pending.remove(i);
                proof {
                    let s = self.pending@;
                    assert(forall|j: int| 0 <= j < i ==> s[j] == o[j]);
                    assert(forall|j: int| i <= j < s.len() ==> s[j] == o[j + 1]);
                    assert forall|j: int| 0 <= j < s.len() implies s[j] != peer by {
                        if j >= i {
                            assert(s[j] == o[j + 1]);
                        }
                    };
                }
            },
            None => {},
        }
        self.contacted.push(peer);
        proof {
            assert(self.contacted@[self.contacted@.len() - 1] == peer);
        }
    }

    /// Whether the lookup ran out of candidates before converging: the
    /// `DiscoveryExhausted` condition, surfaced to the caller, never fatal.
    pub fn exhausted(&self) -> (r: bool)
        ensures
            r == self.spec_exhausted(),
    {
        self.pending.len() == 0 && self.shortlist.len() == 0
    }

    /// Whether the lookup has converged: nothing in flight, every shortlist
    /// peer queried. The shortlist then is the answer.
    pub fn finished(&self) -> (r: bool)
        requires
            self.wf(),
        ensures
            r == self.spec_finished(),
    {
        if self.pending.len() > 0 {
            return false;
        }
        let mut i: usize = 0;
        while i < self.shortlist.len()
            invariant
                i <= self.shortlist@.len(),
                forall|j: int|
                    0 <= j < i ==> ids_contain(self.contacted@, #[trigger] self.shortlist@[j].id),
            decreases self.shortlist@.len() - i,
        {
            let found = find_index(&self.contacted, self.shortlist[i].id);
            if found.is_none() {
                return false;
            }
            proof {
                let k = choose|k: int|
                    0 <= k < self.contacted@.len() && self.contacted@[k] == self.shortlist@[
                        i as int
                    ].id;
            }
            i = i + 1;
        }
        true
    }
}


/// After one `insert_candidate` step from `pre` to `post`, a candidate the
/// shortlist had already taken account of stays taken account of.
proof fn lemma_absorb_step(pre: LookupState, post: LookupState, rec: PeerRecord)
    requires
        pre.wf(),
        post.wf(),
        post.target == pre.target,
        forall|x: PeerId|
            seq_has_id(post.shortlist@, x) ==> seq_has_id(pre.shortlist@, x) || x == rec.id,
        forall|x: PeerId|
            seq_has_id(pre.shortlist@, x) && !seq_has_id(post.shortlist@, x)
                ==> pre.shortlist@.len() == K_FANOUT && x == pre.shortlist@.last().id,
        post.shortlist@.len() >= pre.shortlist@.len(),
        pre.shortlist@.len() == K_FANOUT ==> post.shortlist@.len() == K_FANOUT,
        seq_has_id(post.shortlist@, rec.id) && !seq_has_id(pre.shortlist@, rec.id)
            && pre.shortlist@.len() == K_FANOUT ==> pre.target.spec_distance(rec.id)
            <= pre.target.spec_distance(pre.shortlist@.last().id),
    ensures
        forall|c: PeerRecord| #[trigger] pre.absorbed(c) ==> post.absorbed(c),
{
    assert forall|c: PeerRecord| #[trigger] pre.absorbed(c) implies post.absorbed(c) by {
        if seq_has_id(pre.shortlist@, c.id) {
            if !seq_has_id(post.shortlist@, c.id) {
                lemma_full_list_covers(pre, post, rec, c);
            }
        } else {
            if seq_has_id(post.shortlist@, c.id) {
            } else {
                lemma_full_list_covers(pre, post, rec, c);
            }
        }
    };
}

/// When the shortlist was full and every entry sat within the candidate's
/// distance, that stays so after one `insert_candidate` step.
proof fn lemma_full_list_covers(pre: LookupState, post: LookupState, rec: PeerRecord, c: PeerRecord)
    requires
        pre.wf(),
        post.wf(),
        post.target == pre.target,
        pre.shortlist@.len() == K_FANOUT,
        post.shortlist@.len() == K_FANOUT,
        forall|x: PeerId|
            seq_has_id(post.shortlist@, x) ==> seq_has_id(pre.shortlist@, x) || x == rec.id,
        seq_has_id(post.shortlist@, rec.id) && !seq_has_id(pre.shortlist@, rec.id)
            ==> pre.target.spec_distance(rec.id) <= pre.target.spec_distance(
            pre.shortlist@.last().id,
        ),
        forall|j: int|
            0 <= j < pre.shortlist@.len() ==> pre.target.spec_distance(
                (#[trigger] pre.shortlist@[j]).id,
            ) <= pre.target.spec_distance(c.id),
    ensures
        post.absorbed(c),
{
    assert forall|j: int|
        0 <= j < post.shortlist@.len() implies post.target.spec_distance(
        (#[trigger] post.shortlist@[j]).id,
    ) <= post.target.spec_distance(c.id) by {
        let x = post.shortlist@[j].id;
        assert(seq_has_id(post.shortlist@, x));
        if seq_has_id(pre.shortlist@, x) {
            let k = choose|k: int| 0 <= k < pre.shortlist@.len() && pre.shortlist@[k].id == x;
            assert(pre.target.spec_distance(pre.shortlist@[k].id) <= pre.target.spec_distance(
                c.id,
            ));
        } else {
            assert(x == rec.id);
            assert(pre.target.spec_distance(pre.shortlist@.last().id) <= pre.target.spec_distance(
                c.id,
            ));
        }
    };
}

} // verus!
