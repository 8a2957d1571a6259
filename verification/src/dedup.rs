//! Bounded cache of recently seen message identifiers.
//!
//! Membership here decides forward-versus-drop for every inbound envelope,
//! so the cache is the duplicate-suppression core: bounded capacity,
//! insertion-ordered eviction (oldest first), and an optional
//! time-to-live sweep.

use vstd::prelude::*;

verus! {

/// One remembered message identifier and the time it was inserted.
pub struct DedupEntry {
    pub id: u64,
    pub time: u64,
}

/// The entries still inside the retention window ending at `now`.
pub open spec fn fresh_entries(s: Seq<DedupEntry>, now: u64, ttl: u64) -> Seq<DedupEntry> {
    s.filter(|e: DedupEntry| e.time + ttl >= now)
}

/// Bounded mapping from message id to insertion time. Entries are kept in
/// insertion order; once `cap` is exceeded the oldest entry is dropped.
pub struct DedupCache {
    pub entries: Vec<DedupEntry>,
    pub cap: usize,
}

impl DedupCache {
    /// Structural invariant: capacity is positive, occupancy never exceeds
    /// it, and no id is remembered twice.
    pub open spec fn wf(self) -> bool {
        &&& self.cap >= 1
        &&& self.entries@.len() <= self.cap
        &&& forall|i: int, j: int|
            0 <= i < j < self.entries@.len() ==> self.entries@[i].id != self.entries@[j].id
    }

    /// Whether the id is currently remembered.
    pub open spec fn spec_has(self, id: u64) -> bool {
        exists|i: int| 0 <= i < self.entries@.len() && self.entries@[i].id == id
    }

    pub fn new(cap: usize) -> (r: DedupCache)
        requires
            cap >= 1,
        ensures
            r.wf(),
            r.cap == cap,
            r.entries@.len() == 0,
    {
        DedupCache { entries: Vec::new(), cap }
    }

    /// Membership test; the caller decides forward-versus-drop on it.
    pub fn has(&self, id: u64) -> (r: bool)
        ensures
            r == self.spec_has(id),
    {
        let mut i: usize = 0;
        while i < self.entries.len()
            invariant
                i <= self.entries@.len(),
                forall|j: int| 0 <= j < i ==> self.entries@[j].id != id,
            decreases self.entries@.len() - i,
        {
            if self.entries[i].id == id {
                return true;
            }
            i = i + 1;
        }
        false
    }

    /// Remember an id. A known id is left as it was; a fresh id is appended,
    /// evicting the oldest entry when the cache is already full, so that the
    /// evicted id will be treated as new if it is ever seen again.
    pub fn insert(&mut self, id: u64, now: u64)
        requires
            old(self).wf(),
        ensures
            final(self).wf(),
            final(self).cap == old(self).cap,
            final(self).spec_has(id),
            forall|x: u64| old(self).spec_has(x) && !final(self).spec_has(x)
                ==> old(self).entries@.len() == old(self).cap && x == old(self).entries@[0].id,
            old(self).spec_has(id) ==> final(self).entries@ == old(self).entries@,
            !old(self).spec_has(id) && old(self).entries@.len() < old(self).cap
                ==> final(self).entries@ == old(self).entries@.push(DedupEntry { id, time: now }),
            !old(self).spec_has(id) && old(self).entries@.len() == old(self).cap
                ==> final(self).entries@ == old(self).entries@.subrange(
                    1,
                    old(self).entries@.len() as int,
                ).push(DedupEntry { id, time: now })
                    && !final(self).spec_has(old(self).entries@[0].id),
    {
        if self.has(id) {
            return;
        }
        let ghost o = self.entries@;
        if self.entries.len() == self.cap {
            self.entries.remove(0);
            proof {
                assert(self.entries@ =~= o.subrange(1, o.len() as int));
            }
            self.entries.push(DedupEntry { id, time: now });
            proof {
                let f = self.entries@;
                assert(f =~= o.subrange(1, o.len() as int).push(DedupEntry { id, time: now }));
                assert(f[f.len() - 1].id == id);
                assert forall|x: u64|
                    old(self).spec_has(x) && x != o[0].id implies self.spec_has(x) by {
                    let i = choose|i: int| 0 <= i < o.len() && o[i].id == x;
                    assert(f[i - 1].id == x);
                };
                assert forall|j: int| 0 <= j < f.len() implies f[j].id != o[0].id by {
                    if j < f.len() - 1 {
                        assert(f[j] == o[j + 1]);
                    }
                };
            }
        } else {
            self.entries.push(DedupEntry { id, time: now });
            proof {
                let f = self.entries@;
                assert(f[f.len() - 1].id == id);
                assert forall|x: u64| old(self).spec_has(x) implies self.spec_has(x) by {
                    let i = choose|i: int| 0 <= i < o.len() && o[i].id == x;
                    assert(f[i].id == x);
                };
            }
        }
    }

    /// Drop every entry older than the retention window ending at `now`;
    /// entries inserted at or after `now - ttl` survive, in their order.
    pub fn prune_expired(&mut self, now: u64, ttl: u64)
        requires
            old(self).wf(),
        ensures
            final(self).wf(),
            final(self).cap == old(self).cap,
            final(self).entries@ == fresh_entries(old(self).entries@, now, ttl),
    {
        let ghost before = self.entries@;
        let mut kept: Vec<DedupEntry> = Vec::new();
        let mut i: usize = 0;
        while i < self.entries.len()
            invariant
                i <= before.len(),
                self.entries@ == before,
                kept@ == before.take(i as int).filter(|e: DedupEntry| e.time + ttl >= now),
            decreases before.len() - i,
        {
            let e = &self.entries[i];
            proof {
                reveal(Seq::filter);
                assert(before.take(i + 1 as int).drop_last() =~= before.take(i as int));
                assert(before.take(i + 1 as int).last() == before[i as int]);
            }
            if (e.time as u128) + (ttl as u128) >= (now as u128) {
                kept.push(DedupEntry { id: e.id, time: e.time });
            }
            i = i + 1;
        }
        proof {
            assert(before.take(before.len() as int) =~= before);
            lemma_filter_keeps_distinct_bounded(before, |e: DedupEntry| e.time + ttl >= now);
        }
        self.entries = kept;
    }
}

/// Filtering a sequence of distinct-id entries keeps ids distinct, keeps
/// only original entries, and does not lengthen the sequence.
proof fn lemma_filter_keeps_distinct_bounded(s: Seq<DedupEntry>, p: spec_fn(DedupEntry) -> bool)
    requires
        forall|i: int, j: int| 0 <= i < j < s.len() ==> s[i].id != s[j].id,
    ensures
        s.filter(p).len() <= s.len(),
        forall|k: int|
            0 <= k < s.filter(p).len() ==> exists|m: int|
                0 <= m < s.len() && s[m] == #[trigger] s.filter(p)[k],
        forall|i: int, j: int|
            0 <= i < j < s.filter(p).len() ==> s.filter(p)[i].id != s.filter(p)[j].id,
    decreases s.len(),
{
    reveal(Seq::filter);
    if s.len() > 0 {
        let prefix = s.drop_last();
        let f = s.filter(p);
        let fp = prefix.filter(p);
        lemma_filter_keeps_distinct_bounded(prefix, p);
        assert forall|k: int| 0 <= k < f.len() implies exists|m: int|
            0 <= m < s.len() && s[m] == #[trigger] f[k] by {
            if p(s.last()) && k == f.len() - 1 {
                assert(s[s.len() - 1] == f[k]);
            } else {
                let m = choose|m: int| 0 <= m < prefix.len() && prefix[m] == fp[k];
                assert(s[m] == f[k]);
            }
        };
        assert forall|i: int, j: int| 0 <= i < j < f.len() implies f[i].id != f[j].id by {
            if p(s.last()) && j == f.len() - 1 && fp.len() == f.len() - 1 {
                let m = choose|m: int| 0 <= m < prefix.len() && prefix[m] == fp[i];
                assert(s[m].id != s[s.len() - 1].id);
            }
        };
    }
}

} // verus!
