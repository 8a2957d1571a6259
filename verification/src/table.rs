//! Kademlia-style routing table: peer records bucketed by XOR distance
//! from the local identity.
//!
//! A record at distance `d` from the local peer lives in bucket
//! `bucket_index(d)`, so an identity determines its bucket and can never
//! appear in two buckets at once. Each bucket holds at most `K_FANOUT`
//! records in least-recently-seen-first order; when a full bucket meets a
//! fresh candidate the caller is told which oldest entry to ping before
//! anything is evicted.

use vstd::prelude::*;
use crate::peer::PeerId;
use crate::peer::PeerRecord;
use crate::peer::bucket_index;
use crate::peer::bucket_index_of;
use crate::peer::lemma_bucket_index_bound;
use crate::peer::seq_has_id;
use crate::peer::index_of_id;
use crate::peer::find_id;
use crate::peer::RecordModel;
use crate::peer::models_of;
use crate::K_FANOUT;

verus! {

/// What `record_seen` did with the candidate.
#[derive(Clone, Copy, PartialEq, Eq, Structural, Debug)]
pub enum SeenOutcome {
    /// The candidate was the local identity; the table never stores itself.
    Own,
    /// The identity was already present: timestamp refreshed, address
    /// merged, record moved to the most-recent end of its bucket.
    Refreshed,
    /// The identity was new and its bucket had room: appended.
    Added,
    /// The bucket is full. Nothing changed; the caller should ping the
    /// oldest entry and either keep it (it answered) or `remove` it and
    /// retry the insert.
    Full { oldest: PeerId },
}

pub struct RoutingTable {
    pub local: PeerId,
    pub buckets: Vec<Vec<PeerRecord>>,
}

impl RoutingTable {
    /// Which bucket the given identity belongs to.
    pub open spec fn bucket_of(self, id: PeerId) -> int {
        bucket_index(self.local.spec_distance(id))
    }

    /// Structural invariant: 64 buckets, none over `K_FANOUT`, every record
    /// in the bucket its identity maps to, no identity twice in a bucket.
    pub open spec fn wf(self) -> bool {
        &&& self.buckets@.len() == 64
        &&& forall|b: int| 0 <= b < 64 ==> (#[trigger] self.buckets@[b])@.len() <= K_FANOUT
        &&& forall|b: int, i: int|
            0 <= b < 64 && 0 <= i < self.buckets@[b]@.len() ==> {
                let rec = #[trigger] self.buckets@[b]@[i];
                rec.id != self.local && self.bucket_of(rec.id) == b
            }
        &&& forall|b: int, i: int, j: int|
            0 <= b < 64 && 0 <= i < j < self.buckets@[b]@.len()
                ==> (#[trigger] self.buckets@[b]@[i]).id != (#[trigger] self.buckets@[b]@[j]).id
    }

    /// Whether the table holds a record for the identity.
    pub open spec fn spec_has(self, id: PeerId) -> bool {
        seq_has_id(self.buckets@[self.bucket_of(id)]@, id)
    }

    /// The record stored for a present identity.
    pub open spec fn spec_record(self, id: PeerId) -> PeerRecord {
        let bk = self.buckets@[self.bucket_of(id)]@;
        bk[index_of_id(bk, id)]
    }

    pub fn new(local: PeerId) -> (r: RoutingTable)
        ensures
            r.wf(),
            r.local == local,
            forall|x: PeerId| !r.spec_has(x),
    {
        let mut buckets: Vec<Vec<PeerRecord>> = Vec::new();
        let mut b: usize = 0;
        while b < 64
            invariant
                b <= 64,
                buckets@.len() == b,
                forall|i: int| 0 <= i < b ==> (#[trigger] buckets@[i])@.len() == 0,
            decreases 64 - b,
        {
            buckets.push(Vec::new());
            b = b + 1;
        }
        let r = RoutingTable { local, buckets };
        proof {
            assert forall|x: PeerId| !r.spec_has(x) by {
                lemma_bucket_index_bound(local.spec_distance(x));
            };
        }
        r
    }

    /// Runtime membership test.
    pub fn has(&self, id: PeerId) -> (r: bool)
        requires
            self.wf(),
        ensures
            r == self.spec_has(id),
    {
        let d = self.local.distance(id);
        let b = bucket_index_of(d);
        match find_id(&self.buckets[b], id) {
            Some(_) => true,
            None => false,
        }
    }

    /// Insert or refresh a record for `id` reached at `addr`, seen at `now`.
    ///
    /// A known identity is refreshed in place (timestamp, address merge) and
    /// becomes the most recent of its bucket; a new identity is appended if
    /// its bucket has room; a full bucket changes nothing and names its
    /// oldest entry so the caller can ping-check it first.
    pub fn record_seen(&mut self, id: PeerId, addr: String, now: u64) -> (r: SeenOutcome)
        requires
            old(self).wf(),
        ensures
            final(self).wf(),
            final(self).local == old(self).local,
            forall|x: PeerId|
                final(self).spec_has(x) <==> old(self).spec_has(x) || (x == id && r
                    == SeenOutcome::Added),
            (r == SeenOutcome::Own) <==> id == old(self).local,
            (r == SeenOutcome::Refreshed) <==> (id != old(self).local && old(self).spec_has(id)),
            (r == SeenOutcome::Added) <==> (id != old(self).local && !old(self).spec_has(id)
                && old(self).buckets@[old(self).bucket_of(id)]@.len() < K_FANOUT),
            (r is Full) <==> (id != old(self).local && !old(self).spec_has(id)
                && old(self).buckets@[old(self).bucket_of(id)]@.len() == K_FANOUT),
            r matches SeenOutcome::Full { oldest } ==> oldest
                == old(self).buckets@[old(self).bucket_of(id)]@[0].id && old(self).spec_has(oldest),
            (r == SeenOutcome::Own || r is Full) ==> *final(self) == *old(self),
            (r == SeenOutcome::Refreshed || r == SeenOutcome::Added) ==> {
                let rec = final(self).spec_record(id);
                rec.id == id && rec.last_seen == now && rec@.addrs.contains(addr@)
            },
            r == SeenOutcome::Refreshed ==> final(self).spec_record(id)@.addrs == {
                let before = old(self).spec_record(id)@.addrs;
                if before.contains(addr@) {
                    before
                } else {
                    before.push(addr@)
                }
            },
            r == SeenOutcome::Added ==> final(self).spec_record(id)@.addrs =~= seq![addr@],
            forall|b: int|
                0 <= b < 64 ==> (#[trigger] final(self).buckets@[b])@.len()
                    >= old(self).buckets@[b]@.len(),
    {
        if id.bits == self.local.bits {
            return SeenOutcome::Own;
        }
        let d = self.local.distance(id);
        let b = bucket_index_of(d);
        let ghost pre = *self;
        let found = find_id(&self.buckets[b], id);
        match found {
            Some(i) => {
                let mut bk = self.buckets.remove(b);
                let ghost o = bk@;
                let mut rec = bk.remove(i);
                rec.last_seen = now;
                if !contains_addr(&rec.addrs, &addr) {
                    rec.addrs.push(addr);
                }
                proof {
                    assert(rec@.addrs =~= if o[i as int]@.addrs.contains(addr@) {
                        o[i as int]@.addrs
                    } else {
                        o[i as int]@.addrs.push(addr@)
                    });
                }
                bk.push(rec);
                let ghost nb = bk@;
                self.buckets.insert(b, bk);
                proof {
                    assert(self.buckets@ =~= pre.buckets@.update(b as int, self.buckets@[b as int]));
                    lemma_refresh_ok(pre, *self, id, addr, now, b as int, o, nb, i as int);
                }
                SeenOutcome::Refreshed
            },
            None => {
                if self.buckets[b].len() < K_FANOUT {
                    let mut bk = self.buckets.remove(b);
                    let ghost o = bk@;
                    bk.push(PeerRecord { id, addrs: make_addr_vec(addr), last_seen: now });
                    let ghost nb = bk@;
                    self.buckets.insert(b, bk);
                    proof {
                        assert(self.buckets@ =~= pre.buckets@.update(
                            b as int,
                            self.buckets@[b as int],
                        ));
                        lemma_add_ok(pre, *self, id, addr, now, b as int, o, nb);
                    }
                    SeenOutcome::Added
                } else {
                    let oldest = self.buckets[b][0].id;
                    SeenOutcome::Full { oldest }
                }
            },
        }
    }

    /// Models of the records of the first `k` buckets, in bucket order.
    pub open spec fn models_up_to(self, k: int) -> Seq<RecordModel>
        decreases k,
    {
        if k <= 0 {
            Seq::empty()
        } else {
            self.models_up_to(k - 1) + models_of(self.buckets@[k - 1]@)
        }
    }

    /// Models of everything the table holds.
    pub open spec fn models(self) -> Seq<RecordModel> {
        self.models_up_to(64)
    }

    /// Copies of every record in the table, in bucket order: no identity
    /// twice, never the local identity.
    pub fn collect_records(&self) -> (v: Vec<PeerRecord>)
        requires
            self.wf(),
        ensures
            models_of(v@) == self.models(),
            forall|i: int, j: int| 0 <= i < j < v@.len() ==> v@[i].id != v@[j].id,
            forall|i: int| 0 <= i < v@.len() ==> (#[trigger] v@[i]).id != self.local,
    {
        let mut v: Vec<PeerRecord> = Vec::new();
        let mut b: usize = 0;
        while b < 64
            invariant
                self.wf(),
                b <= 64,
                models_of(v@) =~= self.models_up_to(b as int),
                forall|i: int, j: int| 0 <= i < j < v@.len() ==> v@[i].id != v@[j].id,
                forall|i: int|
                    0 <= i < v@.len() ==> (#[trigger] v@[i]).id != self.local && self.bucket_of(
                        v@[i].id,
                    ) < b,
            decreases 64 - b,
        {
            let ghost base = v@.len() as int;
            let mut j: usize = 0;
            while j < self.buckets[b].len()
                invariant
                    self.wf(),
                    b < 64,
                    j <= self.buckets@[b as int]@.len(),
                    models_of(v@) =~= self.models_up_to(b as int) + models_of(
                        self.buckets@[b as int]@.take(j as int),
                    ),
                    v@.len() == base + j,
                    forall|i: int, k: int| 0 <= i < k < v@.len() ==> v@[i].id != v@[k].id,
                    forall|i: int|
                        0 <= i < base ==> (#[trigger] v@[i]).id != self.local && self.bucket_of(
                            v@[i].id,
                        ) < b,
                    forall|i: int|
                        base <= i < v@.len() ==> v@[i] == self.buckets@[b as int]@[i - base] || (
                        #[trigger] v@[i]).id == self.buckets@[b as int]@[i - base].id,
                decreases self.buckets@[b as int]@.len() - j,
            {
                proof {
                    let rec = self.buckets@[b as int]@[j as int];
                    assert(self.bucket_of(rec.id) == b);
                    assert forall|i: int| 0 <= i < v@.len() implies v@[i].id != rec.id by {
                        if i < base {
                        } else {
                            assert(v@[i].id == self.buckets@[b as int]@[i - base].id);
                        }
                    };
                }
                let ghost prev = v@;
                v.push(self.buckets[b][j].duplicate());
                proof {
                    assert(models_of(prev.push(v@.last())) =~= models_of(prev).push(v@.last()@));
                    assert(self.buckets@[b as int]@.take(j + 1) =~= self.buckets@[b as int]@.take(
                        j as int,
                    ).push(self.buckets@[b as int]@[j as int]));
                    assert(models_of(self.buckets@[b as int]@.take(j as int).push(
                        self.buckets@[b as int]@[j as int],
                    )) =~= models_of(self.buckets@[b as int]@.take(j as int)).push(
                        self.buckets@[b as int]@[j as int]@,
                    ));
                }
                j = j + 1;
            }
            proof {
                assert(self.buckets@[b as int]@.take(self.buckets@[b as int]@.len() as int)
                    =~= self.buckets@[b as int]@);
            }
            b = b + 1;
        }
        v
    }

    /// The up-to-`n` records closest to `target` in XOR distance, closest
    /// first; whatever the table holds beyond them is at least as far.
    pub fn closest(&self, target: PeerId, n: usize) -> (r: Vec<PeerRecord>)
        requires
            self.wf(),
        ensures
            r@.len() == if n as int <= self.models().len() {
                n as int
            } else {
                self.models().len() as int
            },
            forall|i: int, j: int|
                0 <= i < j < r@.len() ==> target.spec_distance(r@[i].id) <= target.spec_distance(
                    r@[j].id,
                ),
            forall|i: int, j: int| 0 <= i < j < r@.len() ==> closer_first(target, r@[i], r@[j]),
            forall|i: int| 0 <= i < r@.len() ==> self.models().contains(#[trigger] r@[i]@),
            forall|m: RecordModel, i: int|
                #![trigger self.models().contains(m), r@[i]]
                self.models().contains(m) && !models_of(r@).contains(m) && 0 <= i < r@.len()
                    ==> target.spec_distance(r@[i].id) <= target.spec_distance(m.id),
            forall|i: int, j: int| 0 <= i < j < r@.len() ==> r@[i].id != r@[j].id,
            forall|i: int| 0 <= i < r@.len() ==> (#[trigger] r@[i]).id != self.local,
    {
        broadcast use vstd::seq_lib::group_to_multiset_ensures;

        let ghost all = self.models();
        let mut pool = self.collect_records();
        let mut out: Vec<PeerRecord> = Vec::new();
        while out.len() < n && pool.len() > 0
            invariant
                out@.len() <= n,
                out@.len() + pool@.len() == all.len(),
                models_of(out@).to_multiset().add(models_of(pool@).to_multiset())
                    == all.to_multiset(),
                forall|i: int, j: int|
                    0 <= i < j < out@.len() ==> closer_first(target, out@[i], out@[j]),
                forall|k: int, x: int|
                    0 <= k < out@.len() && 0 <= x < pool@.len() ==> closer_first(
                        target,
                        out@[k],
                        pool@[x],
                    ),
            decreases pool@.len(),
        {
            let mut mi: usize = 0;
            let mut x: usize = 1;
            while x < pool.len()
                invariant
                    mi < x <= pool@.len(),
                    pool@.len() > 0,
                    forall|y: int| 0 <= y < x ==> closer_first(target, pool@[mi as int], pool@[y]),
                decreases pool@.len() - x,
            {
                let dx = target.distance(pool[x].id);
                let dm = target.distance(pool[mi].id);
                if dx < dm || (dx == dm && pool[x].last_seen > pool[mi].last_seen) {
                    mi = x;
                }
                x = x + 1;
            }
            let ghost opool = pool@;
            let ghost oout = out@;
            let rec = pool.remove(mi);
            out.push(rec);
            proof {
                let m = opool[mi as int]@;
                let pms = models_of(opool);
                let oms = models_of(oout);
                pms.to_multiset_ensures();
                oms.to_multiset_ensures();
                assert(pms[mi as int] == m);
                assert(pms.contains(m));
                assert(pms.to_multiset().count(m) > 0);
                assert(models_of(pool@) =~= pms.remove(mi as int));
                assert(pms.remove(mi as int).to_multiset() =~= pms.to_multiset().remove(m));
                assert(models_of(pool@).to_multiset() =~= pms.to_multiset().remove(m));
                assert(models_of(out@) =~= oms.push(m));
                assert(oms.push(m).to_multiset() =~= oms.to_multiset().insert(m));
                assert(models_of(out@).to_multiset() =~= oms.to_multiset().insert(m));
                assert(oms.to_multiset().insert(m).add(pms.to_multiset().remove(m))
                    =~= oms.to_multiset().add(pms.to_multiset()));
                assert(models_of(out@).to_multiset().add(models_of(pool@).to_multiset())
                    =~= all.to_multiset());
            }
        }
        proof {
            assert forall|m: RecordModel, i: int|
                all.contains(m) && !models_of(out@).contains(m) && 0 <= i < out@.len()
                    implies target.spec_distance(out@[i].id) <= target.spec_distance(m.id) by {
                assert(all.to_multiset().count(m) > 0);
                assert(models_of(out@).to_multiset().count(m) == 0);
                assert(models_of(pool@).to_multiset().count(m) > 0);
                assert(models_of(pool@).contains(m));
                let x = choose|x: int| 0 <= x < models_of(pool@).len() && models_of(pool@)[x] == m;
                assert(pool@[x]@ == m);
                assert(closer_first(target, out@[i], pool@[x]));
                assert(target.spec_distance(out@[i].id) <= target.spec_distance(pool@[x].id));
            };
            assert forall|i: int, j: int|
                0 <= i < j < out@.len() implies target.spec_distance(out@[i].id)
                <= target.spec_distance(out@[j].id) by {
                assert(closer_first(target, out@[i], out@[j]));
            };
            assert forall|i: int| 0 <= i < out@.len() implies all.contains(#[trigger] out@[i]@) by {
                assert(models_of(out@)[i] == out@[i]@);
                assert(models_of(out@).contains(out@[i]@));
                assert(models_of(out@).to_multiset().count(out@[i]@) > 0);
                assert(all.to_multiset().count(out@[i]@) > 0);
            };
            assert(forall|i: int, j: int| 0 <= i < j < all.len() ==> all[i].id != all[j].id);
            assert forall|i: int| 0 <= i < out@.len() implies (#[trigger] out@[i]).id
                != self.local by {
                assert(all.contains(out@[i]@));
                let k = choose|k: int| 0 <= k < all.len() && all[k] == out@[i]@;
            };
            assert forall|i: int, j: int|
                0 <= i < j < out@.len() implies out@[i].id != out@[j].id by {
                if out@[i].id == out@[j].id {
                    let oms = models_of(out@);
                    if out@[i]@ == out@[j]@ {
                        let m = out@[i]@;
                        oms.to_multiset_ensures();
                        assert(oms.remove(i).to_multiset() =~= oms.to_multiset().remove(m));
                        assert(oms.remove(i)[j - 1] == m);
                        assert(oms.remove(i).contains(m));
                        oms.remove(i).to_multiset_ensures();
                        assert(oms.to_multiset().remove(m).count(m) > 0);
                        assert(oms.to_multiset().count(m) >= 2);
                        assert(all.to_multiset().count(m) >= 2);
                        assert(forall|a: int, b: int|
                            0 <= a < b < all.len() ==> all[a] != all[b]);
                        all.lemma_multiset_has_no_duplicates();
                        assert(all.to_multiset().contains(m));
                        assert(false);
                    } else {
                        assert(all.contains(out@[i]@));
                        assert(all.contains(out@[j]@));
                        let k1 = choose|k: int| 0 <= k < all.len() && all[k] == out@[i]@;
                        let k2 = choose|k: int| 0 <= k < all.len() && all[k] == out@[j]@;
                        assert(all[k1].id == all[k2].id);
                        assert(false);
                    }
                }
            };
        }
        out
    }

    /// Drop the record for an identity confirmed unreachable.
    pub fn remove(&mut self, id: PeerId)
        requires
            old(self).wf(),
        ensures
            final(self).wf(),
            final(self).local == old(self).local,
            forall|x: PeerId| final(self).spec_has(x) <==> (old(self).spec_has(x) && x != id),
    {
        let d = self.local.distance(id);
        let b = bucket_index_of(d);
        let ghost pre = *self;
        let found = find_id(&self.buckets[b], id);
        match found {
            Some(i) => {
                let mut bk = self.buckets.remove(b);
                let ghost o = bk@;
                bk.remove(i);
                let ghost nb = bk@;
                self.buckets.insert(b, bk);
                proof {
                    assert(self.buckets@ =~= pre.buckets@.update(b as int, self.buckets@[b as int]));
                    lemma_remove_ok(pre, *self, id, b as int, o, nb, i as int);
                }
            },
            None => {},
        }
    }
}

/// `a` precedes `b` in a closest-first order: strictly closer to `target`,
/// or as close and at least as recently seen.
pub open spec fn closer_first(target: PeerId, a: PeerRecord, b: PeerRecord) -> bool {
    ||| target.spec_distance(a.id) < target.spec_distance(b.id)
    ||| (target.spec_distance(a.id) == target.spec_distance(b.id) && a.last_seen >= b.last_seen)
}

/// Bucket discipline: an identity can sit in only one bucket — the bucket
/// is a function of the identity — and no bucket holds more than
/// `K_FANOUT` records.
pub proof fn lemma_bucket_discipline(t: RoutingTable, b1: int, b2: int, id: PeerId)
    requires
        t.wf(),
        0 <= b1 < 64,
        0 <= b2 < 64,
        seq_has_id(t.buckets@[b1]@, id),
        seq_has_id(t.buckets@[b2]@, id),
    ensures
        b1 == b2,
        forall|b: int| 0 <= b < 64 ==> t.buckets@[b]@.len() <= K_FANOUT,
{
    let i1 = choose|i: int| 0 <= i < t.buckets@[b1]@.len() && t.buckets@[b1]@[i].id == id;
    let i2 = choose|i: int| 0 <= i < t.buckets@[b2]@.len() && t.buckets@[b2]@[i].id == id;
    assert(t.bucket_of(t.buckets@[b1]@[i1].id) == b1);
    assert(t.bucket_of(t.buckets@[b2]@[i2].id) == b2);
}

/// Whether the vector holds an address with the same characters.
fn contains_addr(addrs: &Vec<String>, a: &String) -> (r: bool)
    ensures
        r == addrs@.map_values(|x: String| x@).contains(a@),
{
    let ghost m = addrs@.map_values(|x: String| x@);
    let mut i: usize = 0;
    while i < addrs.len()
        invariant
            i <= addrs@.len(),
            m == addrs@.map_values(|x: String| x@),
            forall|j: int| 0 <= j < i ==> m[j] != a@,
        decreases addrs@.len() - i,
    {
        if addrs[i] == *a {
            proof {
                assert(m[i as int] == a@);
            }
            return true;
        }
        i = i + 1;
    }
    false
}

/// One-element address vector.
fn make_addr_vec(addr: String) -> (r: Vec<String>)
    ensures
        r@ == seq![addr],
{
    let mut v: Vec<String> = Vec::new();
    v.push(addr);
    proof {
        assert(v@ =~= seq![addr]);
    }
    v
}

proof fn lemma_refresh_ok(
    pre: RoutingTable,
    post: RoutingTable,
    id: PeerId,
    addr: String,
    now: u64,
    b: int,
    o: Seq<PeerRecord>,
    nb: Seq<PeerRecord>,
    i: int,
)
    requires
        pre.wf(),
        post.local == pre.local,
        b == pre.bucket_of(id),
        o == pre.buckets@[b]@,
        0 <= i < o.len(),
        o[i].id == id,
        id != pre.local,
        nb.len() == o.len(),
        nb =~= o.remove(i).push(nb.last()),
        nb.last().id == id,
        nb.last().last_seen == now,
        nb.last()@.addrs == if o[i]@.addrs.contains(addr@) {
            o[i]@.addrs
        } else {
            o[i]@.addrs.push(addr@)
        },
        post.buckets@ =~= pre.buckets@.update(b, post.buckets@[b]),
        post.buckets@[b]@ == nb,
    ensures
        post.wf(),
        forall|x: PeerId| post.spec_has(x) <==> pre.spec_has(x),
        post.spec_record(id).id == id,
        post.spec_record(id).last_seen == now,
        post.spec_record(id)@.addrs.contains(addr@),
        post.spec_record(id)@.addrs == if pre.spec_record(id)@.addrs.contains(addr@) {
            pre.spec_record(id)@.addrs
        } else {
            pre.spec_record(id)@.addrs.push(addr@)
        },
{
    lemma_bucket_index_bound(pre.local.spec_distance(id));
    // Only index i held this id before, so the stored record is o[i].
    assert(forall|j: int| 0 <= j < o.len() && j != i ==> o[j].id != id);
    assert(index_of_id(o, id) == i);
    // The new bucket: everything but position i shifted, the refreshed
    // record at the end.
    assert(forall|j: int| 0 <= j < i ==> nb[j] == o[j]);
    assert(forall|j: int| i <= j < nb.len() - 1 ==> nb[j] == o[j + 1]);
    assert forall|x: PeerId| post.spec_has(x) implies pre.spec_has(x) by {
        lemma_bucket_index_bound(pre.local.spec_distance(x));
        if post.bucket_of(x) == b {
            let j = choose|j: int| 0 <= j < nb.len() && nb[j].id == x;
            if j == nb.len() - 1 {
                assert(o[i].id == x);
            } else if j < i {
                assert(o[j].id == x);
            } else {
                assert(o[j + 1].id == x);
            }
        }
    };
    assert forall|x: PeerId| pre.spec_has(x) implies post.spec_has(x) by {
        lemma_bucket_index_bound(pre.local.spec_distance(x));
        if pre.bucket_of(x) == b {
            let j = choose|j: int| 0 <= j < o.len() && o[j].id == x;
            if j == i {
                assert(nb[nb.len() - 1].id == x);
            } else if j < i {
                assert(nb[j].id == x);
            } else {
                assert(nb[j - 1].id == x);
            }
        }
    };
    assert(forall|j: int| 0 <= j < nb.len() - 1 ==> nb[j].id != id);
    assert(index_of_id(nb, id) == nb.len() - 1);
    assert(post.spec_record(id) == nb.last());
    let a = post.spec_record(id)@.addrs;
    if !o[i]@.addrs.contains(addr@) {
        assert(a[a.len() - 1] == addr@);
    }
}

proof fn lemma_add_ok(
    pre: RoutingTable,
    post: RoutingTable,
    id: PeerId,
    addr: String,
    now: u64,
    b: int,
    o: Seq<PeerRecord>,
    nb: Seq<PeerRecord>,
)
    requires
        pre.wf(),
        post.local == pre.local,
        b == pre.bucket_of(id),
        o == pre.buckets@[b]@,
        !seq_has_id(o, id),
        o.len() < K_FANOUT,
        id != pre.local,
        nb =~= o.push(nb.last()),
        nb.last().id == id,
        nb.last().last_seen == now,
        nb.last()@.addrs =~= seq![addr@],
        post.buckets@ =~= pre.buckets@.update(b, post.buckets@[b]),
        post.buckets@[b]@ == nb,
    ensures
        post.wf(),
        forall|x: PeerId| post.spec_has(x) <==> pre.spec_has(x) || x == id,
        post.spec_record(id).id == id,
        post.spec_record(id).last_seen == now,
        post.spec_record(id)@.addrs =~= seq![addr@],
        post.spec_record(id)@.addrs.contains(addr@),
{
    lemma_bucket_index_bound(pre.local.spec_distance(id));
    assert forall|x: PeerId| post.spec_has(x) implies pre.spec_has(x) || x == id by {
        lemma_bucket_index_bound(pre.local.spec_distance(x));
        if post.bucket_of(x) == b {
            let j = choose|j: int| 0 <= j < nb.len() && nb[j].id == x;
            if j < nb.len() - 1 {
                assert(o[j].id == x);
            }
        }
    };
    assert forall|x: PeerId| pre.spec_has(x) || x == id implies post.spec_has(x) by {
        lemma_bucket_index_bound(pre.local.spec_distance(x));
        if x == id {
            assert(nb[nb.len() - 1].id == x);
        } else if pre.bucket_of(x) == b {
            let j = choose|j: int| 0 <= j < o.len() && o[j].id == x;
            assert(nb[j].id == x);
        }
    };
    assert(nb[nb.len() - 1].id == id);
    assert(forall|j: int| 0 <= j < nb.len() - 1 ==> nb[j].id != id);
    assert(index_of_id(nb, id) == nb.len() - 1);
    let a = post.spec_record(id)@.addrs;
    assert(a[0] == addr@);
}

proof fn lemma_remove_ok(
    pre: RoutingTable,
    post: RoutingTable,
    id: PeerId,
    b: int,
    o: Seq<PeerRecord>,
    nb: Seq<PeerRecord>,
    i: int,
)
    requires
        pre.wf(),
        post.local == pre.local,
        b == pre.bucket_of(id),
        o == pre.buckets@[b]@,
        0 <= i < o.len(),
        o[i].id == id,
        nb =~= o.remove(i),
        post.buckets@ =~= pre.buckets@.update(b, post.buckets@[b]),
        post.buckets@[b]@ == nb,
    ensures
        post.wf(),
        forall|x: PeerId| post.spec_has(x) <==> (pre.spec_has(x) && x != id),
{
    lemma_bucket_index_bound(pre.local.spec_distance(id));
    assert(forall|j: int| 0 <= j < i ==> nb[j] == o[j]);
    assert(forall|j: int| i <= j < nb.len() ==> nb[j] == o[j + 1]);
    assert(forall|j: int| 0 <= j < o.len() && j != i ==> o[j].id != id);
    assert forall|x: PeerId| post.spec_has(x) implies pre.spec_has(x) && x != id by {
        lemma_bucket_index_bound(pre.local.spec_distance(x));
        if post.bucket_of(x) == b {
            let j = choose|j: int| 0 <= j < nb.len() && nb[j].id == x;
            if j < i {
                assert(o[j].id == x);
            } else {
                assert(o[j + 1].id == x);
            }
        }
    };
    assert forall|x: PeerId| pre.spec_has(x) && x != id implies post.spec_has(x) by {
        lemma_bucket_index_bound(pre.local.spec_distance(x));
        if pre.bucket_of(x) == b {
            let j = choose|j: int| 0 <= j < o.len() && o[j].id == x;
            if j < i {
                assert(nb[j].id == x);
            } else {
                assert(nb[j - 1].id == x);
            }
        }
    };
}

} // verus!
