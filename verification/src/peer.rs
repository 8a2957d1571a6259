//! Peer identities, the XOR metric, and per-peer routing records.

use vstd::prelude::*;
use vstd::arithmetic::power2::pow2;
use vstd::arithmetic::power2::lemma_pow2_unfold;
use vstd::arithmetic::power2::lemma_pow2_pos;

verus! {

/// Fixed-size peer identifier; its bits are the coordinate in the XOR
/// metric space that routing distances are measured in.
#[derive(Clone, Copy, PartialEq, Eq, Structural, Hash, Debug)]
pub struct PeerId {
    pub bits: u64,
}

impl PeerId {
    /// XOR distance between two identities, read as an integer.
    pub open spec fn spec_distance(self, other: PeerId) -> u64 {
        self.bits ^ other.bits
    }

    pub fn distance(self, other: PeerId) -> (d: u64)
        ensures
            d == self.spec_distance(other),
    {
        self.bits ^ other.bits
    }
}

/// Position of the highest set bit of a nonzero distance: `floor(log2 d)`.
/// Records at distance `d` from the local identity live in bucket
/// `bucket_index(d)`, so a record's bucket is a function of its identity.
pub open spec fn bucket_index(d: u64) -> int
    decreases d,
{
    if d <= 1 {
        0
    } else {
        1 + bucket_index(d / 2)
    }
}

/// Every u64 distance falls in one of the 64 buckets.
pub proof fn lemma_bucket_index_bound(d: u64)
    ensures
        0 <= bucket_index(d) < 64,
{
    vstd::arithmetic::power2::lemma2_to64_rest();
    lemma_bucket_index_below(d, 64);
}

proof fn lemma_bucket_index_nonneg(d: u64)
    ensures
        bucket_index(d) >= 0,
    decreases d,
{
    if d > 1 {
        lemma_bucket_index_nonneg(d / 2);
    }
}

proof fn lemma_bucket_index_below(d: u64, n: nat)
    requires
        1 <= n,
        d < pow2(n),
    ensures
        0 <= bucket_index(d) < n,
    decreases n,
{
    if d <= 1 {
    } else {
        vstd::arithmetic::power2::lemma2_to64();
        lemma_pow2_unfold(n);
        lemma_pow2_pos((n - 1) as nat);
        lemma_bucket_index_below(d / 2, (n - 1) as nat);
    }
}

/// Runtime bucket computation, proved against `bucket_index`.
pub fn bucket_index_of(d: u64) -> (i: usize)
    ensures
        i == bucket_index(d),
        i < 64,
{
    proof {
        lemma_bucket_index_bound(d);
    }
    let mut x: u64 = d;
    let mut i: usize = 0;
    while x > 1
        invariant
            bucket_index(d) == i + bucket_index(x),
            0 <= i <= bucket_index(d) < 64,
        decreases x,
    {
        proof {
            lemma_bucket_index_nonneg(x / 2);
        }
        x = x / 2;
        i = i + 1;
    }
    i
}

/// What the routing table knows of one peer: its identity, the network
/// addresses it was reached at, and when it last answered.
pub struct PeerRecord {
    pub id: PeerId,
    pub addrs: Vec<String>,
    pub last_seen: u64,
}

/// Mathematical model of a `PeerRecord`: addresses as character sequences.
#[verifier::ext_equal]
pub struct RecordModel {
    pub id: PeerId,
    pub addrs: Seq<Seq<char>>,
    pub last_seen: u64,
}

impl View for PeerRecord {
    type V = RecordModel;

    open spec fn view(&self) -> RecordModel {
        RecordModel {
            id: self.id,
            addrs: self.addrs@.map_values(|a: String| a@),
            last_seen: self.last_seen,
        }
    }
}

/// Models of a sequence of records.
pub open spec fn models_of(s: Seq<PeerRecord>) -> Seq<RecordModel> {
    s.map_values(|r: PeerRecord| r@)
}

impl PeerRecord {
    /// A deep copy; `Clone` is avoided so the relation between copy and
    /// original stays visible to the verifier.
    pub fn duplicate(&self) -> (r: PeerRecord)
        ensures
            r.id == self.id,
            r.addrs@ == self.addrs@,
            r.last_seen == self.last_seen,
    {
        let mut addrs: Vec<String> = Vec::new();
        let mut i: usize = 0;
        while i < self.addrs.len()
            invariant
                i <= self.addrs.len(),
                addrs@ == self.addrs@.take(i as int),
            decreases self.addrs.len() - i,
        {
            addrs.push(self.addrs[i].clone());
            proof {
                assert(addrs@ =~= self.addrs@.take(i + 1 as int));
            }
            i = i + 1;
        }
        proof {
            assert(addrs@ =~= self.addrs@);
        }
        PeerRecord { id: self.id, addrs, last_seen: self.last_seen }
    }
}

/// Whether a sequence of records holds the given identity.
pub open spec fn seq_has_id(s: Seq<PeerRecord>, id: PeerId) -> bool {
    exists|i: int| 0 <= i < s.len() && s[i].id == id
}

/// First position of the given identity in a sequence of records.
pub open spec fn index_of_id(s: Seq<PeerRecord>, id: PeerId) -> int {
    choose|i: int| 0 <= i < s.len() && s[i].id == id
}

/// Runtime search for an identity among records.
pub fn find_id(s: &Vec<PeerRecord>, id: PeerId) -> (r: Option<usize>)
    ensures
        match r {
            Some(i) => i < s@.len() && s@[i as int].id == id,
            None => !seq_has_id(s@, id),
        },
{
    let mut i: usize = 0;
    while i < s.len()
        invariant
            i <= s@.len(),
            forall|j: int| 0 <= j < i ==> s@[j].id != id,
        decreases s@.len() - i,
    {
        if s[i].id == id {
            return Some(i);
        }
        i = i + 1;
    }
    None
}

} // verus!
