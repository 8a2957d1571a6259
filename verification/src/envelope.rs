//! Published messages and their identifiers.

use vstd::prelude::*;
use crate::peer::PeerId;

verus! {

/// One published message: origin and sequence number pin the identifier,
/// the topic routes it, the payload is opaque bytes.
pub struct MessageEnvelope {
    pub id: u64,
    pub origin: PeerId,
    pub seq: u64,
    pub topic: String,
    pub payload: Vec<u8>,
}

/// Mathematical model of an envelope.
#[verifier::ext_equal]
pub struct EnvelopeModel {
    pub id: u64,
    pub origin: PeerId,
    pub seq: u64,
    pub topic: Seq<char>,
    pub payload: Seq<u8>,
}

impl View for MessageEnvelope {
    type V = EnvelopeModel;

    open spec fn view(&self) -> EnvelopeModel {
        EnvelopeModel {
            id: self.id,
            origin: self.origin,
            seq: self.seq,
            topic: self.topic@,
            payload: self.payload@,
        }
    }
}

impl MessageEnvelope {
    /// A deep copy with the relation to the original in the contract.
    pub fn duplicate(&self) -> (r: MessageEnvelope)
        ensures
            r@ == self@,
    {
        let mut payload: Vec<u8> = Vec::new();
        let mut i: usize = 0;
        while i < self.payload.len()
            invariant
                i <= self.payload.len(),
                payload@ == self.payload@.take(i as int),
            decreases self.payload.len() - i,
        {
            payload.push(self.payload[i]);
            proof {
                assert(payload@ =~= self.payload@.take(i + 1 as int));
            }
            i = i + 1;
        }
        proof {
            assert(payload@ =~= self.payload@);
        }
        MessageEnvelope {
            id: self.id,
            origin: self.origin,
            seq: self.seq,
            topic: self.topic.clone(),
            payload,
        }
    }
}

/// One step of the rolling message-id digest, modulo 2^64.
pub open spec fn mix(h: int, b: int) -> int {
    (h * 31 + b) % 0x1_0000_0000_0000_0000
}

/// Digest of the first `k` payload bytes, seeded from origin and sequence.
pub open spec fn digest_prefix(origin: PeerId, seq: u64, payload: Seq<u8>, k: int) -> int
    decreases k,
{
    if k <= 0 {
        mix(mix(origin.bits as int, seq as int), payload.len() as int)
    } else {
        mix(digest_prefix(origin, seq, payload, k - 1), payload[k - 1] as int)
    }
}

/// The message identifier: a digest of origin, sequence number, and every
/// payload byte, so identical envelopes agree on it everywhere.
pub open spec fn spec_message_id(origin: PeerId, seq: u64, payload: Seq<u8>) -> int {
    digest_prefix(origin, seq, payload, payload.len() as int)
}

/// Runtime digest, proved equal to `spec_message_id`.
pub fn compute_message_id(origin: PeerId, seq: u64, payload: &Vec<u8>) -> (r: u64)
    ensures
        r == spec_message_id(origin, seq, payload@),
{
    let mut h = mix_exec(origin.bits, seq);
    h = mix_exec(h, payload.len() as u64);
    let mut i: usize = 0;
    while i < payload.len()
        invariant
            i <= payload.len(),
            h == digest_prefix(origin, seq, payload@, i as int),
        decreases payload.len() - i,
    {
        h = mix_exec(h, payload[i] as u64);
        i = i + 1;
    }
    h
}

fn mix_exec(h: u64, b: u64) -> (r: u64)
    ensures
        r == mix(h as int, b as int),
{
    let t: u128 = (h as u128) * 31 + (b as u128);
    (t % 0x1_0000_0000_0000_0000u128) as u64
}

} // verus!
