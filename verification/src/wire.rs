//! Byte layout of the protocol frames, with its round-trip pinned down.
//!
//! Frames carry text fields as raw bytes here; the boundary code outside
//! this crate converts `String` fields to UTF-8 bytes before encoding and
//! back after decoding. `frame_bytes` is the single definition of the
//! layout: `encode_frame` produces exactly it, and `decode_frame` accepts
//! a buffer only if it is exactly the encoding of the returned frame, so
//! every field — the dedup message id included — survives losslessly.

use vstd::prelude::*;
use crate::peer::PeerId;

verus! {

/// A routing record in wire form.
pub struct WireRecord {
    pub id: PeerId,
    pub last_seen: u64,
    pub addrs: Vec<Vec<u8>>,
}

/// A pubsub envelope in wire form.
pub struct WireEnvelope {
    pub id: u64,
    pub origin: PeerId,
    pub seq: u64,
    pub topic: Vec<u8>,
    pub payload: Vec<u8>,
}

/// A protocol frame in wire form.
pub enum WireFrame {
    Query { target: PeerId },
    Reply { target: PeerId, found: Vec<WireRecord> },
    Publish { env: WireEnvelope },
}

/// Big-endian bytes of a 64-bit value.
pub open spec fn u64_bytes(v: u64) -> Seq<u8> {
    seq![
        (v >> 56) as u8,
        (v >> 48) as u8,
        (v >> 40) as u8,
        (v >> 32) as u8,
        (v >> 24) as u8,
        (v >> 16) as u8,
        (v >> 8) as u8,
        v as u8,
    ]
}

/// A length-prefixed byte string.
pub open spec fn blob_bytes(b: Seq<u8>) -> Seq<u8> {
    u64_bytes(b.len() as u64) + b
}

/// The first `k` address blobs of a record, concatenated.
pub open spec fn addrs_bytes(addrs: Seq<Vec<u8>>, k: int) -> Seq<u8>
    decreases k,
{
    if k <= 0 {
        Seq::empty()
    } else {
        addrs_bytes(addrs, k - 1) + blob_bytes(addrs[k - 1]@)
    }
}

/// One record: identity, timestamp, address count, addresses.
pub open spec fn record_bytes(r: WireRecord) -> Seq<u8> {
    u64_bytes(r.id.bits) + u64_bytes(r.last_seen) + u64_bytes(r.addrs@.len() as u64) + addrs_bytes(
        r.addrs@,
        r.addrs@.len() as int,
    )
}

/// The first `k` records, concatenated.
pub open spec fn records_bytes(rs: Seq<WireRecord>, k: int) -> Seq<u8>
    decreases k,
{
    if k <= 0 {
        Seq::empty()
    } else {
        records_bytes(rs, k - 1) + record_bytes(rs[k - 1])
    }
}

/// The wire layout: a one-byte frame tag, then the frame's fields.
pub open spec fn frame_bytes(f: WireFrame) -> Seq<u8> {
    match f {
        WireFrame::Query { target } => seq![1u8] + u64_bytes(target.bits),
        WireFrame::Reply { target, found } => seq![2u8] + u64_bytes(target.bits) + u64_bytes(
            found@.len() as u64,
        ) + records_bytes(found@, found@.len() as int),
        WireFrame::Publish { env } => seq![3u8] + u64_bytes(env.id) + u64_bytes(env.origin.bits)
            + u64_bytes(env.seq) + blob_bytes(env.topic@) + blob_bytes(env.payload@),
    }
}

fn push_u64(out: &mut Vec<u8>, v: u64)
    ensures
        final(out)@ == old(out)@ + u64_bytes(v),
{
    out.push(#[verifier::truncate] ((v >> 56) as u8));
    out.push(#[verifier::truncate] ((v >> 48) as u8));
    out.push(#[verifier::truncate] ((v >> 40) as u8));
    out.push(#[verifier::truncate] ((v >> 32) as u8));
    out.push(#[verifier::truncate] ((v >> 24) as u8));
    out.push(#[verifier::truncate] ((v >> 16) as u8));
    out.push(#[verifier::truncate] ((v >> 8) as u8));
    out.push(#[verifier::truncate] (v as u8));
    proof {
        assert(out@ =~= old(out)@ + u64_bytes(v));
    }
}

fn push_blob(out: &mut Vec<u8>, b: &Vec<u8>)
    ensures
        final(out)@ == old(out)@ + blob_bytes(b@),
{
    push_u64(out, b.len() as u64);
    let ghost mid = out@;
    let mut i: usize = 0;
    while i < b.len()
        invariant
            i <= b@.len(),
            out@ == mid + b@.take(i as int),
        decreases b@.len() - i,
    {
        out.push(b[i]);
        proof {
            assert(out@ =~= mid + b@.take(i + 1 as int));
        }
        i = i + 1;
    }
    proof {
        assert(b@.take(b@.len() as int) =~= b@);
        assert(out@ =~= old(out)@ + blob_bytes(b@));
    }
}

/// Produce exactly the wire layout of the frame.
pub fn encode_frame(f: &WireFrame) -> (out: Vec<u8>)
    ensures
        out@ == frame_bytes(*f),
{
    let mut out: Vec<u8> = Vec::new();
    match f {
        WireFrame::Query { target } => {
            out.push(1u8);
            proof {
                assert(out@ =~= seq![1u8]);
            }
            push_u64(&mut out, target.bits);
        },
        WireFrame::Reply { target, found } => {
            out.push(2u8);
            proof {
                assert(out@ =~= seq![2u8]);
            }
            push_u64(&mut out, target.bits);
            push_u64(&mut out, found.len() as u64);
            let ghost head = out@;
            let mut i: usize = 0;
            while i < found.len()
                invariant
                    i <= found@.len(),
                    out@ == head + records_bytes(found@, i as int),
                decreases found@.len() - i,
            {
                let ghost pre = out@;
                push_u64(&mut out, found[i].id.bits);
                push_u64(&mut out, found[i].last_seen);
                push_u64(&mut out, found[i].addrs.len() as u64);
                let ghost rhead = out@;
                let mut j: usize = 0;
                while j < found[i].addrs.len()
                    invariant
                        i < found@.len(),
                        j <= found@[i as int].addrs@.len(),
                        out@ == rhead + addrs_bytes(found@[i as int].addrs@, j as int),
                    decreases found@[i as int].addrs@.len() - j,
                {
                    push_blob(&mut out, &found[i].addrs[j]);
                    j = j + 1;
                }
                proof {
                    assert(out@ =~= pre + record_bytes(found@[i as int]));
                }
                i = i + 1;
            }
        },
        WireFrame::Publish { env } => {
            out.push(3u8);
            proof {
                assert(out@ =~= seq![3u8]);
            }
            push_u64(&mut out, env.id);
            push_u64(&mut out, env.origin.bits);
            push_u64(&mut out, env.seq);
            push_blob(&mut out, &env.topic);
            push_blob(&mut out, &env.payload);
        },
    }
    out
}


/// `addrs_bytes` only reads the first `k` entries.
proof fn lemma_addrs_bytes_prefix(s1: Seq<Vec<u8>>, s2: Seq<Vec<u8>>, k: int)
    requires
        forall|i: int| 0 <= i < k ==> s1[i] == s2[i],
    ensures
        addrs_bytes(s1, k) == addrs_bytes(s2, k),
    decreases k,
{
    if k > 0 {
        lemma_addrs_bytes_prefix(s1, s2, k - 1);
    }
}

/// `records_bytes` only reads the first `k` entries.
proof fn lemma_records_bytes_prefix(s1: Seq<WireRecord>, s2: Seq<WireRecord>, k: int)
    requires
        forall|i: int| 0 <= i < k ==> s1[i] == s2[i],
    ensures
        records_bytes(s1, k) == records_bytes(s2, k),
    decreases k,
{
    if k > 0 {
        lemma_records_bytes_prefix(s1, s2, k - 1);
    }
}

/// Reassembling eight parsed bytes gives a value whose big-endian bytes
/// are those eight bytes again.
proof fn lemma_u64_assemble(b0: u64, b1: u64, b2: u64, b3: u64, b4: u64, b5: u64, b6: u64, b7: u64)
    requires
        b0 < 256 && b1 < 256 && b2 < 256 && b3 < 256,
        b4 < 256 && b5 < 256 && b6 < 256 && b7 < 256,
    ensures
        ({
            let v = (b0 << 56) | (b1 << 48) | (b2 << 40) | (b3 << 32) | (b4 << 24) | (b5 << 16) | (
            b6 << 8) | b7;
            &&& (v >> 56) as u8 == b0 as u8
            &&& (v >> 48) as u8 == b1 as u8
            &&& (v >> 40) as u8 == b2 as u8
            &&& (v >> 32) as u8 == b3 as u8
            &&& (v >> 24) as u8 == b4 as u8
            &&& (v >> 16) as u8 == b5 as u8
            &&& (v >> 8) as u8 == b6 as u8
            &&& v as u8 == b7 as u8
        }),
{
    assert(({
        let v = (b0 << 56) | (b1 << 48) | (b2 << 40) | (b3 << 32) | (b4 << 24) | (b5 << 16) | (
        b6 << 8) | b7;
        &&& (v >> 56) as u8 == b0 as u8
        &&& (v >> 48) as u8 == b1 as u8
        &&& (v >> 40) as u8 == b2 as u8
        &&& (v >> 32) as u8 == b3 as u8
        &&& (v >> 24) as u8 == b4 as u8
        &&& (v >> 16) as u8 == b5 as u8
        &&& (v >> 8) as u8 == b6 as u8
        &&& v as u8 == b7 as u8
    })) by (bit_vector)
        requires
            b0 < 256 && b1 < 256 && b2 < 256 && b3 < 256,
            b4 < 256 && b5 < 256 && b6 < 256 && b7 < 256,
    ;
}

fn read_u64(buf: &[u8], pos: usize) -> (r: Option<(u64, usize)>)
    ensures
        r matches Some((v, p2)) ==> pos + 8 <= buf@.len() && p2 == pos + 8 && buf@.subrange(
            pos as int,
            pos as int + 8,
        ) == u64_bytes(v),
{
    if buf.len() < 8 || pos > buf.len() - 8 {
        return None;
    }
    let b0 = buf[pos] as u64;
    let b1 = buf[pos + 1] as u64;
    let b2 = buf[pos + 2] as u64;
    let b3 = buf[pos + 3] as u64;
    let b4 = buf[pos + 4] as u64;
    let b5 = buf[pos + 5] as u64;
    let b6 = buf[pos + 6] as u64;
    let b7 = buf[pos + 7] as u64;
    let v = (b0 << 56) | (b1 << 48) | (b2 << 40) | (b3 << 32) | (b4 << 24) | (b5 << 16) | (b6 << 8)
        | b7;
    proof {
        lemma_u64_assemble(b0, b1, b2, b3, b4, b5, b6, b7);
        assert(buf@.subrange(pos as int, pos as int + 8) =~= u64_bytes(v));
    }
    Some((v, pos + 8))
}

fn read_blob(buf: &[u8], pos: usize) -> (r: Option<(Vec<u8>, usize)>)
    ensures
        r matches Some((b, p2)) ==> pos <= p2 <= buf@.len() && buf@.subrange(pos as int, p2 as int)
            == blob_bytes(b@),
{
    let (n, mut p) = match read_u64(buf, pos) {
        Some(x) => x,
        None => {
            return None;
        },
    };
    if n > (buf.len() - p) as u64 {
        return None;
    }
    let count = n as usize;
    proof {
        assert(buf@.len() == buf.len());
    }
    let ghost dstart = p as int;
    let mut b: Vec<u8> = Vec::new();
    let mut j: usize = 0;
    while j < count
        invariant
            j <= count,
            count == n as u64 as usize,
            p == pos + 8,
            dstart == p as int,
            pos + 8 + count <= buf@.len(),
            buf@.len() <= usize::MAX,
            b@.len() == j,
            b@ =~= buf@.subrange(dstart, dstart + j as int),
        decreases count - j,
    {
        b.push(buf[p + j]);
        proof {
            assert(b@ =~= buf@.subrange(dstart, dstart + j + 1 as int));
        }
        j = j + 1;
    }
    proof {
        assert(b@.len() as u64 == n);
        assert(buf@.subrange(pos as int, (pos + 8 + count) as int) =~= u64_bytes(n) + b@);
    }
    Some((b, p + count))
}

/// Accept a buffer exactly when it is the wire layout of some frame, and
/// give that frame back: the layout round-trips every field losslessly.
pub fn decode_frame(buf: &[u8]) -> (r: Option<WireFrame>)
    ensures
        r matches Some(f) ==> buf@ == frame_bytes(f),
{
    if buf.len() == 0 {
        return None;
    }
    let tag = buf[0];
    if tag == 1 {
        let (t, p) = match read_u64(buf, 1) {
            Some(x) => x,
            None => {
                return None;
            },
        };
        if p != buf.len() {
            return None;
        }
        let f = WireFrame::Query { target: PeerId { bits: t } };
        proof {
            assert(buf@ =~= frame_bytes(f));
        }
        Some(f)
    } else if tag == 2 {
        let (t, p1) = match read_u64(buf, 1) {
            Some(x) => x,
            None => {
                return None;
            },
        };
        let (n, p2) = match read_u64(buf, p1) {
            Some(x) => x,
            None => {
                return None;
            },
        };
        if n > buf.len() as u64 {
            return None;
        }
        let count = n as usize;
        let ghost rstart = p2 as int;
        let mut found: Vec<WireRecord> = Vec::new();
        let mut pos = p2;
        let mut k: usize = 0;
        while k < count
            invariant
                k <= count,
                found@.len() == k,
                p2 <= pos <= buf@.len(),
                rstart == p2 as int,
                buf@.subrange(rstart, pos as int) == records_bytes(found@, k as int),
            decreases count - k,
        {
            let ghost recstart = pos as int;
            let ghost prev = found@;
            let (rid, q1) = match read_u64(buf, pos) {
                Some(x) => x,
                None => {
                    return None;
                },
            };
            let (ls, q2) = match read_u64(buf, q1) {
                Some(x) => x,
                None => {
                    return None;
                },
            };
            let (na, q3) = match read_u64(buf, q2) {
                Some(x) => x,
                None => {
                    return None;
                },
            };
            if na > buf.len() as u64 {
                return None;
            }
            let acount = na as usize;
            let ghost astart = q3 as int;
            let mut addrs: Vec<Vec<u8>> = Vec::new();
            let mut q = q3;
            let mut j: usize = 0;
            while j < acount
                invariant
                    j <= acount,
                    addrs@.len() == j,
                    q3 <= q <= buf@.len(),
                    astart == q3 as int,
                    buf@.subrange(astart, q as int) == addrs_bytes(addrs@, j as int),
                decreases acount - j,
            {
                let ghost aprev = addrs@;
                let ghost qprev = q as int;
                let (a, q4) = match read_blob(buf, q) {
                    Some(x) => x,
                    None => {
                        return None;
                    },
                };
                addrs.push(a);
                proof {
                    assert(addrs@.drop_last() =~= aprev);
                    lemma_addrs_bytes_prefix(aprev, addrs@, j as int);
                    assert(addrs@[j as int] == a);
                    assert(buf@.subrange(qprev, q4 as int) == blob_bytes(addrs@[j as int]@));
                    assert(addrs_bytes(addrs@, j + 1 as int) == addrs_bytes(addrs@, j as int)
                        + blob_bytes(addrs@[j as int]@));
                    assert(buf@.subrange(astart, q4 as int) =~= buf@.subrange(astart, qprev)
                        + buf@.subrange(qprev, q4 as int));
                    assert(buf@.subrange(astart, q4 as int) =~= addrs_bytes(addrs@, j + 1 as int));
                }
                q = q4;
                j = j + 1;
            }
            let rec = WireRecord { id: PeerId { bits: rid }, last_seen: ls, addrs };
            proof {
                assert(rec.addrs@.len() as u64 == na);
                assert(buf@.subrange(recstart, q as int) =~= u64_bytes(rid) + u64_bytes(ls)
                    + u64_bytes(na) + buf@.subrange(astart, q as int));
                assert(buf@.subrange(recstart, q as int) =~= record_bytes(rec));
            }
            found.push(rec);
            proof {
                assert(found@.drop_last() =~= prev);
                lemma_records_bytes_prefix(prev, found@, k as int);
                assert(found@[k as int] == rec);
                assert(records_bytes(found@, k + 1 as int) == records_bytes(found@, k as int)
                    + record_bytes(rec));
                assert(buf@.subrange(rstart, q as int) =~= buf@.subrange(rstart, recstart)
                    + buf@.subrange(recstart, q as int));
                assert(buf@.subrange(rstart, q as int) =~= records_bytes(found@, k + 1 as int));
            }
            pos = q;
            k = k + 1;
        }
        if pos != buf.len() {
            return None;
        }
        let f = WireFrame::Reply { target: PeerId { bits: t }, found };
        proof {
            assert(buf@ =~= frame_bytes(f));
        }
        Some(f)
    } else if tag == 3 {
        let (id, p1) = match read_u64(buf, 1) {
            Some(x) => x,
            None => {
                return None;
            },
        };
        let (origin, p2) = match read_u64(buf, p1) {
            Some(x) => x,
            None => {
                return None;
            },
        };
        let (sq, p3) = match read_u64(buf, p2) {
            Some(x) => x,
            None => {
                return None;
            },
        };
        let (topic, p4) = match read_blob(buf, p3) {
            Some(x) => x,
            None => {
                return None;
            },
        };
        let (payload, p5) = match read_blob(buf, p4) {
            Some(x) => x,
            None => {
                return None;
            },
        };
        if p5 != buf.len() {
            return None;
        }
        let f = WireFrame::Publish {
            env: WireEnvelope { id, origin: PeerId { bits: origin }, seq: sq, topic, payload },
        };
        proof {
            assert(buf@ =~= frame_bytes(f));
        }
        Some(f)
    } else {
        None
    }
}

} // verus!
