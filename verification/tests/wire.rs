use p2p::{
    decode_frame, encode_frame, PeerId, WireEnvelope, WireFrame, WireRecord,
};

fn id(bits: u64) -> PeerId {
    PeerId { bits }
}

#[test]
fn query_frame_round_trips() {
    let f = WireFrame::Query { target: id(0xDEAD_BEEF_0102_0304) };
    let bytes = encode_frame(&f);
    match decode_frame(&bytes) {
        Some(WireFrame::Query { target }) => assert_eq!(target.bits, 0xDEAD_BEEF_0102_0304),
        other => panic!("wrong decode: {}", other.is_some()),
    }
}

#[test]
fn publish_frame_round_trips_every_field() {
    let f = WireFrame::Publish {
        env: WireEnvelope {
            id: 31747,
            origin: id(7),
            seq: 9,
            topic: b"example-topic".to_vec(),
            payload: vec![0, 1, 2, 255],
        },
    };
    let bytes = encode_frame(&f);
    match decode_frame(&bytes) {
        Some(WireFrame::Publish { env }) => {
            assert_eq!(env.id, 31747);
            assert_eq!(env.origin.bits, 7);
            assert_eq!(env.seq, 9);
            assert_eq!(env.topic, b"example-topic".to_vec());
            assert_eq!(env.payload, vec![0, 1, 2, 255]);
        }
        other => panic!("wrong decode: {}", other.is_some()),
    }
}

#[test]
fn reply_frame_round_trips_records_and_addresses() {
    let f = WireFrame::Reply {
        target: id(42),
        found: vec![
            WireRecord { id: id(1), last_seen: 10, addrs: vec![b"a:1/x".to_vec()] },
            WireRecord {
                id: id(2),
                last_seen: 20,
                addrs: vec![b"b:2/y".to_vec(), b"c:3/z".to_vec()],
            },
            WireRecord { id: id(3), last_seen: 30, addrs: vec![] },
        ],
    };
    let bytes = encode_frame(&f);
    match decode_frame(&bytes) {
        Some(WireFrame::Reply { target, found }) => {
            assert_eq!(target.bits, 42);
            assert_eq!(found.len(), 3);
            assert_eq!(found[0].id.bits, 1);
            assert_eq!(found[0].last_seen, 10);
            assert_eq!(found[0].addrs, vec![b"a:1/x".to_vec()]);
            assert_eq!(found[1].addrs.len(), 2);
            assert_eq!(found[1].addrs[1], b"c:3/z".to_vec());
            assert_eq!(found[2].id.bits, 3);
            assert!(found[2].addrs.is_empty());
        }
        other => panic!("wrong decode: {}", other.is_some()),
    }
}

#[test]
fn mangled_buffers_are_refused() {
    let f = WireFrame::Query { target: id(5) };
    let mut bytes = encode_frame(&f);
    // Trailing garbage is not an encoding of anything.
    bytes.push(0);
    assert!(decode_frame(&bytes).is_none());
    // Truncation is refused too.
    bytes.truncate(4);
    assert!(decode_frame(&bytes).is_none());
    // An unknown tag is refused.
    assert!(decode_frame(&[9, 0, 0]).is_none());
    assert!(decode_frame(&[]).is_none());
}
