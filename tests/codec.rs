use neobft::message::{Message, Multicast, MulticastCrypto, NetAddr, NodeAddr, Reply, Request};
use neobft::wire::{decode_message, encode_message};

fn samples() -> Vec<Message> {
    let req = Request {
        client_id: 7,
        client_addr: NodeAddr::Socket(NetAddr::V4 { ip: [127, 0, 0, 1], port: 5000 }),
        request_num: 5,
        op: b"hello".to_vec(),
    };
    let v6 = Request {
        client_id: 1,
        client_addr: NodeAddr::Socket(NetAddr::V6 { ip: [0xfe; 16], port: 1 }),
        request_num: u32::MAX,
        op: Vec::new(),
    };
    let m = Multicast {
        seq: 3,
        crypto: MulticastCrypto::SipHash { index: 4, macs: [9; 16] },
        digest: [1; 32],
    };
    let signed = Multicast { seq: 4, crypto: MulticastCrypto::P256 { signature: [2; 64] }, digest: [3; 32] };
    let link = Multicast { seq: 5, crypto: MulticastCrypto::Link { link_hash: [4; 32] }, digest: [5; 32] };
    vec![
        Message::Request(req.clone()),
        Message::Request(v6),
        Message::OrderedRequest(m, req.clone()),
        Message::OrderedRequest(signed, Request { client_addr: NodeAddr::TestClient(2), ..req.clone() }),
        Message::OrderedRequest(link, Request { client_addr: NodeAddr::TestReplica(3), ..req }),
        Message::Reply(Reply { request_num: 5, result: b"world".to_vec(), replica_id: 2, seq: 9 }),
    ]
}

#[test]
fn messages_round_trip() {
    for m in samples() {
        let bytes = encode_message(&m);
        let back = decode_message(&bytes).unwrap();
        assert_eq!(encode_message(&back), bytes);
        assert_eq!(format!("{:?}", back), format!("{:?}", m));
    }
}

#[test]
fn trailing_bytes_are_ignored() {
    for m in samples() {
        let mut bytes = encode_message(&m);
        bytes.extend_from_slice(&[0xaa, 0xbb, 0xcc]);
        let back = decode_message(&bytes).unwrap();
        assert_eq!(format!("{:?}", back), format!("{:?}", m));
    }
}

#[test]
fn truncated_or_unknown_is_malformed() {
    for m in samples() {
        let bytes = encode_message(&m);
        for cut in 0..bytes.len() {
            assert!(decode_message(&bytes[..cut]).is_none());
        }
    }
    assert!(decode_message(&[3, 0, 0, 0]).is_none());
    assert!(decode_message(&[]).is_none());
}

#[test]
fn reply_layout_is_fixed_width_little_endian() {
    let r = Message::Reply(Reply { request_num: 0x01020304, result: vec![0xee], replica_id: 7, seq: 0x0a0b0c0d });
    assert_eq!(
        encode_message(&r),
        vec![2, 0, 0, 0, 4, 3, 2, 1, 1, 0, 0, 0, 0, 0, 0, 0, 0xee, 7, 0x0d, 0x0c, 0x0b, 0x0a]
    );
}

#[test]
fn request_layout_matches_bincode_fixint() {
    let req = Request { client_id: 9, client_addr: NodeAddr::TestClient(4), request_num: 2, op: vec![1, 2, 3] };
    let ours = encode_message(&Message::Request(req));
    // variant 0 of Message, then the fields; the address is variant 0 holding a u32
    let theirs = bincode::serialize(&(0u32, 9u32, 0u32, 4u32, 2u32, vec![1u8, 2, 3])).unwrap();
    assert_eq!(ours, theirs);
}
