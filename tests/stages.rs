use neobft::message::{Message, NetAddr, NodeAddr, Reply};
use neobft::node::{ClientEffect, ClientEvent, NodeEffect, NodeEvent};
use neobft::packet::{build_siphash_packet, digest_of};
use neobft::protocol::{Composite, EachThen, Multiplex, OneOf, Protocol, Then};
use neobft::rx::{Rx, RxP256, RxP256Event, Tx, TxEvent};
use neobft::seq::Sequencer;
use neobft::unreplicated;
use neobft::wire::encode_message;
use neobft::App;
use sha2::Digest;
use std::collections::VecDeque;
use std::hash::{Hash, Hasher};

const ABC_SHA256: [u8; 32] = [
    0xba, 0x78, 0x16, 0xbf, 0x8f, 0x01, 0xcf, 0xea, 0x41, 0x41, 0x40, 0xde, 0x5d, 0xae, 0x22, 0x23,
    0xb0, 0x03, 0x61, 0xa3, 0x96, 0x17, 0x7a, 0x9c, 0xb4, 0x10, 0xff, 0x61, 0xf2, 0x00, 0x15, 0xad,
];

#[test]
fn digest_is_sha256_with_sequence_number() {
    let mut buf = vec![0u8; 68];
    buf.extend_from_slice(b"abc");
    let d = digest_of(0x01020304, &buf);
    assert_eq!(&d[..4], &[1, 2, 3, 4]);
    assert_eq!(&d[4..], &ABC_SHA256[4..]);
}

#[test]
fn siphash_slot_holds_keyed_mac() {
    let digest = [7u8; 32];
    let mut buf = vec![0u8; 68];
    buf.extend_from_slice(b"payload");
    let p = build_siphash_packet(2, 4, 6, &digest, &buf);
    let mut h = siphasher::sip::SipHasher::new_with_keys(u64::MAX, 5);
    digest.hash(&mut h);
    assert_eq!(&p[12..16], &h.finish().to_le_bytes()[..4]);
    assert_eq!(&p[0..4], &[0, 0, 0, 2]);
    assert_eq!(&p[16..24], &[0; 8]);
    assert_eq!(&p[68..], b"payload");
}

#[test]
fn sequencer_numbers_and_chains() {
    let mut s = Sequencer::with_link_period(2);
    assert!(s.update(vec![0u8; 10]).is_none());
    let mut pkt = vec![0xffu8; 68];
    pkt.extend_from_slice(b"abc");
    let o1 = s.update(pkt.clone()).unwrap();
    assert_eq!(o1.seq, 1);
    assert_eq!(&o1.packet[..4], &[0, 0, 0, 1]);
    assert_eq!(&o1.packet[4..], &pkt[4..]);
    assert!(o1.link.is_none());
    let o2 = s.update(pkt).unwrap();
    assert_eq!(o2.seq, 2);
    let mut chain = o1.digest.to_vec();
    chain.extend_from_slice(&[0u8; 32]);
    let expect: [u8; 32] = sha2::Sha256::digest(&chain).into();
    assert_eq!(o2.link, Some(expect));
}

#[test]
fn unicast_goes_to_signature_stage() {
    let msg = Message::Reply(Reply { request_num: 1, result: vec![1], replica_id: 0, seq: 1 });
    let mut buf = vec![0u8; 4];
    buf.extend(encode_message(&msg));
    match (Rx::SipHash { id: 0 }).update(buf.clone()) {
        Multiplex::B(RxP256Event::Unicast(b)) => assert_eq!(b, buf),
        _ => panic!("unicast not classified"),
    }
    let out = RxP256::new(None).update(RxP256Event::Unicast(buf)).unwrap();
    assert!(matches!(out, Message::Reply(r) if r.result == vec![1]));
    assert!(matches!((Rx::Reject).update(vec![1, 2, 3, 4, 5]), Multiplex::A(None)));
    assert!(matches!((Rx::SipHash { id: 0 }).update(vec![1, 2]), Multiplex::A(None)));
}

#[test]
fn tx_frames_unicast_and_ingress() {
    let seq_addr = NetAddr::V4 { ip: [10, 0, 0, 1], port: 5001 };
    let other = NetAddr::V4 { ip: [10, 0, 0, 2], port: 5000 };
    let msg = Message::Reply(Reply { request_num: 1, result: vec![], replica_id: 0, seq: 1 });
    let enc = encode_message(&msg);
    let tx = Tx { multicast: Some(seq_addr) };
    match tx.update(NodeEffect::Send(NodeAddr::Socket(other), msg.clone())) {
        TxEvent::Send(a, b) => {
            assert_eq!(a, other);
            assert_eq!(&b[..4], &[0; 4]);
            assert_eq!(&b[4..], &enc[..]);
        }
        _ => panic!(),
    }
    match tx.update(NodeEffect::Send(NodeAddr::Socket(seq_addr), msg.clone())) {
        TxEvent::Send(a, b) => {
                    assert_eq!(a, seq_addr);
            let d: [u8; 32] = sha2::Sha256::digest(&enc).into();
            assert_eq!(&b[..32], &d);
            assert_eq!(&b[32..68], &[0; 36]);
            assert_eq!(&b[68..], &enc[..]);
        }
        _ => panic!(),
    }
    assert!(matches!(tx.update(NodeEffect::Broadcast(msg)), TxEvent::Broadcast(b) if b[..4] == [0; 4]));
}

#[test]
fn node_effects_compose_and_decompose() {
    let s = |n: u32| NodeEffect::Send(NodeAddr::TestReplica(n), n);
    let e = NodeEffect::Nop.compose(s(1));
    assert!(matches!(e, NodeEffect::Send(_, 1)));
    let mut e = e.compose(s(2)).compose(NodeEffect::Nop).compose(s(3));
    let mut order = Vec::new();
    while let Some(x) = e.decompose() {
        match x {
            NodeEffect::Send(_, n) => order.push(n),
            _ => panic!(),
        }
    }
    assert_eq!(order, vec![3, 2, 1]);
    assert!(matches!(e, NodeEffect::Nop));
    // an atom composed with a composition comes first
    match s(1).compose(NodeEffect::Compose(vec![s(2), s(3)])) {
        NodeEffect::Compose(v) => {
            let ns: Vec<u32> = v.iter().map(|x| if let NodeEffect::Send(_, n) = x { *n } else { 0 }).collect();
            assert_eq!(ns, vec![1, 2, 3]);
        }
        _ => panic!(),
    }
    let mut c: ClientEffect<u32> = ClientEffect::Node(NodeEffect::Nop).compose(ClientEffect::Result(vec![4]));
    assert!(matches!(c.decompose(), Some(ClientEffect::Result(r)) if r == vec![4]));
    assert!(c.decompose().is_none());
    let mut n: ClientEffect<u32> = ClientEffect::Node(s(5).compose(s(6)));
    assert!(matches!(n.decompose(), Some(ClientEffect::Node(NodeEffect::Send(_, 6)))));
}

struct Split;
impl Protocol<u32> for Split {
    type Effect = Vec<u32>;
    fn step(&self, event: u32, _after: Self, effect: Vec<u32>) -> bool {
        effect == vec![event, event + 1]
    }
    fn update(&mut self, event: u32) -> Vec<u32> {
        vec![event, event + 1]
    }
}

struct Double;
impl Protocol<u32> for Double {
    type Effect = Vec<u32>;
    fn step(&self, event: u32, _after: Self, effect: Vec<u32>) -> bool {
        effect == vec![event * 2]
    }
    fn update(&mut self, event: u32) -> Vec<u32> {
        vec![event * 2]
    }
}

struct Count(u32);
impl Protocol<Vec<u32>> for Count {
    type Effect = usize;
    fn step(&self, event: Vec<u32>, after: Self, effect: usize) -> bool {
        after.0 == self.0 + 1 && effect == event.len()
    }
    fn update(&mut self, event: Vec<u32>) -> usize {
        self.0 += 1;
        event.len()
    }
}

#[test]
fn stages_compose() {
    let mut p = EachThen(Split, Double);
    assert_eq!(p.update(5), vec![12, 10]);
    let mut q = Then(Split, Count(0));
    assert_eq!(q.update(1), 2);
    assert_eq!(q.1 .0, 1);
    let mut both = (Split, Double);
    assert!(matches!(both.update(Multiplex::B(3)), Multiplex::B(v) if v == vec![6]));
    let mut one: OneOf<Split, Double> = OneOf::B(Double);
    assert_eq!(one.update(4), vec![8]);
    assert_eq!(<Vec<u32> as Composite>::nop().len(), 0);
}

#[test]
fn single_op() {
    let mut client = unreplicated::Client::new(0, NodeAddr::TestClient(0), NodeAddr::TestReplica(0));
    let mut replica = unreplicated::Replica::new(App::Echo);
    let mut results: Vec<Vec<u8>> = Vec::new();
    let mut queue: VecDeque<(NodeAddr, unreplicated::Message)> = VecDeque::new();
    let mut ops = vec![b"hello".to_vec()].into_iter();
    if let ClientEffect::Node(NodeEffect::Send(a, m)) = client.update(ClientEvent::Op(ops.next().unwrap())) {
        queue.push_back((a, m));
    }
    while let Some((dest, msg)) = queue.pop_front() {
        match dest {
            NodeAddr::TestReplica(0) => {
                if let NodeEffect::Send(a, m) = replica.update(NodeEvent::Handle(msg)) {
                    queue.push_back((a, m));
                }
            }
            NodeAddr::TestClient(0) => match client.update(ClientEvent::Node(NodeEvent::Handle(msg))) {
                ClientEffect::Result(r) => {
                    results.push(r);
                    if let Some(op) = ops.next() {
                        if let ClientEffect::Node(NodeEffect::Send(a, m)) = client.update(ClientEvent::Op(op)) {
                            queue.push_back((a, m));
                        }
                    }
                }
                ClientEffect::Node(NodeEffect::Send(a, m)) => queue.push_back((a, m)),
                _ => {}
            },
            _ => unreachable!(),
        }
    }
    assert!(queue.is_empty());
    assert_eq!(results.len(), 1);
    assert_eq!(&*results[0], &b"hello"[..]);
}

#[test]
fn unreplicated_replica_caches_replies() {
    let mut replica = unreplicated::Replica::new(App::Null);
    let req = |seq: u32| {
        unreplicated::Message::Request(unreplicated::Request {
            client_id: 1,
            client_addr: NodeAddr::TestClient(1),
            seq,
            op: b"x".to_vec(),
        })
    };
    assert!(matches!(replica.update(NodeEvent::Handle(req(2))),
        NodeEffect::Send(_, unreplicated::Message::Reply(r)) if r.seq == 2 && r.result.is_empty()));
    assert!(matches!(replica.update(NodeEvent::Handle(req(2))), NodeEffect::Send(_, _)));
    assert!(matches!(replica.update(NodeEvent::Handle(req(1))), NodeEffect::Nop));
    assert!(matches!(replica.update(NodeEvent::Tick), NodeEffect::Nop));
}

#[test]
fn unreplicated_messages_round_trip() {
    let msgs = vec![
        unreplicated::Message::Request(unreplicated::Request {
            client_id: 3,
            client_addr: NodeAddr::Socket(NetAddr::V4 { ip: [1, 2, 3, 4], port: 9 }),
            seq: 8,
            op: b"op".to_vec(),
        }),
        unreplicated::Message::Reply(unreplicated::Reply { seq: 8, result: b"res".to_vec() }),
    ];
    for m in msgs {
        let bytes = unreplicated::encode_message(&m);
        let back = unreplicated::decode_message(&bytes).unwrap();
        assert_eq!(format!("{:?}", back), format!("{:?}", m));
        assert!(unreplicated::decode_message(&bytes[..bytes.len() - 1]).is_none());
    }
    let reply = unreplicated::encode_message(&unreplicated::Message::Reply(unreplicated::Reply { seq: 2, result: vec![5] }));
    assert_eq!(reply, vec![1, 0, 0, 0, 2, 0, 0, 0, 1, 0, 0, 0, 0, 0, 0, 0, 5]);
}
