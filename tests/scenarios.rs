use neobft::client::Client;
use neobft::message::{Message, NodeAddr, Reply, Request};
use neobft::node::{ClientEffect, ClientEvent, NodeEffect, NodeEvent};
use neobft::protocol::Multiplex;
use neobft::replica::Replica;
use neobft::rx::{Rx, RxP256, RxP256Event, Tx, TxEvent};
use neobft::seq::{Sequencer, SipHash, P256};
use neobft::wire::encode_message;
use neobft::App;

fn request(client_id: u32, request_num: u32, op: &[u8]) -> Request {
    Request {
        client_id,
        client_addr: NodeAddr::TestClient(client_id),
        request_num,
        op: op.to_vec(),
    }
}

fn ingress(req: &Request) -> Vec<u8> {
    let mut p = vec![0u8; 68];
    p.extend(encode_message(&Message::Request(req.clone())));
    p
}

fn sip_packets(seq: &mut Sequencer, count: u32, req: &Request) -> Vec<Vec<u8>> {
    let o = seq.update(ingress(req)).unwrap();
    SipHash { replica_count: count }.sign(&o)
}

fn receive(rx: &Rx, pkt: Vec<u8>) -> Option<Message> {
    match rx.update(pkt) {
        Multiplex::A(m) => m,
        Multiplex::B(_) => panic!("not an ordered SipHash packet"),
    }
}

fn deliver(replica: &mut Replica, msg: Message) -> Vec<(NodeAddr, Reply)> {
    replica
        .update(NodeEvent::Handle(msg))
        .into_iter()
        .map(|e| match e {
            NodeEffect::Send(a, Message::Reply(r)) => (a, r),
            _ => panic!("replica effect is not a reply"),
        })
        .collect()
}

const KEY: [u8; 32] = [
    b's', b'e', b'q', 0, 0, 0, 0, 0, 0, 0, 0, 0, 0, 0, 0, 0, 0, 0, 0, 0, 0, 0, 0, 0, 0, 0, 0, 0,
    0, 0, 0, 0,
];

fn public_key() -> [u8; 33] {
    secp256k1::SecretKey::from_slice(&KEY)
        .unwrap()
        .public_key(&secp256k1::Secp256k1::new())
        .serialize()
}

fn p256_packet(seq: &mut Sequencer, req: &Request) -> Vec<u8> {
    let o = seq.update(ingress(req)).unwrap();
    P256::new(KEY).update(&o).unwrap()
}

fn p256_receive(rx: &RxP256, pkt: Vec<u8>) -> Option<Message> {
    rx.update(RxP256Event::Multicast(pkt))
}

#[test]
fn f0_siphash_commits_on_one_mac() {
    let mut seq = Sequencer::default();
    let pkts = sip_packets(&mut seq, 1, &request(1, 1, b"op"));
    assert_eq!(pkts.len(), 1);
    let msg = receive(&Rx::SipHash { id: 0 }, pkts[0].clone()).unwrap();
    let mut replica = Replica::new(0, App::Echo, 0);
    let out = deliver(&mut replica, msg);
    assert_eq!(out.len(), 1);
    assert_eq!(out[0].1.result, b"op".to_vec());
    assert_eq!(replica.committed_num(), 1);
}

#[test]
fn f0_p256_commits_on_one_signature() {
    let mut seq = Sequencer::default();
    let pkt = p256_packet(&mut seq, &request(1, 1, b"op"));
    let msg = p256_receive(&RxP256::new(Some(public_key())), pkt).unwrap();
    let mut replica = Replica::new(0, App::Echo, 0);
    let out = deliver(&mut replica, msg);
    assert_eq!(out.len(), 1);
    assert_eq!(out[0].1.result, b"op".to_vec());
    assert_eq!(out[0].1.seq, 1);
}

#[test]
fn p256_bad_signature_is_dropped() {
    let mut seq = Sequencer::default();
    let mut pkt = p256_packet(&mut seq, &request(1, 1, b"op"));
    pkt[10] ^= 1;
    assert!(p256_receive(&RxP256::new(Some(public_key())), pkt.clone()).is_none());
    assert!(p256_receive(&RxP256::new(None), pkt).is_none());
}

#[test]
fn group_of_seven_last_packet_carries_three_macs() {
    let mut seq = Sequencer::default();
    let pkts = sip_packets(&mut seq, 7, &request(1, 1, b"op"));
    assert_eq!(pkts.len(), 2);
    assert_eq!(&pkts[1][4..8], &[0, 0, 0, 4]);
    assert_ne!(&pkts[1][8..12], &[0, 0, 0, 0]);
    assert_eq!(&pkts[1][20..24], &[0, 0, 0, 0]);
    assert!(pkts[1][24..68].iter().all(|b| *b == 0));
    // replica 1 is not covered by the second packet: it takes it unchecked
    assert!(receive(&Rx::SipHash { id: 1 }, pkts[1].clone()).is_some());
    // replica 5 is covered and checks its MAC
    assert!(receive(&Rx::SipHash { id: 5 }, pkts[1].clone()).is_some());
    let mut bad = pkts[1].clone();
    bad[12] ^= 0xff;
    assert!(receive(&Rx::SipHash { id: 5 }, bad.clone()).is_none());
    assert!(receive(&Rx::SipHash { id: 4 }, bad).is_some());
}

#[test]
fn arrivals_three_one_two_commit_in_order() {
    let mut seq = Sequencer::default();
    let msgs: Vec<Message> = (1..=3)
        .map(|n| {
            let p = sip_packets(&mut seq, 1, &request(1, n, &[n as u8]));
            receive(&Rx::SipHash { id: 0 }, p[0].clone()).unwrap()
        })
        .collect();
    let mut replica = Replica::new(0, App::Echo, 0);
    assert!(deliver(&mut replica, msgs[2].clone()).is_empty());
    let first = deliver(&mut replica, msgs[0].clone());
    assert_eq!(first.len(), 1);
    assert_eq!(first[0].1.seq, 1);
    let rest = deliver(&mut replica, msgs[1].clone());
    let seqs: Vec<u32> = rest.iter().map(|(_, r)| r.seq).collect();
    assert_eq!(seqs, vec![2, 3]);
    assert_eq!(replica.log_len(), 3);
}

#[test]
fn equivocating_pair_second_dropped() {
    // f = 2: the first packet of seq 1 leaves it incomplete (4 of 5 MACs)
    let mut seq_a = Sequencer::default();
    let mut seq_b = Sequencer::default();
    let a = sip_packets(&mut seq_a, 7, &request(1, 1, b"a"));
    let b = sip_packets(&mut seq_b, 7, &request(1, 1, b"b"));
    let rx = Rx::SipHash { id: 0 };
    let mut replica = Replica::new(0, App::Echo, 2);
    assert!(deliver(&mut replica, receive(&rx, a[0].clone()).unwrap()).is_empty());
    assert!(deliver(&mut replica, receive(&rx, b[1].clone()).unwrap()).is_empty());
    assert_eq!(replica.committed_num(), 0);
    let out = deliver(&mut replica, receive(&rx, a[1].clone()).unwrap());
    assert_eq!(out.len(), 1);
    assert_eq!(out[0].1.result, b"a".to_vec());
    assert_eq!(replica.request_at(1).op, b"a".to_vec());
}

#[test]
fn single_op_echo_one_replica_p256() {
    let seq_addr = NodeAddr::Socket(neobft::NetAddr::V4 { ip: [10, 0, 0, 1], port: 5001 });
    let client_addr = NodeAddr::TestClient(0);
    let mut client = Client::new(0, client_addr, seq_addr, 0);
    let effect = client.update(ClientEvent::Op(b"hello".to_vec()));
    let ClientEffect::Node(node_effect) = effect else { panic!() };
    let tx = Tx { multicast: Some(neobft::NetAddr::V4 { ip: [10, 0, 0, 1], port: 5001 }) };
    let TxEvent::Send(_, frame) = tx.update(node_effect) else { panic!() };
    let mut sequencer = Sequencer::default();
    let o = sequencer.update(frame).unwrap();
    assert_eq!(o.seq, 1);
    let pkt = P256::new(KEY).update(&o).unwrap();
    let msg = p256_receive(&RxP256::new(Some(public_key())), pkt).unwrap();
    let mut replica = Replica::new(0, App::Echo, 0);
    let out = deliver(&mut replica, msg);
    assert_eq!(out.len(), 1);
    assert_eq!(out[0].0, client_addr);
    match client.update(ClientEvent::Node(NodeEvent::Handle(Message::Reply(out[0].1.clone())))) {
        ClientEffect::Result(r) => assert_eq!(r, b"hello".to_vec()),
        _ => panic!("no result"),
    }
}

#[test]
fn three_replicas_siphash_f1() {
    let mut client = Client::new(3, NodeAddr::TestClient(3), NodeAddr::TestReplica(99), 1);
    let ClientEffect::Node(NodeEffect::Send(_, Message::Request(req))) =
        client.update(ClientEvent::Op(b"x".to_vec()))
    else {
        panic!()
    };
    let mut seq = Sequencer::default();
    let pkts = sip_packets(&mut seq, 4, &req);
    assert_eq!(pkts.len(), 1);
    let mut delivered = Vec::new();
    for id in 0..3u8 {
        let msg = receive(&Rx::SipHash { id }, pkts[0].clone()).unwrap();
        let mut replica = Replica::new(id, App::Echo, 1);
        let out = deliver(&mut replica, msg);
        assert_eq!(out.len(), 1);
        assert_eq!(out[0].1.result, b"x".to_vec());
        let e = client.update(ClientEvent::Node(NodeEvent::Handle(Message::Reply(out[0].1.clone()))));
        delivered.push(matches!(e, ClientEffect::Result(ref r) if r == b"x"));
    }
    assert_eq!(delivered, vec![false, false, true]);
}

#[test]
fn reorder_two_three_one() {
    let mut seq = Sequencer::default();
    let msgs: Vec<Message> = (1..=3)
        .map(|n| {
            let p = sip_packets(&mut seq, 4, &request(1, n, b"r"));
            receive(&Rx::SipHash { id: 0 }, p[0].clone()).unwrap()
        })
        .collect();
    let mut replica = Replica::new(0, App::Echo, 1);
    assert!(deliver(&mut replica, msgs[1].clone()).is_empty());
    assert!(deliver(&mut replica, msgs[2].clone()).is_empty());
    let out = deliver(&mut replica, msgs[0].clone());
    let seqs: Vec<u32> = out.iter().map(|(_, r)| r.seq).collect();
    assert_eq!(seqs, vec![1, 2, 3]);
}

#[test]
fn duplicate_request_resends_cached_reply() {
    let mut seq = Sequencer::default();
    let req = request(7, 5, b"dup");
    let rx = Rx::SipHash { id: 0 };
    let mut replica = Replica::new(0, App::Echo, 0);
    let first = deliver(&mut replica, receive(&rx, sip_packets(&mut seq, 1, &req)[0].clone()).unwrap());
    assert_eq!(first.len(), 1);
    assert_eq!(first[0].1.seq, 1);
    // the reply is lost; the client resends and the sequencer assigns seq 2
    let second = deliver(&mut replica, receive(&rx, sip_packets(&mut seq, 1, &req)[0].clone()).unwrap());
    assert_eq!(second.len(), 1);
    assert_eq!(second[0].1.request_num, 5);
    assert_eq!(second[0].1.result, b"dup".to_vec());
    // the cached reply moves to the new sequence number
    assert_eq!(second[0].1.seq, 2);
    assert_eq!(second[0].0, NodeAddr::TestClient(7));
    assert_eq!(replica.committed_num(), 2);
}

#[test]
fn stale_request_is_dropped() {
    let mut seq = Sequencer::default();
    let rx = Rx::SipHash { id: 0 };
    let mut replica = Replica::new(0, App::Echo, 0);
    deliver(&mut replica, receive(&rx, sip_packets(&mut seq, 1, &request(7, 6, b"new"))[0].clone()).unwrap());
    let out = deliver(&mut replica, receive(&rx, sip_packets(&mut seq, 1, &request(7, 5, b"old"))[0].clone()).unwrap());
    assert!(out.is_empty());
    assert_eq!(replica.committed_num(), 2);
}

#[test]
fn equivocation_at_seq_two_dropped() {
    let mut seq_a = Sequencer::default();
    let mut seq_b = Sequencer::default();
    let rx = Rx::SipHash { id: 0 };
    let mut replica = Replica::new(0, App::Echo, 2);
    let a1 = sip_packets(&mut seq_a, 7, &request(1, 1, b"one"));
    sip_packets(&mut seq_b, 7, &request(1, 1, b"one"));
    let a2 = sip_packets(&mut seq_a, 7, &request(1, 2, b"first"));
    let b2 = sip_packets(&mut seq_b, 7, &request(1, 2, b"second"));
    deliver(&mut replica, receive(&rx, a1[0].clone()).unwrap());
    deliver(&mut replica, receive(&rx, a1[1].clone()).unwrap());
    assert!(deliver(&mut replica, receive(&rx, a2[0].clone()).unwrap()).is_empty());
    assert!(deliver(&mut replica, receive(&rx, b2[1].clone()).unwrap()).is_empty());
    let out = deliver(&mut replica, receive(&rx, a2[1].clone()).unwrap());
    assert_eq!(out.len(), 1);
    assert_eq!(out[0].1.result, b"first".to_vec());
    assert_eq!(replica.request_at(2).op, b"first".to_vec());
}

#[test]
fn p256_linked_chain_rejects_tampered_link() {
    let mut seq = Sequencer::with_link_period(3);
    let rx = RxP256::with_links(Some(public_key()));
    let mut replica = Replica::new(0, App::Echo, 0);
    let mut pkts = Vec::new();
    for n in 1..=6u32 {
        let o = seq.update(ingress(&request(1, n, &[n as u8]))).unwrap();
        assert_eq!(o.link.is_some(), n % 3 == 0);
        pkts.push(P256::new(KEY).update(&o).unwrap());
    }
    for p in &pkts[..5] {
        let out = deliver(&mut replica, p256_receive(&rx, p.clone()).unwrap());
        assert_eq!(out.len(), 1);
    }
    let mut tampered = pkts[5].clone();
    tampered[4] ^= 1;
    let msg = p256_receive(&rx, tampered).unwrap();
    assert!(deliver(&mut replica, msg).is_empty());
    assert_eq!(replica.log_len(), 5);
    let out = deliver(&mut replica, p256_receive(&rx, pkts[5].clone()).unwrap());
    assert_eq!(out.len(), 1);
    assert_eq!(out[0].1.seq, 6);
}

#[test]
fn replay_after_commit_leaves_state_unchanged() {
    let mut seq = Sequencer::default();
    let rx = Rx::SipHash { id: 0 };
    let mut replica = Replica::new(0, App::Echo, 0);
    let pkt = sip_packets(&mut seq, 1, &request(2, 1, b"once"))[0].clone();
    let first = deliver(&mut replica, receive(&rx, pkt.clone()).unwrap());
    let again = deliver(&mut replica, receive(&rx, pkt.clone()).unwrap());
    assert_eq!(again.len(), 1);
    assert_eq!(again[0].1.result, first[0].1.result);
    assert_eq!(again[0].1.seq, first[0].1.seq);
    assert_eq!(replica.log_len(), 1);
    assert_eq!(replica.committed_num(), 1);
}

#[test]
fn client_quorum_needs_distinct_replicas() {
    let mut client = Client::new(1, NodeAddr::TestClient(1), NodeAddr::TestReplica(9), 1);
    client.update(ClientEvent::Op(b"q".to_vec()));
    let reply = |id: u8, n: u32| Reply { request_num: n, result: b"q".to_vec(), replica_id: id, seq: 1 };
    let mut feed = |r: Reply| client.update(ClientEvent::Node(NodeEvent::Handle(Message::Reply(r))));
    assert!(matches!(feed(reply(0, 1)), ClientEffect::Node(NodeEffect::Nop)));
    assert!(matches!(feed(reply(0, 1)), ClientEffect::Node(NodeEffect::Nop)));
    assert!(matches!(feed(reply(1, 2)), ClientEffect::Node(NodeEffect::Nop)));
    assert!(matches!(feed(reply(1, 1)), ClientEffect::Node(NodeEffect::Nop)));
    assert!(matches!(feed(reply(2, 1)), ClientEffect::Result(_)));
    assert!(matches!(feed(reply(3, 1)), ClientEffect::Node(NodeEffect::Nop)));
}

#[test]
fn client_resends_from_second_tick() {
    let mut client = Client::new(1, NodeAddr::TestClient(1), NodeAddr::TestReplica(9), 0);
    assert!(matches!(client.update(ClientEvent::Node(NodeEvent::Tick)), ClientEffect::Node(NodeEffect::Nop)));
    client.update(ClientEvent::Op(b"t".to_vec()));
    assert!(matches!(client.update(ClientEvent::Node(NodeEvent::Tick)), ClientEffect::Node(NodeEffect::Nop)));
    match client.update(ClientEvent::Node(NodeEvent::Tick)) {
        ClientEffect::Node(NodeEffect::Send(to, Message::Request(r))) => {
            assert_eq!(to, NodeAddr::TestReplica(9));
            assert_eq!(r.request_num, 1);
            assert_eq!(r.op, b"t".to_vec());
        }
        _ => panic!("no resend"),
    }
}

#[test]
fn matching_client_waits_for_agreeing_quorum() {
    let mut client = Client::with_matching_results(1, NodeAddr::TestClient(1), NodeAddr::TestReplica(9), 1);
    client.update(ClientEvent::Op(b"q".to_vec()));
    let reply = |id: u8, res: &[u8]| Reply { request_num: 1, result: res.to_vec(), replica_id: id, seq: 1 };
    let mut feed = |r: Reply| client.update(ClientEvent::Node(NodeEvent::Handle(Message::Reply(r))));
    assert!(matches!(feed(reply(0, b"a")), ClientEffect::Node(NodeEffect::Nop)));
    assert!(matches!(feed(reply(1, b"b")), ClientEffect::Node(NodeEffect::Nop)));
    assert!(matches!(feed(reply(2, b"a")), ClientEffect::Node(NodeEffect::Nop)));
    match feed(reply(3, b"a")) {
        ClientEffect::Result(r) => assert_eq!(r, b"a".to_vec()),
        _ => panic!("no agreeing quorum"),
    }
}

#[test]
fn default_client_does_not_compare_results() {
    let mut client = Client::new(1, NodeAddr::TestClient(1), NodeAddr::TestReplica(9), 1);
    client.update(ClientEvent::Op(b"q".to_vec()));
    let reply = |id: u8, res: &[u8]| Reply { request_num: 1, result: res.to_vec(), replica_id: id, seq: 1 };
    let mut feed = |r: Reply| client.update(ClientEvent::Node(NodeEvent::Handle(Message::Reply(r))));
    feed(reply(0, b"a"));
    feed(reply(1, b"b"));
    assert!(matches!(feed(reply(2, b"c")), ClientEffect::Result(r) if r == b"c".to_vec()));
}

#[test]
fn link_packets_need_a_linking_stage() {
    let mut seq = Sequencer::with_link_period(1);
    let o = seq.update(ingress(&request(1, 1, b"l"))).unwrap();
    let pkt = P256::new(KEY).update(&o).unwrap();
    assert_eq!(pkt.len(), o.packet.len());
    assert!(p256_receive(&RxP256::new(Some(public_key())), pkt.clone()).is_none());
    assert!(p256_receive(&RxP256::with_links(Some(public_key())), pkt).is_some());
}
