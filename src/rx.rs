//! The replica's receive path (classify, authenticate, parse) and the
//! transmit path (frame and encode).
use crate::crypto::{ecdsa_valid, ecdsa_verify, sha256, sha256_of, sip_mac, sip_mac_of};
use crate::message::{
    same_bytes, same_net, Message, MessageView, Multicast, MulticastCrypto, NetAddr, NodeAddr,
    RequestView,
};
use crate::node::NodeEffect;
use crate::packet::{be32, digest_of, multicast_digest, payload_of, read_be32, zeros, HEADER_LEN};
use crate::protocol::Multiplex;
use crate::wire::{decode_message, encode_message, message_bytes, put_slice, read_array, starts_at};
use vstd::prelude::*;

verus! {

/// How a replica authenticates ordered packets.
pub enum Rx {
    /// Checks its own MAC, as replica `id`.
    SipHash { id: u8 },
    /// Hands ordered packets to the signature-checking stage.
    P256,
    /// Accepts no ordered packet.
    Reject,
}

/// Work for the signature-checking stage.
pub enum RxP256Event {
    /// A unicast packet: four zero bytes, then an encoded message.
    Unicast(Vec<u8>),
    /// An ordered packet, whole.
    Multicast(Vec<u8>),
}

/// `payload` parses as an ordered request under header `m`: `r` holds the
/// request whose encoding the payload begins with, or is `None` when it
/// begins with no encoded request.
pub open spec fn parses_ordered(r: Option<Message>, m: Multicast, payload: Seq<u8>) -> bool {
    &&& r matches Some(msg) ==> (msg matches Message::OrderedRequest(mm, req) && mm == m && starts_at(
        payload,
        0,
        message_bytes(MessageView::Request(req@)),
    ))
    &&& forall|v: RequestView| #[trigger] starts_at(payload, 0, message_bytes(MessageView::Request(v)))
        ==> (r matches Some(Message::OrderedRequest(mm, req)) && mm == m && req@ == v)
}

/// The sequence number in a packet's first four bytes.
pub open spec fn seq_of(buf: Seq<u8>) -> u32 {
    choose|x: u32| be32(x) == buf.subrange(0, 4)
}

/// Parses the request of an ordered packet under header `m`; `None` for a
/// packet shorter than the ordered header.
pub fn ordered_request(buf: &[u8], m: Multicast) -> (r: Option<Message>)
    ensures
        buf@.len() < HEADER_LEN ==> r is None,
        buf@.len() >= HEADER_LEN ==> parses_ordered(r, m, payload_of(buf@)),
{
    if buf.len() < HEADER_LEN {
        return None;
    }
    let payload = vstd::slice::slice_subrange(buf, HEADER_LEN, buf.len());
    match decode_message(payload) {
        Some(Message::Request(req)) => Some(Message::OrderedRequest(m, req)),
        _ => None,
    }
}

fn all_zero(b: &[u8]) -> (r: bool)
    ensures
        r == (b@ == zeros(b@.len())),
{
    let mut i: usize = 0;
    while i < b.len()
        invariant
            i <= b@.len(),
            forall|j: int| 0 <= j < i ==> b@[j] == 0,
        decreases b.len() - i,
    {
        if b[i] != 0 {
            assert(b@[i as int] != zeros(b@.len())[i as int]);
            return false;
        }
        i += 1;
    }
    assert(b@ =~= zeros(b@.len()));
    true
}

proof fn lemma_seq_of(buf: Seq<u8>, x: u32)
    requires
        be32(x) == buf.subrange(0, 4),
    ensures
        seq_of(buf) == x,
{
    let y = seq_of(buf);
    assert(be32(y) == buf.subrange(0, 4));
    assert(x == ((((x >> 24u32) as u8) as u32) << 24u32) | ((((x >> 16u32) as u8) as u32) << 16u32)
        | ((((x >> 8u32) as u8) as u32) << 8u32) | ((x as u8) as u32)) by (bit_vector);
    assert(y == ((((y >> 24u32) as u8) as u32) << 24u32) | ((((y >> 16u32) as u8) as u32) << 16u32)
        | ((((y >> 8u32) as u8) as u32) << 8u32) | ((y as u8) as u32)) by (bit_vector);
    assert(be32(x)[0] == be32(y)[0] && be32(x)[1] == be32(y)[1] && be32(x)[2] == be32(y)[2] && be32(x)[3] == be32(y)[3]);
}

/// The SipHash header of an ordered packet.
pub open spec fn siphash_header(buf: Seq<u8>) -> Multicast {
    Multicast {
        seq: seq_of(buf),
        crypto: MulticastCrypto::SipHash {
            index: buf[7],
            macs: choose|a: [u8; 16]| a@ == buf.subrange(8, 24),
        },
        digest: choose|a: [u8; 32]| a@ == multicast_digest(seq_of(buf), payload_of(buf)),
    }
}

/// Whether a SipHash packet fails the MAC check of replica `id`: it covers
/// `id` and the MAC in `id`'s slot is not `id`'s MAC of the digest.
pub open spec fn mac_mismatch(buf: Seq<u8>, id: u8) -> bool {
    let i = buf[7];
    let off = 8 + 4 * (id - i);
    i <= id < i + 4 && buf.subrange(off, off + 4) != sip_mac_of(
        id,
        multicast_digest(seq_of(buf), payload_of(buf)),
    )
}

impl Rx {
    /// Classifies a received packet. A packet that begins with four zero
    /// bytes is unicast and goes to the signature-checking stage. Any other
    /// packet is ordered: under SipHash the replica checks its own MAC, if
    /// the packet covers it, and parses the request; under P-256 the packet
    /// goes to the signature-checking stage. A packet too short for its
    /// header, or one that fails the check, is dropped.
    pub fn update(&self, buf: Vec<u8>) -> (r: Multiplex<Option<Message>, RxP256Event>)
        ensures
            buf@.len() < 4 ==> r == Multiplex::<Option<Message>, RxP256Event>::A(None),
            buf@.len() >= 4 && buf@.subrange(0, 4) == zeros(4) ==> (r matches Multiplex::B(RxP256Event::Unicast(b)) && b@ == buf@),
            buf@.len() >= 4 && buf@.subrange(0, 4) != zeros(4) ==> match *self {
                Rx::Reject => r == Multiplex::<Option<Message>, RxP256Event>::A(None),
                Rx::P256 => buf@.len() < HEADER_LEN && r == Multiplex::<Option<Message>, RxP256Event>::A(None)
                    || buf@.len() >= HEADER_LEN && (r matches Multiplex::B(RxP256Event::Multicast(b)) && b@ == buf@),
                Rx::SipHash { id } => if buf@.len() < HEADER_LEN || mac_mismatch(buf@, id) {
                    r == Multiplex::<Option<Message>, RxP256Event>::A(None)
                } else {
                    r matches Multiplex::A(o) && parses_ordered(o, siphash_header(buf@), payload_of(buf@))
                },
            },
    {
        if buf.len() < 4 {
            return Multiplex::A(None);
        }
        let head = vstd::slice::slice_subrange(buf.as_slice(), 0, 4);
        if all_zero(head) {
            return Multiplex::B(RxP256Event::Unicast(buf));
        }
        match self {
            Rx::Reject => Multiplex::A(None),
            Rx::P256 => {
                if buf.len() < HEADER_LEN {
                    Multiplex::A(None)
                } else {
                    Multiplex::B(RxP256Event::Multicast(buf))
                }
            },
            Rx::SipHash { id } => {
                if buf.len() < HEADER_LEN {
                    return Multiplex::A(None);
                }
                let seq = read_be32(buf.as_slice(), 0);
                proof {
                    lemma_seq_of(buf@, seq);
                }
                let digest = digest_of(seq, buf.as_slice());
                let i = buf[7];
                let id = *id;
                if i <= id && (id as u32) < (i as u32) + 4 {
                    let mac = sip_mac(id, &digest);
                    let off = 8 + 4 * ((id - i) as usize);
                    let slot = vstd::slice::slice_subrange(buf.as_slice(), off, off + 4);
                    if !same_bytes(slot, mac.as_slice()) {
                        return Multiplex::A(None);
                    }
                }
                let macs = read_array::<16>(buf.as_slice(), 8);
                let m = Multicast { seq, crypto: MulticastCrypto::SipHash { index: i, macs }, digest };
                proof {
                    broadcast use vstd::array::group_array_axioms;
                    let h = siphash_header(buf@);
                    let ha = choose|a: [u8; 16]| a@ == buf@.subrange(8, 24);
                    assert(ha@ == buf@.subrange(8, 24));
                    assert(ha =~= macs);
                    let hd = choose|a: [u8; 32]| a@ == multicast_digest(seq_of(buf@), payload_of(buf@));
                    assert(hd@ == multicast_digest(seq_of(buf@), payload_of(buf@)));
                    assert(hd =~= digest);
                    assert(h == m);
                }
                Multiplex::A(ordered_request(buf.as_slice(), m))
            },
        }
    }
}

/// Checks sequencer signatures; holds the sequencer's public key, if any.
pub struct RxP256 {
    pub multicast: Option<[u8; 33]>,
    /// Whether link packets are taken; without it every ordered packet
    /// must carry a valid signature.
    pub links: bool,
}

/// The P-256 header of an ordered packet: with links taken, a link packet
/// when the second half of its authentication region is zero; a signed
/// packet otherwise.
pub open spec fn p256_header(buf: Seq<u8>, links: bool) -> Multicast {
    Multicast {
        seq: seq_of(buf),
        crypto: if links && buf.subrange(36, 68) == zeros(32) {
            MulticastCrypto::Link { link_hash: choose|a: [u8; 32]| a@ == buf.subrange(4, 36) }
        } else {
            MulticastCrypto::P256 { signature: choose|a: [u8; 64]| a@ == buf.subrange(4, 68) }
        },
        digest: choose|a: [u8; 32]| a@ == multicast_digest(seq_of(buf), payload_of(buf)),
    }
}

impl RxP256 {
    /// A stage that takes signed packets only.
    pub fn new(multicast: Option<[u8; 33]>) -> (r: RxP256)
        ensures
            r.multicast == multicast,
            !r.links,
    {
        RxP256 { multicast, links: false }
    }

    /// A stage that also takes link packets, for a sequencer that links.
    pub fn with_links(multicast: Option<[u8; 33]>) -> (r: RxP256)
        ensures
            r.multicast == multicast,
            r.links,
    {
        RxP256 { multicast, links: true }
    }

    /// A unicast packet yields the message after its four zero bytes. An
    /// ordered packet needs the sequencer's key: a signed packet passes when
    /// its signature over the digest verifies; when links are taken, a link
    /// packet passes as it is (the replica checks the link against its
    /// chain).
    pub fn update(&self, event: RxP256Event) -> (r: Option<Message>)
        ensures
            match event {
                RxP256Event::Unicast(buf) => if buf@.len() < 4 {
                    r is None
                } else {
                    let rest = buf@.subrange(4, buf@.len() as int);
                    &&& r matches Some(m) ==> starts_at(rest, 0, message_bytes(m@))
                    &&& forall|v: MessageView| #[trigger] starts_at(rest, 0, message_bytes(v)) ==> (r matches Some(m) && m@ == v)
                },
                RxP256Event::Multicast(buf) => match self.multicast {
                    None => r is None,
                    Some(pk) => if buf@.len() < HEADER_LEN {
                        r is None
                    } else {
                        let h = p256_header(buf@, self.links);
                        if h.crypto is P256 && !ecdsa_valid(pk@, h.digest@, buf@.subrange(4, 68)) {
                            r is None
                        } else {
                            parses_ordered(r, h, payload_of(buf@))
                        }
                    },
                },
            },
    {
        match event {
            RxP256Event::Unicast(buf) => {
                if buf.len() < 4 {
                    return None;
                }
                let rest = vstd::slice::slice_subrange(buf.as_slice(), 4, buf.len());
                decode_message(rest)
            },
            RxP256Event::Multicast(buf) => {
                let pk = match &self.multicast {
                    Some(pk) => pk,
                    None => {
                        return None;
                    },
                };
                if buf.len() < HEADER_LEN {
                    return None;
                }
                let b = buf.as_slice();
                let seq = read_be32(b, 0);
                proof {
                    lemma_seq_of(buf@, seq);
                }
                let digest = digest_of(seq, b);
                let tail = vstd::slice::slice_subrange(b, 36, 68);
                let crypto = if self.links && all_zero(tail) {
                    MulticastCrypto::Link { link_hash: read_array::<32>(b, 4) }
                } else {
                    let signature = read_array::<64>(b, 4);
                    if !ecdsa_verify(pk, &digest, &signature) {
                        proof {
                            broadcast use vstd::array::group_array_axioms;
                            let hd = choose|a: [u8; 32]| a@ == multicast_digest(seq_of(buf@), payload_of(buf@));
                            assert(hd@ == digest@);
                            assert(hd =~= digest);
                            assert(buf@.subrange(36, 68) =~= tail@);
                        }
                        return None;
                    }
                    MulticastCrypto::P256 { signature }
                };
                let m = Multicast { seq, crypto, digest };
                proof {
                    broadcast use vstd::array::group_array_axioms;
                    let h = p256_header(buf@, self.links);
                    assert(buf@.subrange(36, 68) =~= tail@);
                    let hd = choose|a: [u8; 32]| a@ == multicast_digest(seq_of(buf@), payload_of(buf@));
                    assert(hd@ == digest@);
                    assert(hd =~= digest);
                    match crypto {
                        MulticastCrypto::Link { link_hash } => {
                            let a = choose|a: [u8; 32]| a@ == buf@.subrange(4, 36);
                            assert(a@ == link_hash@);
                            assert(a =~= link_hash);
                        },
                        MulticastCrypto::P256 { signature } => {
                            let a = choose|a: [u8; 64]| a@ == buf@.subrange(4, 68);
                            assert(a@ == signature@);
                            assert(a =~= signature);
                        },
                        _ => {},
                    }
                    assert(h == m);
                }
                ordered_request(b, m)
            },
        }
    }
}

/// A datagram to send.
pub enum TxEvent {
    Send(NetAddr, Vec<u8>),
    Broadcast(Vec<u8>),
}

/// Frames outgoing messages; `multicast` is the sequencer's address.
pub struct Tx {
    pub multicast: Option<NetAddr>,
}

/// The unicast frame: four zero bytes, then the message.
pub open spec fn unicast_frame(m: MessageView) -> Seq<u8> {
    zeros(4) + message_bytes(m)
}

/// The frame for the sequencer: the digest of the message, 36 zero bytes,
/// then the message.
pub open spec fn sequencer_frame(m: MessageView) -> Seq<u8> {
    sha256_of(message_bytes(m)) + zeros(36) + message_bytes(m)
}

impl Tx {
    /// Frames a send or a broadcast. A message to the sequencer's address
    /// carries the ingress header; any other goes out as unicast.
    pub fn update(&self, event: NodeEffect<Message>) -> (r: TxEvent)
        requires
            event matches NodeEffect::Broadcast(_) || event matches NodeEffect::Send(NodeAddr::Socket(_), _),
        ensures
            match event {
                NodeEffect::Broadcast(m) => r matches TxEvent::Broadcast(b) && b@ == unicast_frame(m@),
                NodeEffect::Send(NodeAddr::Socket(a), m) => if self.multicast == Some(a) {
                    r matches TxEvent::Send(to, b) && to == a && b@ == sequencer_frame(m@)
                } else {
                    r matches TxEvent::Send(to, b) && to == a && b@ == unicast_frame(m@)
                },
                _ => false,
            },
    {
        match event {
            NodeEffect::Broadcast(m) => {
                let mut out: Vec<u8> = Vec::new();
                crate::packet::put_zeros(&mut out, 4);
                crate::wire::put_message(&mut out, &m);
                TxEvent::Broadcast(out)
            },
            NodeEffect::Send(NodeAddr::Socket(a), m) => {
                let to_sequencer = match &self.multicast {
                    Some(s) => same_net(s, &a),
                    None => false,
                };
                let enc = encode_message(&m);
                let mut out: Vec<u8> = Vec::new();
                if to_sequencer {
                    let d = sha256(enc.as_slice());
                    put_slice(&mut out, d.as_slice());
                    crate::packet::put_zeros(&mut out, 36);
                } else {
                    crate::packet::put_zeros(&mut out, 4);
                }
                put_slice(&mut out, enc.as_slice());
                TxEvent::Send(a, out)
            },
            _ => TxEvent::Broadcast(Vec::new()),
        }
    }
}

} // verus!
