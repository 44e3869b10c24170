//! The binary encoding of messages: fixed-width little-endian integers,
//! fixed-size byte arrays written as they are, byte strings behind a
//! 64-bit length, and a 32-bit tag in front of each variant.
//!
//! Each decoder reads at a position of a buffer and is exact: it returns a
//! value whose encoding the buffer holds there, and whenever the buffer holds
//! the encoding of some value there, it returns that value.
use crate::message::{
    Message, MessageView, Multicast, MulticastCrypto, NetAddr, NodeAddr, Reply, ReplyView,
    Request, RequestView,
};
use vstd::prelude::*;

verus! {

pub open spec fn le16(x: u16) -> Seq<u8> {
    seq![x as u8, (x >> 8u16) as u8]
}

pub open spec fn le32(x: u32) -> Seq<u8> {
    seq![x as u8, (x >> 8u32) as u8, (x >> 16u32) as u8, (x >> 24u32) as u8]
}

pub open spec fn le64(x: u64) -> Seq<u8> {
    seq![
        x as u8,
        (x >> 8u64) as u8,
        (x >> 16u64) as u8,
        (x >> 24u64) as u8,
        (x >> 32u64) as u8,
        (x >> 40u64) as u8,
        (x >> 48u64) as u8,
        (x >> 56u64) as u8,
    ]
}

/// A byte string behind its length.
pub open spec fn bytes_with_len(b: Seq<u8>) -> Seq<u8> {
    le64(b.len() as u64) + b
}

pub open spec fn net_addr_bytes(a: NetAddr) -> Seq<u8> {
    match a {
        NetAddr::V4 { ip, port } => le32(0) + (ip@ + le16(port)),
        NetAddr::V6 { ip, port } => le32(1) + (ip@ + le16(port)),
    }
}

pub open spec fn node_addr_bytes(a: NodeAddr) -> Seq<u8> {
    match a {
        NodeAddr::TestClient(x) => le32(0) + le32(x),
        NodeAddr::TestReplica(x) => le32(1) + le32(x),
        NodeAddr::Socket(s) => le32(2) + net_addr_bytes(s),
    }
}

pub open spec fn request_bytes(r: RequestView) -> Seq<u8> {
    le32(r.client_id) + (node_addr_bytes(r.client_addr) + (le32(r.request_num) + bytes_with_len(
        r.op,
    )))
}

pub open spec fn crypto_bytes(c: MulticastCrypto) -> Seq<u8> {
    match c {
        MulticastCrypto::SipHash { index, macs } => le32(0) + (seq![index] + macs@),
        MulticastCrypto::P256 { signature } => le32(1) + signature@,
        MulticastCrypto::Link { link_hash } => le32(2) + link_hash@,
    }
}

pub open spec fn multicast_bytes(m: Multicast) -> Seq<u8> {
    le32(m.seq) + (crypto_bytes(m.crypto) + m.digest@)
}

pub open spec fn reply_bytes(r: ReplyView) -> Seq<u8> {
    le32(r.request_num) + (bytes_with_len(r.result) + (seq![r.replica_id] + le32(r.seq)))
}

pub open spec fn message_bytes(m: MessageView) -> Seq<u8> {
    match m {
        MessageView::Request(r) => le32(0) + request_bytes(r),
        MessageView::OrderedRequest(mc, r) => le32(1) + (multicast_bytes(mc) + request_bytes(r)),
        MessageView::Reply(r) => le32(2) + reply_bytes(r),
    }
}

/// `buf` holds `e` at `pos`.
pub open spec fn starts_at(buf: Seq<u8>, pos: int, e: Seq<u8>) -> bool {
    0 <= pos && pos + e.len() <= buf.len() && buf.subrange(pos, pos + e.len()) == e
}

pub(crate) proof fn lemma_split(buf: Seq<u8>, pos: int, a: Seq<u8>, b: Seq<u8>)
    requires
        starts_at(buf, pos, a + b),
    ensures
        starts_at(buf, pos, a),
        starts_at(buf, pos + a.len(), b),
{
    let s = buf.subrange(pos, pos + a.len() + b.len());
    assert(s == a + b);
    assert(buf.subrange(pos, pos + a.len()) =~= s.subrange(0, a.len() as int));
    assert((a + b).subrange(0, a.len() as int) =~= a);
    assert(buf.subrange(pos + a.len(), pos + a.len() + b.len()) =~= s.subrange(
        a.len() as int,
        (a.len() + b.len()) as int,
    ));
    assert((a + b).subrange(a.len() as int, (a.len() + b.len()) as int) =~= b);
}

pub(crate) proof fn lemma_join(buf: Seq<u8>, pos: int, a: Seq<u8>, b: Seq<u8>)
    requires
        starts_at(buf, pos, a),
        starts_at(buf, pos + a.len(), b),
    ensures
        starts_at(buf, pos, a + b),
{
    assert(buf.subrange(pos, pos + a.len() + b.len()) =~= a + b);
}

pub(crate) proof fn lemma_split3(buf: Seq<u8>, pos: int, a: Seq<u8>, b: Seq<u8>, c: Seq<u8>)
    requires
        starts_at(buf, pos, a + (b + c)),
    ensures
        starts_at(buf, pos, a),
        starts_at(buf, pos + a.len(), b),
        starts_at(buf, pos + a.len() + b.len(), c),
{
    lemma_split(buf, pos, a, b + c);
    lemma_split(buf, pos + a.len(), b, c);
}

pub(crate) proof fn lemma_join3(buf: Seq<u8>, pos: int, a: Seq<u8>, b: Seq<u8>, c: Seq<u8>)
    requires
        starts_at(buf, pos, a),
        starts_at(buf, pos + a.len(), b),
        starts_at(buf, pos + a.len() + b.len(), c),
    ensures
        starts_at(buf, pos, a + (b + c)),
{
    lemma_join(buf, pos + a.len(), b, c);
    lemma_join(buf, pos, a, b + c);
}

proof fn lemma_u16_bytes(x: u16)
    ensures
        x == ((x as u8) as u16) | ((((x >> 8u16) as u8) as u16) << 8u16),
{
    assert(x == ((x as u8) as u16) | ((((x >> 8u16) as u8) as u16) << 8u16)) by (bit_vector);
}

proof fn lemma_u16_of(b0: u8, b1: u8)
    ensures
        ({
            let x = (b0 as u16) | ((b1 as u16) << 8u16);
            x as u8 == b0 && (x >> 8u16) as u8 == b1
        }),
{
    assert(((b0 as u16) | ((b1 as u16) << 8u16)) as u8 == b0) by (bit_vector);
    assert((((b0 as u16) | ((b1 as u16) << 8u16)) >> 8u16) as u8 == b1) by (bit_vector);
}

proof fn lemma_u32_bytes(x: u32)
    ensures
        x == ((x as u8) as u32) | ((((x >> 8u32) as u8) as u32) << 8u32) | ((((x >> 16u32) as u8)
            as u32) << 16u32) | ((((x >> 24u32) as u8) as u32) << 24u32),
{
    assert(x == ((x as u8) as u32) | ((((x >> 8u32) as u8) as u32) << 8u32) | ((((x >> 16u32)
        as u8) as u32) << 16u32) | ((((x >> 24u32) as u8) as u32) << 24u32)) by (bit_vector);
}

proof fn lemma_u32_of(b0: u8, b1: u8, b2: u8, b3: u8)
    ensures
        ({
            let x = (b0 as u32) | ((b1 as u32) << 8u32) | ((b2 as u32) << 16u32) | ((b3 as u32)
                << 24u32);
            x as u8 == b0 && (x >> 8u32) as u8 == b1 && (x >> 16u32) as u8 == b2 && (x >> 24u32)
                as u8 == b3
        }),
{
    let x = (b0 as u32) | ((b1 as u32) << 8u32) | ((b2 as u32) << 16u32) | ((b3 as u32) << 24u32);
    assert(x as u8 == b0 && (x >> 8u32) as u8 == b1 && (x >> 16u32) as u8 == b2 && (x >> 24u32)
        as u8 == b3) by (bit_vector)
        requires
            x == (b0 as u32) | ((b1 as u32) << 8u32) | ((b2 as u32) << 16u32) | ((b3 as u32)
                << 24u32),
    ;
}

proof fn lemma_u64_bytes(x: u64)
    ensures
        x == ((x as u8) as u64) | ((((x >> 8u64) as u8) as u64) << 8u64) | ((((x >> 16u64) as u8)
            as u64) << 16u64) | ((((x >> 24u64) as u8) as u64) << 24u64) | ((((x >> 32u64) as u8)
            as u64) << 32u64) | ((((x >> 40u64) as u8) as u64) << 40u64) | ((((x >> 48u64) as u8)
            as u64) << 48u64) | ((((x >> 56u64) as u8) as u64) << 56u64),
{
    assert(x == ((x as u8) as u64) | ((((x >> 8u64) as u8) as u64) << 8u64) | ((((x >> 16u64)
        as u8) as u64) << 16u64) | ((((x >> 24u64) as u8) as u64) << 24u64) | ((((x >> 32u64)
        as u8) as u64) << 32u64) | ((((x >> 40u64) as u8) as u64) << 40u64) | ((((x >> 48u64)
        as u8) as u64) << 48u64) | ((((x >> 56u64) as u8) as u64) << 56u64)) by (bit_vector);
}

proof fn lemma_u64_of(b0: u8, b1: u8, b2: u8, b3: u8, b4: u8, b5: u8, b6: u8, b7: u8)
    ensures
        ({
            let x = (b0 as u64) | ((b1 as u64) << 8u64) | ((b2 as u64) << 16u64) | ((b3 as u64)
                << 24u64) | ((b4 as u64) << 32u64) | ((b5 as u64) << 40u64) | ((b6 as u64)
                << 48u64) | ((b7 as u64) << 56u64);
            x as u8 == b0 && (x >> 8u64) as u8 == b1 && (x >> 16u64) as u8 == b2 && (x >> 24u64)
                as u8 == b3 && (x >> 32u64) as u8 == b4 && (x >> 40u64) as u8 == b5 && (x
                >> 48u64) as u8 == b6 && (x >> 56u64) as u8 == b7
        }),
{
    let x = (b0 as u64) | ((b1 as u64) << 8u64) | ((b2 as u64) << 16u64) | ((b3 as u64) << 24u64)
        | ((b4 as u64) << 32u64) | ((b5 as u64) << 40u64) | ((b6 as u64) << 48u64) | ((b7 as u64)
        << 56u64);
    assert(x as u8 == b0 && (x >> 8u64) as u8 == b1 && (x >> 16u64) as u8 == b2 && (x >> 24u64)
        as u8 == b3 && (x >> 32u64) as u8 == b4 && (x >> 40u64) as u8 == b5 && (x >> 48u64) as u8
        == b6 && (x >> 56u64) as u8 == b7) by (bit_vector)
        requires
            x == (b0 as u64) | ((b1 as u64) << 8u64) | ((b2 as u64) << 16u64) | ((b3 as u64)
                << 24u64) | ((b4 as u64) << 32u64) | ((b5 as u64) << 40u64) | ((b6 as u64)
                << 48u64) | ((b7 as u64) << 56u64),
    ;
}

// ---- encoders

fn put_u8(out: &mut Vec<u8>, x: u8)
    ensures
        final(out)@ == old(out)@ + seq![x],
{
    out.push(x);
}

fn put_u16(out: &mut Vec<u8>, x: u16)
    ensures
        final(out)@ == old(out)@ + le16(x),
{
    out.push(x as u8);
    out.push((x >> 8) as u8);
    assert(out@ =~= old(out)@ + le16(x));
}

pub(crate) fn put_u32(out: &mut Vec<u8>, x: u32)
    ensures
        final(out)@ == old(out)@ + le32(x),
{
    out.push(x as u8);
    out.push((x >> 8) as u8);
    out.push((x >> 16) as u8);
    out.push((x >> 24) as u8);
    assert(out@ =~= old(out)@ + le32(x));
}

fn put_u64(out: &mut Vec<u8>, x: u64)
    ensures
        final(out)@ == old(out)@ + le64(x),
{
    out.push(x as u8);
    out.push((x >> 8) as u8);
    out.push((x >> 16) as u8);
    out.push((x >> 24) as u8);
    out.push((x >> 32) as u8);
    out.push((x >> 40) as u8);
    out.push((x >> 48) as u8);
    out.push((x >> 56) as u8);
    assert(out@ =~= old(out)@ + le64(x));
}

pub(crate) fn put_slice(out: &mut Vec<u8>, b: &[u8])
    ensures
        final(out)@ == old(out)@ + b@,
{
    let mut i: usize = 0;
    while i < b.len()
        invariant
            i <= b@.len(),
            out@ == old(out)@ + b@.subrange(0, i as int),
        decreases b.len() - i,
    {
        out.push(b[i]);
        i += 1;
        assert(out@ =~= old(out)@ + b@.subrange(0, i as int));
    }
    assert(b@.subrange(0, b@.len() as int) =~= b@);
}

pub(crate) fn put_bytes_with_len(out: &mut Vec<u8>, b: &[u8])
    ensures
        final(out)@ == old(out)@ + bytes_with_len(b@),
{
    put_u64(out, b.len() as u64);
    put_slice(out, b);
    assert(out@ =~= old(out)@ + bytes_with_len(b@));
}

fn put_net_addr(out: &mut Vec<u8>, a: &NetAddr)
    ensures
        final(out)@ == old(out)@ + net_addr_bytes(*a),
{
    match a {
        NetAddr::V4 { ip, port } => {
            put_u32(out, 0);
            put_slice(out, ip.as_slice());
            put_u16(out, *port);
        },
        NetAddr::V6 { ip, port } => {
            put_u32(out, 1);
            put_slice(out, ip.as_slice());
            put_u16(out, *port);
        },
    }
    assert(out@ =~= old(out)@ + net_addr_bytes(*a));
}

pub(crate) fn put_node_addr(out: &mut Vec<u8>, a: &NodeAddr)
    ensures
        final(out)@ == old(out)@ + node_addr_bytes(*a),
{
    match a {
        NodeAddr::TestClient(x) => {
            put_u32(out, 0);
            put_u32(out, *x);
        },
        NodeAddr::TestReplica(x) => {
            put_u32(out, 1);
            put_u32(out, *x);
        },
        NodeAddr::Socket(s) => {
            put_u32(out, 2);
            put_net_addr(out, s);
        },
    }
    assert(out@ =~= old(out)@ + node_addr_bytes(*a));
}

pub(crate) fn put_request(out: &mut Vec<u8>, r: &Request)
    ensures
        final(out)@ == old(out)@ + request_bytes(r@),
{
    put_u32(out, r.client_id);
    put_node_addr(out, &r.client_addr);
    put_u32(out, r.request_num);
    put_bytes_with_len(out, r.op.as_slice());
    assert(out@ =~= old(out)@ + request_bytes(r@));
}

fn put_crypto(out: &mut Vec<u8>, c: &MulticastCrypto)
    ensures
        final(out)@ == old(out)@ + crypto_bytes(*c),
{
    match c {
        MulticastCrypto::SipHash { index, macs } => {
            put_u32(out, 0);
            put_u8(out, *index);
            put_slice(out, macs.as_slice());
        },
        MulticastCrypto::P256 { signature } => {
            put_u32(out, 1);
            put_slice(out, signature.as_slice());
        },
        MulticastCrypto::Link { link_hash } => {
            put_u32(out, 2);
            put_slice(out, link_hash.as_slice());
        },
    }
    assert(out@ =~= old(out)@ + crypto_bytes(*c));
}

fn put_multicast(out: &mut Vec<u8>, m: &Multicast)
    ensures
        final(out)@ == old(out)@ + multicast_bytes(*m),
{
    put_u32(out, m.seq);
    put_crypto(out, &m.crypto);
    put_slice(out, m.digest.as_slice());
    assert(out@ =~= old(out)@ + multicast_bytes(*m));
}

fn put_reply(out: &mut Vec<u8>, r: &Reply)
    ensures
        final(out)@ == old(out)@ + reply_bytes(r@),
{
    put_u32(out, r.request_num);
    put_bytes_with_len(out, r.result.as_slice());
    put_u8(out, r.replica_id);
    put_u32(out, r.seq);
    assert(out@ =~= old(out)@ + reply_bytes(r@));
}

/// Appends the encoding of a message to `out`.
pub fn put_message(out: &mut Vec<u8>, m: &Message)
    ensures
        final(out)@ == old(out)@ + message_bytes(m@),
{
    match m {
        Message::Request(r) => {
            put_u32(out, 0);
            put_request(out, r);
        },
        Message::OrderedRequest(mc, r) => {
            put_u32(out, 1);
            put_multicast(out, mc);
            put_request(out, r);
        },
        Message::Reply(r) => {
            put_u32(out, 2);
            put_reply(out, r);
        },
    }
    assert(out@ =~= old(out)@ + message_bytes(m@));
}

/// The encoding of a message.
pub fn encode_message(m: &Message) -> (r: Vec<u8>)
    ensures
        r@ == message_bytes(m@),
{
    let mut out = Vec::new();
    put_message(&mut out, m);
    assert(out@ =~= message_bytes(m@));
    out
}

// ---- decoders

fn get_u8(buf: &[u8], pos: usize) -> (r: Option<(u8, usize)>)
    requires
        pos <= buf@.len(),
    ensures
        r matches Some((x, p)) ==> p == pos + 1 && starts_at(buf@, pos as int, seq![x]),
        forall|x: u8| starts_at(buf@, pos as int, seq![x]) ==> r == Some((x, (pos + 1) as usize)),
{
    if buf.len() - pos < 1 {
        return None;
    }
    let x = buf[pos];
    assert(buf@.subrange(pos as int, pos + 1) =~= seq![x]);
    assert forall|y: u8| starts_at(buf@, pos as int, seq![y]) implies y == x by {
        assert(buf@.subrange(pos as int, pos + 1)[0] == y);
    }
    Some((x, pos + 1))
}

fn get_u16(buf: &[u8], pos: usize) -> (r: Option<(u16, usize)>)
    requires
        pos <= buf@.len(),
    ensures
        r matches Some((x, p)) ==> p == pos + 2 && starts_at(buf@, pos as int, le16(x)),
        forall|x: u16| starts_at(buf@, pos as int, #[trigger] le16(x)) ==> r == Some((x, (pos + 2) as usize)),
{
    if buf.len() - pos < 2 {
        proof {
            assert forall|y: u16| !starts_at(buf@, pos as int, #[trigger] le16(y)) by {}
        }
        return None;
    }
    let b0 = buf[pos];
    let b1 = buf[pos + 1];
    let x: u16 = (b0 as u16) | ((b1 as u16) << 8);
    proof {
        lemma_u16_of(b0, b1);
        assert(buf@.subrange(pos as int, pos + 2) =~= le16(x));
        assert forall|y: u16| starts_at(buf@, pos as int, #[trigger] le16(y)) implies y == x by {
            let s = buf@.subrange(pos as int, pos + 2);
            assert(s[0] == b0 && s[1] == b1);
            lemma_u16_bytes(y);
        }
    }
    Some((x, pos + 2))
}

pub(crate) fn get_u32(buf: &[u8], pos: usize) -> (r: Option<(u32, usize)>)
    requires
        pos <= buf@.len(),
    ensures
        r matches Some((x, p)) ==> p == pos + 4 && starts_at(buf@, pos as int, le32(x)),
        forall|x: u32| starts_at(buf@, pos as int, #[trigger] le32(x)) ==> r == Some((x, (pos + 4) as usize)),
{
    if buf.len() - pos < 4 {
        proof {
            assert forall|y: u32| !starts_at(buf@, pos as int, #[trigger] le32(y)) by {}
        }
        return None;
    }
    let b0 = buf[pos];
    let b1 = buf[pos + 1];
    let b2 = buf[pos + 2];
    let b3 = buf[pos + 3];
    let x: u32 = (b0 as u32) | ((b1 as u32) << 8) | ((b2 as u32) << 16) | ((b3 as u32) << 24);
    proof {
        lemma_u32_of(b0, b1, b2, b3);
        assert(buf@.subrange(pos as int, pos + 4) =~= le32(x));
        assert forall|y: u32| starts_at(buf@, pos as int, #[trigger] le32(y)) implies y == x by {
            let s = buf@.subrange(pos as int, pos + 4);
            assert(s[0] == b0 && s[1] == b1 && s[2] == b2 && s[3] == b3);
            lemma_u32_bytes(y);
        }
    }
    Some((x, pos + 4))
}

fn get_u64(buf: &[u8], pos: usize) -> (r: Option<(u64, usize)>)
    requires
        pos <= buf@.len(),
    ensures
        r matches Some((x, p)) ==> p == pos + 8 && starts_at(buf@, pos as int, le64(x)),
        forall|x: u64| starts_at(buf@, pos as int, #[trigger] le64(x)) ==> r == Some((x, (pos + 8) as usize)),
{
    if buf.len() - pos < 8 {
        proof {
            assert forall|y: u64| !starts_at(buf@, pos as int, #[trigger] le64(y)) by {}
        }
        return None;
    }
    let b0 = buf[pos];
    let b1 = buf[pos + 1];
    let b2 = buf[pos + 2];
    let b3 = buf[pos + 3];
    let b4 = buf[pos + 4];
    let b5 = buf[pos + 5];
    let b6 = buf[pos + 6];
    let b7 = buf[pos + 7];
    let x: u64 = (b0 as u64) | ((b1 as u64) << 8) | ((b2 as u64) << 16) | ((b3 as u64) << 24) | ((
    b4 as u64) << 32) | ((b5 as u64) << 40) | ((b6 as u64) << 48) | ((b7 as u64) << 56);
    proof {
        lemma_u64_of(b0, b1, b2, b3, b4, b5, b6, b7);
        assert(buf@.subrange(pos as int, pos + 8) =~= le64(x));
        assert forall|y: u64| starts_at(buf@, pos as int, #[trigger] le64(y)) implies y == x by {
            let s = buf@.subrange(pos as int, pos + 8);
            assert(s[0] == b0 && s[1] == b1 && s[2] == b2 && s[3] == b3);
            assert(s[4] == b4 && s[5] == b5 && s[6] == b6 && s[7] == b7);
            lemma_u64_bytes(y);
        }
    }
    Some((x, pos + 8))
}

/// The `N` bytes at `pos`.
pub fn read_array<const N: usize>(buf: &[u8], pos: usize) -> (r: [u8; N])
    requires
        pos + N <= buf@.len(),
    ensures
        r@ == buf@.subrange(pos as int, pos + N),
{
    let len = buf.len();
    let mut out = [0u8; N];
    let mut i: usize = 0;
    while i < N
        invariant
            i <= N,
            len == buf@.len(),
            pos + N <= buf@.len(),
            forall|j: int| 0 <= j < i ==> out@[j] == buf@[pos + j],
        decreases N - i,
    {
        out[i] = buf[pos + i];
        i += 1;
    }
    assert(out@ =~= buf@.subrange(pos as int, pos + N));
    out
}

/// Reads `N` bytes as they are.
pub(crate) fn get_array<const N: usize>(buf: &[u8], pos: usize) -> (r: Option<([u8; N], usize)>)
    requires
        pos <= buf@.len(),
    ensures
        r matches Some((a, p)) ==> p == pos + N && starts_at(buf@, pos as int, a@),
        forall|a: [u8; N]| starts_at(buf@, pos as int, #[trigger] a@) ==> r == Some((a, (pos + N) as usize)),
{
    broadcast use vstd::array::group_array_axioms;

    if buf.len() - pos < N {
        return None;
    }
    let out = read_array::<N>(buf, pos);
    proof {
        assert(buf@.subrange(pos as int, pos + N) =~= out@);
        assert forall|a: [u8; N]| starts_at(buf@, pos as int, #[trigger] a@) implies a == out by {
            assert forall|j: int| 0 <= j < N implies a[j] == out[j] by {
                assert(buf@.subrange(pos as int, pos + N)[j] == buf@[pos + j]);
            }
            assert(a =~= out);
        }
    }
    Some((out, pos + N))
}

pub(crate) fn get_bytes_with_len(buf: &[u8], pos: usize) -> (r: Option<(Vec<u8>, usize)>)
    requires
        pos <= buf@.len(),
    ensures
        r matches Some((b, p)) ==> p == pos + bytes_with_len(b@).len() && starts_at(buf@, pos as int, bytes_with_len(b@)),
        forall|b: Seq<u8>| starts_at(buf@, pos as int, #[trigger] bytes_with_len(b)) ==> (r matches Some((c, p))
            && c@ == b && p == pos + bytes_with_len(b).len()),
{
    let (n, p) = match get_u64(buf, pos) {
        Some(x) => x,
        None => {
            proof {
                assert forall|b: Seq<u8>| !starts_at(buf@, pos as int, #[trigger] bytes_with_len(b)) by {
                    if starts_at(buf@, pos as int, bytes_with_len(b)) {
                        lemma_split(buf@, pos as int, le64(b.len() as u64), b);
                    }
                }
            }
            return None;
        },
    };
    if n > (buf.len() - p) as u64 {
        proof {
            assert forall|b: Seq<u8>| !starts_at(buf@, pos as int, #[trigger] bytes_with_len(b)) by {
                if starts_at(buf@, pos as int, bytes_with_len(b)) {
                    lemma_split(buf@, pos as int, le64(b.len() as u64), b);
                }
            }
        }
        return None;
    }
    let end = p + n as usize;
    let c = vstd::slice::slice_to_vec(vstd::slice::slice_subrange(buf, p, end));
    proof {
        assert(c@ =~= buf@.subrange(p as int, end as int));
        assert(c@.len() as u64 == n);
        lemma_join(buf@, pos as int, le64(n), c@);
        assert forall|b: Seq<u8>| starts_at(buf@, pos as int, #[trigger] bytes_with_len(b)) implies c@ == b by {
            lemma_split(buf@, pos as int, le64(b.len() as u64), b);
        }
    }
    Some((c, end))
}

proof fn lemma_tag_differs(buf: Seq<u8>, pos: int, t: u32, u: u32)
    requires
        starts_at(buf, pos, le32(t)),
        starts_at(buf, pos, le32(u)),
    ensures
        t == u,
{
    let s = buf.subrange(pos, pos + 4);
    assert(s[0] == t as u8 && s[1] == (t >> 8u32) as u8 && s[2] == (t >> 16u32) as u8 && s[3] == (t >> 24u32) as u8);
    lemma_u32_bytes(t);
    lemma_u32_bytes(u);
}

fn get_net_addr(buf: &[u8], pos: usize) -> (r: Option<(NetAddr, usize)>)
    requires
        pos <= buf@.len(),
    ensures
        r matches Some((a, p)) ==> p == pos + net_addr_bytes(a).len() && starts_at(buf@, pos as int, net_addr_bytes(a)),
        forall|a: NetAddr| starts_at(buf@, pos as int, #[trigger] net_addr_bytes(a)) ==> r == Some((a, (pos + net_addr_bytes(a).len()) as usize)),
{
    let ghost b = buf@;
    let ghost ps = pos as int;
    let (tag, at1) = match get_u32(buf, pos) {
        Some(x) => x,
        None => {
            proof {
                assert forall|a: NetAddr| !starts_at(b, ps, #[trigger] net_addr_bytes(a)) by {
                    if starts_at(b, ps, net_addr_bytes(a)) {
                        match a {
                            NetAddr::V4 { ip, port } => lemma_split(b, ps, le32(0), ip@ + le16(port)),
                            NetAddr::V6 { ip, port } => lemma_split(b, ps, le32(1), ip@ + le16(port)),
                        }
                    }
                }
            }
            return None;
        },
    };
    if tag == 0 {
        let (ip, at2) = match get_array::<4>(buf, at1) {
            Some(x) => x,
            None => {
                proof {
                    assert forall|a: NetAddr| !starts_at(b, ps, #[trigger] net_addr_bytes(a)) by {
                        if starts_at(b, ps, net_addr_bytes(a)) {
                            match a {
                                NetAddr::V4 { ip, port } => lemma_split3(b, ps, le32(0), ip@, le16(port)),
                                NetAddr::V6 { ip, port } => { lemma_split(b, ps, le32(1), ip@ + le16(port)); lemma_tag_differs(b, ps, 0, 1); },
                            }
                        }
                    }
                }
                return None;
            },
        };
        let (port, at3) = match get_u16(buf, at2) {
            Some(x) => x,
            None => {
                proof {
                    assert forall|a: NetAddr| !starts_at(b, ps, #[trigger] net_addr_bytes(a)) by {
                        if starts_at(b, ps, net_addr_bytes(a)) {
                            match a {
                                NetAddr::V4 { ip, port } => lemma_split3(b, ps, le32(0), ip@, le16(port)),
                                NetAddr::V6 { ip, port } => { lemma_split(b, ps, le32(1), ip@ + le16(port)); lemma_tag_differs(b, ps, 0, 1); },
                            }
                        }
                    }
                }
                return None;
            },
        };
        let r = NetAddr::V4 { ip, port };
        proof {
            lemma_join3(b, ps, le32(0), ip@, le16(port));
            assert forall|a: NetAddr| starts_at(b, ps, #[trigger] net_addr_bytes(a)) implies a == r by {
                match a {
                    NetAddr::V4 { ip, port } => lemma_split3(b, ps, le32(0), ip@, le16(port)),
                    NetAddr::V6 { ip, port } => { lemma_split(b, ps, le32(1), ip@ + le16(port)); lemma_tag_differs(b, ps, 0, 1); },
                }
            }
        }
        Some((r, at3))
    } else if tag == 1 {
        let (ip, at2) = match get_array::<16>(buf, at1) {
            Some(x) => x,
            None => {
                proof {
                    assert forall|a: NetAddr| !starts_at(b, ps, #[trigger] net_addr_bytes(a)) by {
                        if starts_at(b, ps, net_addr_bytes(a)) {
                            match a {
                                NetAddr::V6 { ip, port } => lemma_split3(b, ps, le32(1), ip@, le16(port)),
                                NetAddr::V4 { ip, port } => { lemma_split(b, ps, le32(0), ip@ + le16(port)); lemma_tag_differs(b, ps, 0, 1); },
                            }
                        }
                    }
                }
                return None;
            },
        };
        let (port, at3) = match get_u16(buf, at2) {
            Some(x) => x,
            None => {
                proof {
                    assert forall|a: NetAddr| !starts_at(b, ps, #[trigger] net_addr_bytes(a)) by {
                        if starts_at(b, ps, net_addr_bytes(a)) {
                            match a {
                                NetAddr::V6 { ip, port } => lemma_split3(b, ps, le32(1), ip@, le16(port)),
                                NetAddr::V4 { ip, port } => { lemma_split(b, ps, le32(0), ip@ + le16(port)); lemma_tag_differs(b, ps, 0, 1); },
                            }
                        }
                    }
                }
                return None;
            },
        };
        let r = NetAddr::V6 { ip, port };
        proof {
            lemma_join3(b, ps, le32(1), ip@, le16(port));
            assert forall|a: NetAddr| starts_at(b, ps, #[trigger] net_addr_bytes(a)) implies a == r by {
                match a {
                    NetAddr::V6 { ip, port } => lemma_split3(b, ps, le32(1), ip@, le16(port)),
                    NetAddr::V4 { ip, port } => { lemma_split(b, ps, le32(0), ip@ + le16(port)); lemma_tag_differs(b, ps, 0, 1); },
                }
            }
        }
        Some((r, at3))
    } else {
        proof {
            assert forall|a: NetAddr| !starts_at(b, ps, #[trigger] net_addr_bytes(a)) by {
                if starts_at(b, ps, net_addr_bytes(a)) {
                    match a {
                        NetAddr::V4 { ip, port } => lemma_split(b, ps, le32(0), ip@ + le16(port)),
                        NetAddr::V6 { ip, port } => lemma_split(b, ps, le32(1), ip@ + le16(port)),
                    }
                }
            }
        }
        None
    }
}

proof fn lemma_node_addr_parts(b: Seq<u8>, ps: int, a: NodeAddr)
    requires
        starts_at(b, ps, node_addr_bytes(a)),
    ensures
        match a {
            NodeAddr::TestClient(x) => starts_at(b, ps, le32(0)) && starts_at(b, ps + 4, le32(x)),
            NodeAddr::TestReplica(x) => starts_at(b, ps, le32(1)) && starts_at(b, ps + 4, le32(x)),
            NodeAddr::Socket(s) => starts_at(b, ps, le32(2)) && starts_at(b, ps + 4, net_addr_bytes(s)),
        },
{
    match a {
        NodeAddr::TestClient(x) => lemma_split(b, ps, le32(0), le32(x)),
        NodeAddr::TestReplica(x) => lemma_split(b, ps, le32(1), le32(x)),
        NodeAddr::Socket(s) => lemma_split(b, ps, le32(2), net_addr_bytes(s)),
    }
}

pub(crate) fn get_node_addr(buf: &[u8], pos: usize) -> (r: Option<(NodeAddr, usize)>)
    requires
        pos <= buf@.len(),
    ensures
        r matches Some((a, p)) ==> p == pos + node_addr_bytes(a).len() && starts_at(buf@, pos as int, node_addr_bytes(a)),
        forall|a: NodeAddr| starts_at(buf@, pos as int, #[trigger] node_addr_bytes(a)) ==> r == Some((a, (pos + node_addr_bytes(a).len()) as usize)),
{
    let ghost b = buf@;
    let ghost ps = pos as int;
    let (tag, at1) = match get_u32(buf, pos) {
        Some(x) => x,
        None => {
            proof {
                assert forall|a: NodeAddr| !starts_at(b, ps, #[trigger] node_addr_bytes(a)) by {
                    if starts_at(b, ps, node_addr_bytes(a)) { lemma_node_addr_parts(b, ps, a); }
                }
            }
            return None;
        },
    };
    let r = if tag == 0 || tag == 1 {
        match get_u32(buf, at1) {
            Some((x, at2)) => {
                let a = if tag == 0 { NodeAddr::TestClient(x) } else { NodeAddr::TestReplica(x) };
                proof { lemma_join(b, ps, le32(tag), le32(x)); }
                Some((a, at2))
            },
            None => None,
        }
    } else if tag == 2 {
        match get_net_addr(buf, at1) {
            Some((s, at2)) => {
                proof { lemma_join(b, ps, le32(2), net_addr_bytes(s)); }
                Some((NodeAddr::Socket(s), at2))
            },
            None => None,
        }
    } else {
        None
    };
    proof {
        assert forall|a: NodeAddr| starts_at(b, ps, #[trigger] node_addr_bytes(a)) implies r == Some((a, (pos + node_addr_bytes(a).len()) as usize)) by {
            lemma_node_addr_parts(b, ps, a);
        }
    }
    r
}

pub(crate) proof fn lemma_request_parts(b: Seq<u8>, ps: int, r: RequestView)
    requires
        starts_at(b, ps, request_bytes(r)),
    ensures
        starts_at(b, ps, le32(r.client_id)),
        starts_at(b, ps + 4, node_addr_bytes(r.client_addr)),
        starts_at(b, ps + 4 + node_addr_bytes(r.client_addr).len(), le32(r.request_num)),
        starts_at(b, ps + 8 + node_addr_bytes(r.client_addr).len(), bytes_with_len(r.op)),
{
    lemma_split(b, ps, le32(r.client_id), node_addr_bytes(r.client_addr) + (le32(r.request_num) + bytes_with_len(r.op)));
    lemma_split3(b, ps + 4, node_addr_bytes(r.client_addr), le32(r.request_num), bytes_with_len(r.op));
}

pub(crate) fn get_request(buf: &[u8], pos: usize) -> (r: Option<(Request, usize)>)
    requires
        pos <= buf@.len(),
    ensures
        r matches Some((v, p)) ==> p == pos + request_bytes(v@).len() && starts_at(buf@, pos as int, request_bytes(v@)),
        forall|v: RequestView| starts_at(buf@, pos as int, #[trigger] request_bytes(v)) ==> (r matches Some((w, p))
            && w@ == v && p == pos + request_bytes(v).len()),
{
    let ghost b = buf@;
    let ghost ps = pos as int;
    let o1 = get_u32(buf, pos);
    if o1.is_none() {
        proof {
            assert forall|v: RequestView| !starts_at(b, ps, #[trigger] request_bytes(v)) by {
                if starts_at(b, ps, request_bytes(v)) { lemma_request_parts(b, ps, v); }
            }
        }
        return None;
    }
    let (client_id, at1) = o1.unwrap();
    let o2 = get_node_addr(buf, at1);
    if o2.is_none() {
        proof {
            assert forall|v: RequestView| !starts_at(b, ps, #[trigger] request_bytes(v)) by {
                if starts_at(b, ps, request_bytes(v)) { lemma_request_parts(b, ps, v); }
            }
        }
        return None;
    }
    let (client_addr, at2) = o2.unwrap();
    let o3 = get_u32(buf, at2);
    if o3.is_none() {
        proof {
            assert forall|v: RequestView| !starts_at(b, ps, #[trigger] request_bytes(v)) by {
                if starts_at(b, ps, request_bytes(v)) { lemma_request_parts(b, ps, v); }
            }
        }
        return None;
    }
    let (request_num, at3) = o3.unwrap();
    let o4 = get_bytes_with_len(buf, at3);
    if o4.is_none() {
        proof {
            assert forall|v: RequestView| !starts_at(b, ps, #[trigger] request_bytes(v)) by {
                if starts_at(b, ps, request_bytes(v)) { lemma_request_parts(b, ps, v); }
            }
        }
        return None;
    }
    let (op, at4) = o4.unwrap();
    let r = Request { client_id, client_addr, request_num, op };
    proof {
        lemma_join3(b, at1 as int, node_addr_bytes(client_addr), le32(request_num), bytes_with_len(op@));
        lemma_join(b, ps, le32(client_id), node_addr_bytes(client_addr) + (le32(request_num) + bytes_with_len(op@)));
        assert forall|v: RequestView| starts_at(b, ps, #[trigger] request_bytes(v)) implies r@ == v by {
            lemma_request_parts(b, ps, v);
        }
    }
    Some((r, at4))
}

proof fn lemma_crypto_parts(b: Seq<u8>, ps: int, c: MulticastCrypto)
    requires
        starts_at(b, ps, crypto_bytes(c)),
    ensures
        match c {
            MulticastCrypto::SipHash { index, macs } => starts_at(b, ps, le32(0)) && starts_at(b, ps + 4, seq![index]) && starts_at(b, ps + 5, macs@),
            MulticastCrypto::P256 { signature } => starts_at(b, ps, le32(1)) && starts_at(b, ps + 4, signature@),
            MulticastCrypto::Link { link_hash } => starts_at(b, ps, le32(2)) && starts_at(b, ps + 4, link_hash@),
        },
{
    match c {
        MulticastCrypto::SipHash { index, macs } => lemma_split3(b, ps, le32(0), seq![index], macs@),
        MulticastCrypto::P256 { signature } => lemma_split(b, ps, le32(1), signature@),
        MulticastCrypto::Link { link_hash } => lemma_split(b, ps, le32(2), link_hash@),
    }
}

fn get_crypto(buf: &[u8], pos: usize) -> (r: Option<(MulticastCrypto, usize)>)
    requires
        pos <= buf@.len(),
    ensures
        r matches Some((c, p)) ==> p == pos + crypto_bytes(c).len() && starts_at(buf@, pos as int, crypto_bytes(c)),
        forall|c: MulticastCrypto| starts_at(buf@, pos as int, #[trigger] crypto_bytes(c)) ==> r == Some((c, (pos + crypto_bytes(c).len()) as usize)),
{
    let ghost b = buf@;
    let ghost ps = pos as int;
    let (tag, at1) = match get_u32(buf, pos) {
        Some(x) => x,
        None => {
            proof {
                assert forall|c: MulticastCrypto| !starts_at(b, ps, #[trigger] crypto_bytes(c)) by {
                    if starts_at(b, ps, crypto_bytes(c)) { lemma_crypto_parts(b, ps, c); }
                }
            }
            return None;
        },
    };
    let r = if tag == 0 {
        match get_u8(buf, at1) {
            Some((index, at2)) => match get_array::<16>(buf, at2) {
                Some((macs, at3)) => {
                    proof { lemma_join3(b, ps, le32(0), seq![index], macs@); }
                    Some((MulticastCrypto::SipHash { index, macs }, at3))
                },
                None => None,
            },
            None => None,
        }
    } else if tag == 1 {
        match get_array::<64>(buf, at1) {
            Some((signature, at2)) => {
                proof { lemma_join(b, ps, le32(1), signature@); }
                Some((MulticastCrypto::P256 { signature }, at2))
            },
            None => None,
        }
    } else if tag == 2 {
        match get_array::<32>(buf, at1) {
            Some((link_hash, at2)) => {
                proof { lemma_join(b, ps, le32(2), link_hash@); }
                Some((MulticastCrypto::Link { link_hash }, at2))
            },
            None => None,
        }
    } else {
        None
    };
    proof {
        assert forall|c: MulticastCrypto| starts_at(b, ps, #[trigger] crypto_bytes(c)) implies r == Some((c, (pos + crypto_bytes(c).len()) as usize)) by {
            lemma_crypto_parts(b, ps, c);
        }
    }
    r
}

proof fn lemma_multicast_parts(b: Seq<u8>, ps: int, m: Multicast)
    requires
        starts_at(b, ps, multicast_bytes(m)),
    ensures
        starts_at(b, ps, le32(m.seq)),
        starts_at(b, ps + 4, crypto_bytes(m.crypto)),
        starts_at(b, ps + 4 + crypto_bytes(m.crypto).len(), m.digest@),
{
    lemma_split3(b, ps, le32(m.seq), crypto_bytes(m.crypto), m.digest@);
}

fn get_multicast(buf: &[u8], pos: usize) -> (r: Option<(Multicast, usize)>)
    requires
        pos <= buf@.len(),
    ensures
        r matches Some((m, p)) ==> p == pos + multicast_bytes(m).len() && starts_at(buf@, pos as int, multicast_bytes(m)),
        forall|m: Multicast| starts_at(buf@, pos as int, #[trigger] multicast_bytes(m)) ==> r == Some((m, (pos + multicast_bytes(m).len()) as usize)),
{
    let ghost b = buf@;
    let ghost ps = pos as int;
    let r = match get_u32(buf, pos) {
        Some((seq, at1)) => match get_crypto(buf, at1) {
            Some((crypto, at2)) => match get_array::<32>(buf, at2) {
                Some((digest, at3)) => {
                    proof { lemma_join3(b, ps, le32(seq), crypto_bytes(crypto), digest@); }
                    Some((Multicast { seq, crypto, digest }, at3))
                },
                None => None,
            },
            None => None,
        },
        None => None,
    };
    proof {
        assert forall|m: Multicast| starts_at(b, ps, #[trigger] multicast_bytes(m)) implies r == Some((m, (pos + multicast_bytes(m).len()) as usize)) by {
            lemma_multicast_parts(b, ps, m);
        }
    }
    r
}

proof fn lemma_reply_parts(b: Seq<u8>, ps: int, r: ReplyView)
    requires
        starts_at(b, ps, reply_bytes(r)),
    ensures
        starts_at(b, ps, le32(r.request_num)),
        starts_at(b, ps + 4, bytes_with_len(r.result)),
        starts_at(b, ps + 4 + bytes_with_len(r.result).len(), seq![r.replica_id]),
        starts_at(b, ps + 5 + bytes_with_len(r.result).len(), le32(r.seq)),
{
    lemma_split(b, ps, le32(r.request_num), bytes_with_len(r.result) + (seq![r.replica_id] + le32(r.seq)));
    lemma_split3(b, ps + 4, bytes_with_len(r.result), seq![r.replica_id], le32(r.seq));
}

fn get_reply(buf: &[u8], pos: usize) -> (r: Option<(Reply, usize)>)
    requires
        pos <= buf@.len(),
    ensures
        r matches Some((v, p)) ==> p == pos + reply_bytes(v@).len() && starts_at(buf@, pos as int, reply_bytes(v@)),
        forall|v: ReplyView| starts_at(buf@, pos as int, #[trigger] reply_bytes(v)) ==> (r matches Some((w, p))
            && w@ == v && p == pos + reply_bytes(v).len()),
{
    let ghost b = buf@;
    let ghost ps = pos as int;
    let o1 = get_u32(buf, pos);
    if o1.is_none() {
        proof {
            assert forall|v: ReplyView| !starts_at(b, ps, #[trigger] reply_bytes(v)) by {
                if starts_at(b, ps, reply_bytes(v)) { lemma_reply_parts(b, ps, v); }
            }
        }
        return None;
    }
    let (request_num, at1) = o1.unwrap();
    let o2 = get_bytes_with_len(buf, at1);
    if o2.is_none() {
        proof {
            assert forall|v: ReplyView| !starts_at(b, ps, #[trigger] reply_bytes(v)) by {
                if starts_at(b, ps, reply_bytes(v)) { lemma_reply_parts(b, ps, v); }
            }
        }
        return None;
    }
    let (result, at2) = o2.unwrap();
    let o3 = get_u8(buf, at2);
    if o3.is_none() {
        proof {
            assert forall|v: ReplyView| !starts_at(b, ps, #[trigger] reply_bytes(v)) by {
                if starts_at(b, ps, reply_bytes(v)) { lemma_reply_parts(b, ps, v); }
            }
        }
        return None;
    }
    let (replica_id, at3) = o3.unwrap();
    let o4 = get_u32(buf, at3);
    if o4.is_none() {
        proof {
            assert forall|v: ReplyView| !starts_at(b, ps, #[trigger] reply_bytes(v)) by {
                if starts_at(b, ps, reply_bytes(v)) { lemma_reply_parts(b, ps, v); }
            }
        }
        return None;
    }
    let (seq, at4) = o4.unwrap();
    let r = Reply { request_num, result, replica_id, seq };
    proof {
        lemma_join3(b, at1 as int, bytes_with_len(result@), seq![replica_id], le32(seq));
        lemma_join(b, ps, le32(request_num), bytes_with_len(result@) + (seq![replica_id] + le32(seq)));
        assert forall|v: ReplyView| starts_at(b, ps, #[trigger] reply_bytes(v)) implies r@ == v by {
            lemma_reply_parts(b, ps, v);
        }
    }
    Some((r, at4))
}

proof fn lemma_message_parts(b: Seq<u8>, ps: int, m: MessageView)
    requires
        starts_at(b, ps, message_bytes(m)),
    ensures
        match m {
            MessageView::Request(r) => starts_at(b, ps, le32(0)) && starts_at(b, ps + 4, request_bytes(r)),
            MessageView::OrderedRequest(mc, r) => starts_at(b, ps, le32(1)) && starts_at(b, ps + 4, multicast_bytes(mc))
                && starts_at(b, ps + 4 + multicast_bytes(mc).len(), request_bytes(r)),
            MessageView::Reply(r) => starts_at(b, ps, le32(2)) && starts_at(b, ps + 4, reply_bytes(r)),
        },
{
    match m {
        MessageView::Request(r) => lemma_split(b, ps, le32(0), request_bytes(r)),
        MessageView::OrderedRequest(mc, r) => lemma_split3(b, ps, le32(1), multicast_bytes(mc), request_bytes(r)),
        MessageView::Reply(r) => lemma_split(b, ps, le32(2), reply_bytes(r)),
    }
}

/// Reads a message at `pos`; what follows it is left alone.
pub fn get_message(buf: &[u8], pos: usize) -> (r: Option<(Message, usize)>)
    requires
        pos <= buf@.len(),
    ensures
        r matches Some((m, p)) ==> p == pos + message_bytes(m@).len() && starts_at(buf@, pos as int, message_bytes(m@)),
        forall|v: MessageView| starts_at(buf@, pos as int, #[trigger] message_bytes(v)) ==> (r matches Some((m, p))
            && m@ == v && p == pos + message_bytes(v).len()),
{
    let ghost b = buf@;
    let ghost ps = pos as int;
    let (tag, at1) = match get_u32(buf, pos) {
        Some(x) => x,
        None => {
            proof {
                assert forall|v: MessageView| !starts_at(b, ps, #[trigger] message_bytes(v)) by {
                    if starts_at(b, ps, message_bytes(v)) { lemma_message_parts(b, ps, v); }
                }
            }
            return None;
        },
    };
    let r = if tag == 0 {
        match get_request(buf, at1) {
            Some((req, at2)) => {
                proof { lemma_join(b, ps, le32(0), request_bytes(req@)); }
                Some((Message::Request(req), at2))
            },
            None => None,
        }
    } else if tag == 1 {
        match get_multicast(buf, at1) {
            Some((mc, at2)) => match get_request(buf, at2) {
                Some((req, at3)) => {
                    proof { lemma_join3(b, ps, le32(1), multicast_bytes(mc), request_bytes(req@)); }
                    Some((Message::OrderedRequest(mc, req), at3))
                },
                None => None,
            },
            None => None,
        }
    } else if tag == 2 {
        match get_reply(buf, at1) {
            Some((rep, at2)) => {
                proof { lemma_join(b, ps, le32(2), reply_bytes(rep@)); }
                Some((Message::Reply(rep), at2))
            },
            None => None,
        }
    } else {
        None
    };
    proof {
        assert forall|v: MessageView| starts_at(b, ps, #[trigger] message_bytes(v)) implies (r matches Some((m, p))
            && m@ == v && p == pos + message_bytes(v).len()) by {
            lemma_message_parts(b, ps, v);
        }
    }
    r
}

/// Decodes the message at the start of `buf`, ignoring any trailing bytes.
///
/// Round trip: on every buffer that begins with the encoding of a message,
/// this returns that message; and whatever it returns, the buffer begins
/// with its encoding.
pub fn decode_message(buf: &[u8]) -> (r: Option<Message>)
    ensures
        r matches Some(m) ==> starts_at(buf@, 0, message_bytes(m@)),
        forall|v: MessageView| starts_at(buf@, 0, #[trigger] message_bytes(v)) ==> (r matches Some(m) && m@ == v),
{
    match get_message(buf, 0) {
        Some((m, _)) => Some(m),
        None => None,
    }
}

} // verus!
