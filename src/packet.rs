//! The layout of ordered packets: a 4-byte big-endian sequence number, a
//! 64-byte authentication region, then the encoded request.
use crate::crypto::{sha256, sha256_of, sip_mac, sip_mac_of};
use crate::wire::put_slice;
use vstd::prelude::*;

verus! {

/// The length of the ordered header.
pub const HEADER_LEN: usize = 68;

pub open spec fn be32(x: u32) -> Seq<u8> {
    seq![(x >> 24u32) as u8, (x >> 16u32) as u8, (x >> 8u32) as u8, x as u8]
}

pub open spec fn zeros(n: nat) -> Seq<u8> {
    Seq::new(n, |i: int| 0u8)
}

/// The multicast digest: the SHA-256 of the payload with its first four
/// bytes replaced by the big-endian sequence number.
pub open spec fn multicast_digest(seq: u32, payload: Seq<u8>) -> Seq<u8> {
    be32(seq) + sha256_of(payload).subrange(4, 32)
}

/// The MAC slot of replica `index + t` in a packet for `count` replicas:
/// its MAC, or zeros where the group has no such replica.
pub open spec fn mac_slot(index: u32, t: u32, count: u32, digest: Seq<u8>) -> Seq<u8> {
    if index + t < count {
        sip_mac_of((index + t) as u8, digest)
    } else {
        zeros(4)
    }
}

/// The SipHash packet that covers replicas `index .. index + 4`.
pub open spec fn siphash_packet(seq: u32, index: u32, count: u32, digest: Seq<u8>, payload: Seq<u8>) -> Seq<u8> {
    be32(seq) + be32(index) + mac_slot(index, 0, count, digest) + mac_slot(index, 1, count, digest)
        + mac_slot(index, 2, count, digest) + mac_slot(index, 3, count, digest) + zeros(44) + payload
}

pub(crate) fn put_be32(out: &mut Vec<u8>, x: u32)
    ensures
        final(out)@ == old(out)@ + be32(x),
{
    out.push((x >> 24) as u8);
    out.push((x >> 16) as u8);
    out.push((x >> 8) as u8);
    out.push(x as u8);
    assert(out@ =~= old(out)@ + be32(x));
}

pub(crate) fn put_zeros(out: &mut Vec<u8>, n: usize)
    ensures
        final(out)@ == old(out)@ + zeros(n as nat),
{
    let mut i: usize = 0;
    while i < n
        invariant
            i <= n,
            out@ == old(out)@ + zeros(i as nat),
        decreases n - i,
    {
        out.push(0u8);
        i += 1;
        assert(out@ =~= old(out)@ + zeros(i as nat));
    }
}

/// Reads a big-endian `u32` at `pos`.
pub(crate) fn read_be32(buf: &[u8], pos: usize) -> (r: u32)
    requires
        pos + 4 <= buf@.len(),
    ensures
        be32(r) == buf@.subrange(pos as int, pos + 4),
{
    let b0 = buf[pos];
    let b1 = buf[pos + 1];
    let b2 = buf[pos + 2];
    let b3 = buf[pos + 3];
    let x: u32 = ((b0 as u32) << 24) | ((b1 as u32) << 16) | ((b2 as u32) << 8) | (b3 as u32);
    assert((x >> 24u32) as u8 == b0 && (x >> 16u32) as u8 == b1 && (x >> 8u32) as u8 == b2 && x as u8 == b3) by (bit_vector)
        requires
            x == ((b0 as u32) << 24u32) | ((b1 as u32) << 16u32) | ((b2 as u32) << 8u32) | (b3 as u32),
    ;
    assert(be32(x) =~= buf@.subrange(pos as int, pos + 4));
    x
}

/// The payload of a packet, after the ordered header.
pub open spec fn payload_of(buf: Seq<u8>) -> Seq<u8> {
    buf.subrange(HEADER_LEN as int, buf.len() as int)
}

/// Computes the multicast digest of a packet's payload under `seq`.
pub fn digest_of(seq: u32, buf: &[u8]) -> (r: [u8; 32])
    requires
        buf@.len() >= HEADER_LEN,
    ensures
        r@ == multicast_digest(seq, payload_of(buf@)),
{
    let payload = vstd::slice::slice_subrange(buf, HEADER_LEN, buf.len());
    let h = sha256(payload);
    let mut d = h;
    d[0] = (seq >> 24) as u8;
    d[1] = (seq >> 16) as u8;
    d[2] = (seq >> 8) as u8;
    d[3] = seq as u8;
    assert(d@ =~= multicast_digest(seq, payload_of(buf@)));
    d
}

/// Builds the SipHash packet for replicas `index .. index + 4` of `count`.
pub fn build_siphash_packet(seq: u32, index: u32, count: u32, digest: &[u8; 32], buf: &[u8]) -> (r: Vec<u8>)
    requires
        buf@.len() >= HEADER_LEN,
        count <= 256,
        index <= 256,
    ensures
        r@ == siphash_packet(seq, index, count, digest@, payload_of(buf@)),
        r@.len() == buf@.len(),
{
    let mut out: Vec<u8> = Vec::new();
    put_be32(&mut out, seq);
    put_be32(&mut out, index);
    let ghost start = out@;
    let mut t: u32 = 0;
    while t < 4
        invariant
            t <= 4,
            index <= 256,
            count <= 256,
            out@.len() == 8 + 4 * t,
            t == 0 ==> out@ == start,
            t == 1 ==> out@ == start + mac_slot(index, 0, count, digest@),
            t == 2 ==> out@ == start + mac_slot(index, 0, count, digest@) + mac_slot(index, 1, count, digest@),
            t == 3 ==> out@ == start + mac_slot(index, 0, count, digest@) + mac_slot(index, 1, count, digest@)
                + mac_slot(index, 2, count, digest@),
            t == 4 ==> out@ == start + mac_slot(index, 0, count, digest@) + mac_slot(index, 1, count, digest@)
                + mac_slot(index, 2, count, digest@) + mac_slot(index, 3, count, digest@),
        decreases 4 - t,
    {
        if index + t < count {
            let mac = sip_mac((index + t) as u8, digest);
            put_slice(&mut out, mac.as_slice());
        } else {
            put_zeros(&mut out, 4);
        }
        t += 1;
    }
    put_zeros(&mut out, 44);
    put_slice(&mut out, vstd::slice::slice_subrange(buf, HEADER_LEN, buf.len()));
    assert(out@ =~= siphash_packet(seq, index, count, digest@, payload_of(buf@)));
    out
}

} // verus!
