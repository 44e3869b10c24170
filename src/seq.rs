//! The sequencer: numbers each incoming packet, computes its multicast
//! digest and link hash, and authenticates it for the replicas.
use crate::crypto::{ecdsa_sign, ecdsa_sign_of, secret_key_valid, sha256, sha256_of};
use crate::packet::{
    be32, build_siphash_packet, digest_of, multicast_digest, payload_of, put_be32, put_zeros,
    siphash_packet, zeros, HEADER_LEN,
};
use crate::wire::put_slice;
use vstd::prelude::*;

verus! {

/// Assigns sequence numbers and keeps the link chain.
pub struct Sequencer {
    seq: u32,
    link_hash: [u8; 32],
    /// Every `link_period`-th packet is a link packet; 0 turns links off.
    link_period: u32,
}

/// A packet that the sequencer numbered, before authentication.
pub struct Ordered {
    pub seq: u32,
    pub digest: [u8; 32],
    /// For a link packet, the link hash of the chain before it.
    pub link: Option<[u8; 32]>,
    /// The packet, with the sequence number in its first four bytes.
    pub packet: Vec<u8>,
}

impl Sequencer {
    pub closed spec fn last_seq(&self) -> u32 {
        self.seq
    }

    pub closed spec fn chain(&self) -> Seq<u8> {
        self.link_hash@
    }

    pub closed spec fn period(&self) -> u32 {
        self.link_period
    }

    /// A sequencer that starts at sequence number 1 and never links.
    pub fn default() -> (r: Sequencer)
        ensures
            r.last_seq() == 0,
            r.chain() == zeros(32),
            r.period() == 0,
    {
        Sequencer::with_link_period(0)
    }

    /// A sequencer that makes every `period`-th packet a link packet.
    pub fn with_link_period(period: u32) -> (r: Sequencer)
        ensures
            r.last_seq() == 0,
            r.chain() == zeros(32),
            r.period() == period,
    {
        let z = [0u8; 32];
        assert(z@ =~= zeros(32));
        Sequencer { seq: 0, link_hash: z, link_period: period }
    }

    /// Numbers a packet: the next sequence number goes into its first four
    /// bytes, its digest is computed, and the link chain moves on by
    /// `SHA-256(digest || previous link hash)`. A packet shorter than the
    /// ordered header, or one that would need a number past `u32::MAX`, is
    /// dropped and changes nothing.
    pub fn update(&mut self, packet: Vec<u8>) -> (r: Option<Ordered>)
        ensures
            (packet@.len() < HEADER_LEN || old(self).last_seq() == u32::MAX) <==> r is None,
            r is None ==> *final(self) == *old(self),
            r matches Some(o) ==> {
                let seq = (old(self).last_seq() + 1) as u32;
                &&& o.seq == seq
                &&& final(self).last_seq() == seq
                &&& final(self).period() == old(self).period()
                &&& o.digest@ == multicast_digest(seq, payload_of(packet@))
                &&& o.packet@ == be32(seq) + packet@.subrange(4, packet@.len() as int)
                &&& final(self).chain() == sha256_of(o.digest@ + old(self).chain())
                &&& if old(self).period() != 0 && seq % old(self).period() == 0 {
                    o.link matches Some(l) && l@ == old(self).chain()
                } else {
                    o.link is None
                }
            },
    {
        if packet.len() < HEADER_LEN || self.seq == u32::MAX {
            return None;
        }
        self.seq = self.seq + 1;
        let seq = self.seq;
        let digest = digest_of(seq, packet.as_slice());
        let mut out = packet;
        out.set(0, (seq >> 24) as u8);
        out.set(1, (seq >> 16) as u8);
        out.set(2, (seq >> 8) as u8);
        out.set(3, seq as u8);
        assert(out@ =~= be32(seq) + packet@.subrange(4, packet@.len() as int));
        let link = if self.link_period != 0 && seq % self.link_period == 0 {
            Some(self.link_hash)
        } else {
            None
        };
        let mut input: Vec<u8> = Vec::new();
        put_slice(&mut input, digest.as_slice());
        put_slice(&mut input, self.link_hash.as_slice());
        self.link_hash = sha256(input.as_slice());
        Some(Ordered { seq, digest, link, packet: out })
    }
}

/// Authenticates ordered packets with per-replica SipHash MACs.
pub struct SipHash {
    pub replica_count: u32,
}

/// The number of SipHash packets for a group of `count` replicas.
pub open spec fn packet_count(count: u32) -> int {
    (count as int + 3) / 4
}

impl SipHash {
    /// One packet per group of four replicas; the `k`-th carries the MACs
    /// of replicas `4k .. min(4k + 4, count)` over the digest.
    pub fn sign(&self, o: &Ordered) -> (r: Vec<Vec<u8>>)
        requires
            self.replica_count <= 256,
            o.packet@.len() >= HEADER_LEN,
        ensures
            r@.len() == packet_count(self.replica_count),
            forall|k: int| 0 <= k < r@.len() ==> (#[trigger] r@[k])@.len() == o.packet@.len(),
            forall|k: int| 0 <= k < r@.len() ==> (#[trigger] r@[k])@ == siphash_packet(
                o.seq,
                (4 * k) as u32,
                self.replica_count,
                o.digest@,
                payload_of(o.packet@),
            ),
    {
        let mut out: Vec<Vec<u8>> = Vec::new();
        let mut index: u32 = 0;
        while index < self.replica_count
            invariant
                self.replica_count <= 256,
                o.packet@.len() >= HEADER_LEN,
                index % 4 == 0,
                index <= self.replica_count + 3,
                out@.len() == index / 4,
                forall|k: int| 0 <= k < out@.len() ==> (#[trigger] out@[k])@.len() == o.packet@.len(),
                forall|k: int| 0 <= k < out@.len() ==> (#[trigger] out@[k])@ == siphash_packet(
                    o.seq,
                    (4 * k) as u32,
                    self.replica_count,
                    o.digest@,
                    payload_of(o.packet@),
                ),
            decreases self.replica_count + 4 - index,
        {
            let p = build_siphash_packet(o.seq, index, self.replica_count, &o.digest, o.packet.as_slice());
            out.push(p);
            index = index + 4;
        }
        out
    }
}

/// Authenticates ordered packets with an ECDSA signature over the digest.
pub struct P256 {
    pub secret_key: [u8; 32],
}

/// The signed packet: sequence number, signature, payload.
pub open spec fn signed_packet(seq: u32, signature: Seq<u8>, payload: Seq<u8>) -> Seq<u8> {
    be32(seq) + signature + payload
}

/// The link packet: sequence number, link hash, 32 zero bytes, payload.
pub open spec fn link_packet(seq: u32, link: Seq<u8>, payload: Seq<u8>) -> Seq<u8> {
    be32(seq) + link + zeros(32) + payload
}

impl P256 {
    pub fn new(secret_key: [u8; 32]) -> (r: P256)
        ensures
            r.secret_key == secret_key,
    {
        P256 { secret_key }
    }

    /// A link packet carries its link hash in place of a signature; any
    /// other packet is signed. `None` when the key is not a valid secret
    /// key. The packet keeps its length.
    pub fn update(&self, o: &Ordered) -> (r: Option<Vec<u8>>)
        requires
            o.packet@.len() >= HEADER_LEN,
        ensures
            r matches Some(p) ==> p@.len() == o.packet@.len(),
            match o.link {
                Some(l) => r matches Some(p) && p@ == link_packet(o.seq, l@, payload_of(o.packet@)),
                None => {
                    &&& r is Some <==> secret_key_valid(self.secret_key@)
                    &&& r matches Some(p) ==> p@ == signed_packet(
                        o.seq,
                        ecdsa_sign_of(self.secret_key@, o.digest@),
                        payload_of(o.packet@),
                    )
                },
            },
    {
        let mut out: Vec<u8> = Vec::new();
        put_be32(&mut out, o.seq);
        match &o.link {
            Some(l) => {
                put_slice(&mut out, l.as_slice());
                put_zeros(&mut out, 32);
            },
            None => {
                match ecdsa_sign(&self.secret_key, &o.digest) {
                    Some(sig) => put_slice(&mut out, sig.as_slice()),
                    None => {
                        return None;
                    },
                }
            },
        }
        put_slice(&mut out, vstd::slice::slice_subrange(o.packet.as_slice(), HEADER_LEN, o.packet.len()));
        Some(out)
    }
}

} // verus!
