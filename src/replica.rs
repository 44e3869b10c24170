//! The replica: authenticates ordered requests, commits them in sequence
//! order, runs the application and replies.
use crate::app::{app_result, App};
use crate::crypto::{sha256, sha256_of};
use crate::message::{same_bytes, Message, Multicast, MulticastCrypto, NodeAddr, Reply, ReplyView, Request, RequestView};
use crate::node::{NodeEffect, NodeEvent};
use crate::wire::put_slice;
use std::collections::HashMap;
use vstd::prelude::*;

verus! {

broadcast use vstd::std_specs::hash::group_hash_axioms;

/// A committed position of the log.
pub struct LogEntry {
    pub request: Request,
    /// The multicast digest of the packet that carried the request.
    pub digest: [u8; 32],
    /// The link hash that a link packet for the next position must carry.
    pub next_link: [u8; 32],
}

/// What authenticates the request at one sequence number.
pub enum MulticastSignature {
    /// The MACs seen so far, by replica id.
    SipHash(HashMap<u8, [u8; 4]>),
    /// A sequencer signature.
    P256([u8; 64]),
    /// A link hash that matched the chain.
    Linked,
}

pub type Effect = Vec<NodeEffect<Message>>;

pub struct Replica {
    id: u8,
    f: usize,
    log: Vec<LogEntry>,
    spec_num: u32,
    multicast_signatures: HashMap<u32, MulticastSignature>,
    reorder_request: HashMap<u32, Vec<(Multicast, Request)>>,
    app: App,
    replies: HashMap<u32, Reply>,
    /// `(client_id, request_num)` of each run of the application, in order.
    executed: Ghost<Seq<(u32, u32)>>,
    /// Every `(seq, request)` that was handed to the log or the reorder buffer.
    received: Ghost<Set<(u32, RequestView)>>,
}

/// The link that precedes the first log position.
pub open spec fn zero_link() -> Seq<u8> {
    Seq::new(32, |i: int| 0u8)
}

/// The ids that a SipHash packet starting at `index` covers in a group of
/// `count` replicas.
pub open spec fn covered(index: u8, count: int) -> Set<u8> {
    Set::new(|j: u8| index <= j < index + 4 && j < count)
}

/// The reply that committing `req` sends, given the client's cached reply:
/// `None` for a stale request, the cached reply moved to the new sequence
/// number for a duplicate, a fresh reply otherwise. The cache then holds the
/// reply sent.
pub open spec fn reply_sent(cached: Option<ReplyView>, req: RequestView, fresh: ReplyView) -> Option<ReplyView> {
    match cached {
        Some(c) => if c.request_num > req.request_num {
            None
        } else if c.request_num == req.request_num {
            Some(ReplyView { seq: fresh.seq, ..c })
        } else {
            Some(fresh)
        },
        None => Some(fresh),
    }
}

/// Whether committing `req` runs the application.
pub open spec fn runs_app(cached: Option<ReplyView>, req: RequestView) -> bool {
    match cached {
        Some(c) => c.request_num < req.request_num,
        None => true,
    }
}

/// `e` sends `rep` to `addr`.
pub open spec fn sends_reply(e: NodeEffect<Message>, addr: NodeAddr, rep: ReplyView) -> bool {
    match e {
        NodeEffect::Send(a, Message::Reply(r)) => a == addr && r@ == rep,
        _ => false,
    }
}

/// `e` sends a reply from replica `id` to the client of `req`, for `req`.
pub open spec fn answers(e: NodeEffect<Message>, req: RequestView, id: u8) -> bool {
    match e {
        NodeEffect::Send(a, Message::Reply(rep)) => a == req.client_addr && rep.request_num
            == req.request_num && rep.replica_id == id,
        _ => false,
    }
}

/// `x` answers some request in the log.
pub open spec fn answers_some(x: NodeEffect<Message>, log: Seq<LogEntry>, id: u8) -> bool {
    exists|i: int| 0 <= i < log.len() && #[trigger] answers(x, log[i].request@, id)
}

/// Every effect answers a request in the log.
pub open spec fn answers_log(e: Seq<NodeEffect<Message>>, log: Seq<LogEntry>, id: u8) -> bool {
    forall|k: int| 0 <= k < e.len() ==> #[trigger] answers_some(e[k], log, id)
}

proof fn lemma_answers_grow(e1: Seq<NodeEffect<Message>>, e2: Seq<NodeEffect<Message>>, l1: Seq<LogEntry>, l2: Seq<LogEntry>, id: u8)
    requires
        answers_log(e1, l1, id),
        answers_log(e2, l2, id),
        l1.len() <= l2.len(),
        l2.subrange(0, l1.len() as int) == l1,
    ensures
        answers_log(e1 + e2, l2, id),
{
    assert forall|k: int| 0 <= k < (e1 + e2).len() implies #[trigger] answers_some((e1 + e2)[k], l2, id) by {
        if k < e1.len() {
            assert((e1 + e2)[k] == e1[k]);
            assert(answers_some(e1[k], l1, id));
            let i = choose|i: int| 0 <= i < l1.len() && #[trigger] answers(e1[k], l1[i].request@, id);
            assert(l2.subrange(0, l1.len() as int)[i] == l2[i]);
            assert(answers(e1[k], l2[i].request@, id));
        } else {
            assert((e1 + e2)[k] == e2[k - e1.len()]);
            assert(answers_some(e2[k - e1.len()], l2, id));
        }
    }
}

/// What processing the ordered request `(m, r)` at the head of the line
/// does, from `o` to `n`, with effects `e`: a rejected packet changes
/// nothing; otherwise the request holds position `m.seq`, its
/// authentication is recorded, and once the position is complete it is
/// committed with exactly one reply (none for a stale request).
pub open spec fn handled(o: Replica, n: Replica, m: Multicast, r: RequestView, e: Seq<NodeEffect<Message>>) -> bool {
    let len = o.entries().len();
    let seq = m.seq;
    let rejected = o.rejects(m, r);
    let c = r.client_id;
    let cached = if o.cached().contains_key(c) { Some(o.cached()[c]) } else { None };
    let fresh = ReplyView {
        request_num: r.request_num,
        result: app_result(o.application(), r.op),
        replica_id: o.replica_id(),
        seq,
    };
    if rejected {
        n == o && e.len() == 0
    } else {
        &&& n.arrivals() == o.arrivals().insert((seq, r))
        &&& n.entries().len() == seq
        &&& n.entries().subrange(0, len as int) == o.entries()
        &&& n.entries()[seq - 1].request@ == r
        &&& seq > len ==> n.entries()[seq - 1].digest == m.digest && n.entries()[seq
            - 1].next_link@ == sha256_of(m.digest@ + o.link_before(seq as int))
        &&& n.signatures().remove(seq) == o.signatures().remove(seq)
        &&& records(o, n, seq, m.crypto)
        &&& match m.crypto {
            MulticastCrypto::SipHash { index, macs } => if o.signed_at(seq) {
                n.signed_at(seq)
            } else {
                !n.signed_at(seq) && n.macs_at(seq) == o.macs_at(seq) + covered(
                    index,
                    3 * o.fault_bound() + 1,
                )
            },
            _ => n.signed_at(seq),
        }
        &&& if n.complete_at(seq) {
            &&& n.committed() == seq
            &&& match reply_sent(cached, r, fresh) {
                Some(rv) => e.len() == 1 && sends_reply(e[0], r.client_addr, rv),
                None => e.len() == 0,
            }
            &&& n.cached() == match reply_sent(cached, r, fresh) {
                Some(rv) => o.cached().insert(c, rv),
                None => o.cached(),
            }
            &&& if runs_app(cached, r) {
                n.executions() == o.executions().push((c, r.request_num))
            } else {
                n.executions() == o.executions()
            }
        } else {
            &&& e.len() == 0
            &&& n.committed() == o.committed()
            &&& n.cached() == o.cached()
            &&& n.executions() == o.executions()
        }
    }
}

/// What taking the ordered request `(m, r)` does to replica `o`, giving
/// `n` and the effects `e`.
///
/// Behind the line (already committed): nothing changes, and the cached
/// reply is sent again when it answers this very request. Ahead of the
/// line: the request joins the end of the reorder buffer at its sequence
/// number. At the head of the line: a rejected packet changes nothing;
/// otherwise the request holds its log position, and once the position is
/// complete it is committed and the first effect is its reply (unless the
/// request is stale). When no request waits at the following sequence
/// number, the outcome is exactly `handled`: one reply at most, nothing
/// else. Only `(m.seq, r)` can join the arrivals.
pub open spec fn takes_ordered(o: Replica, n: Replica, m: Multicast, r: RequestView, e: Seq<NodeEffect<Message>>) -> bool {
    let c = r.client_id;
    let cached = if o.cached().contains_key(c) { Some(o.cached()[c]) } else { None };
    let fresh = ReplyView {
        request_num: r.request_num,
        result: app_result(o.application(), r.op),
        replica_id: o.replica_id(),
        seq: m.seq,
    };
    &&& n.arrivals().subset_of(o.arrivals().insert((m.seq, r)))
    &&& if m.seq < o.ordered_entry_spec() {
        &&& n == o
        &&& e.len() <= 1
        &&& e.len() == 1 <==> (1 <= m.seq && o.entries()[m.seq - 1].request@ == r && o.cached().contains_key(c)
            && o.cached()[c].request_num == r.request_num)
        &&& e.len() == 1 ==> sends_reply(e[0], r.client_addr, o.cached()[c])
    } else if m.seq > o.ordered_entry_spec() {
        &&& e.len() == 0
        &&& n.entries() == o.entries()
        &&& n.committed() == o.committed()
        &&& n.cached() == o.cached()
        &&& n.signatures() == o.signatures()
        &&& n.parked().remove(m.seq) == o.parked().remove(m.seq)
        &&& n.parked().contains_key(m.seq)
        &&& n.parked()[m.seq]@.drop_last() == (if o.parked().contains_key(m.seq) {
            o.parked()[m.seq]@
        } else {
            Seq::empty()
        })
        &&& n.parked()[m.seq]@.last().0 == m
        &&& n.parked()[m.seq]@.last().1@ == r
    } else if o.rejects(m, r) {
        n == o && e.len() == 0
    } else {
        &&& (m.seq == u32::MAX || !o.parked().contains_key((m.seq + 1) as u32)) ==> handled(o, n, m, r, e)
        &&& forall|s: u32| #[trigger] n.parked().contains_key(s) ==> o.parked().contains_key(s) && n.parked()[s]
            == o.parked()[s]
        &&& n.entries().len() >= m.seq
        &&& n.entries()[m.seq - 1].request@ == r
        &&& n.arrivals().contains((m.seq, r))
        &&& match m.crypto {
            MulticastCrypto::SipHash { index, macs } => (o.signed_at(m.seq) || (o.macs_at(m.seq) + covered(
                index,
                3 * o.fault_bound() + 1,
            )).len() >= 2 * o.fault_bound() + 1) ==> n.complete_at(m.seq),
            _ => n.complete_at(m.seq),
        }
        &&& if n.complete_at(m.seq) {
            &&& n.committed() >= m.seq
            &&& reply_sent(cached, r, fresh) matches Some(rv) ==> e.len() >= 1 && sends_reply(e[0], r.client_addr, rv)
        } else {
            &&& e.len() == 0
            &&& n.committed() == o.committed()
            &&& n.entries().len() == m.seq
        }
    }
}

/// The MAC slot of replica `j` in a SipHash packet starting at `index`.
pub open spec fn mac_slot_of(macs: [u8; 16], index: u8, j: u8) -> Seq<u8> {
    macs@.subrange(4 * (j - index), 4 * (j - index) + 4)
}

/// What recording the authentication of `crypto` at `seq` does, from `o`
/// to `n`: a SipHash packet adds the MAC of each replica it covers (unless a
/// signature is already held), a signed packet puts its signature, a link
/// packet marks the position as linked.
pub open spec fn records(o: Replica, n: Replica, seq: u32, crypto: MulticastCrypto) -> bool {
    &&& n.signatures().contains_key(seq)
    &&& n.signatures().remove(seq) == o.signatures().remove(seq)
    &&& match crypto {
        MulticastCrypto::SipHash { index, macs } => if o.signed_at(seq) {
            n.signatures()[seq] == o.signatures()[seq]
        } else {
            let cov = covered(index, 3 * o.fault_bound() + 1);
            &&& n.signatures()[seq] is SipHash
            &&& n.macs_at(seq) == o.macs_at(seq) + cov
            &&& forall|j: u8| #[trigger] cov.contains(j) ==> n.mac_table(seq)[j]@ == mac_slot_of(macs, index, j)
            &&& forall|j: u8| #[trigger] o.mac_table(seq).contains_key(j) && !cov.contains(j) ==> n.mac_table(seq)[j]
                == o.mac_table(seq)[j]
        },
        MulticastCrypto::P256 { signature } => n.signatures()[seq] == MulticastSignature::P256(signature),
        MulticastCrypto::Link { .. } => n.signatures()[seq] is Linked,
    }
}

impl Replica {
    pub closed spec fn entries(&self) -> Seq<LogEntry> {
        self.log@
    }

    pub closed spec fn replica_id(&self) -> u8 {
        self.id
    }

    pub closed spec fn fault_bound(&self) -> usize {
        self.f
    }

    pub closed spec fn application(&self) -> App {
        self.app
    }

    /// The last committed sequence number.
    pub closed spec fn committed(&self) -> u32 {
        self.spec_num
    }

    pub closed spec fn signatures(&self) -> Map<u32, MulticastSignature> {
        self.multicast_signatures@
    }

    pub closed spec fn parked(&self) -> Map<u32, Vec<(Multicast, Request)>> {
        self.reorder_request@
    }

    pub closed spec fn cached(&self) -> Map<u32, ReplyView> {
        self.replies@.map_values(|r: Reply| r@)
    }

    pub closed spec fn executions(&self) -> Seq<(u32, u32)> {
        self.executed@
    }

    pub closed spec fn arrivals(&self) -> Set<(u32, RequestView)> {
        self.received@
    }

    /// The MACs recorded for `seq`, by replica id.
    pub open spec fn mac_table(&self, seq: u32) -> Map<u8, [u8; 4]> {
        if self.signatures().contains_key(seq) {
            match self.signatures()[seq] {
                MulticastSignature::SipHash(m) => m@,
                _ => Map::empty(),
            }
        } else {
            Map::empty()
        }
    }

    /// The ids whose MACs were recorded for `seq`.
    pub open spec fn macs_at(&self, seq: u32) -> Set<u8> {
        self.mac_table(seq).dom()
    }

    /// A signature or a matching link hash was recorded for `seq`.
    pub open spec fn signed_at(&self, seq: u32) -> bool {
        self.signatures().contains_key(seq) && !(self.signatures()[seq] is SipHash)
    }

    /// Enough authentication was collected to commit `seq`.
    pub open spec fn complete_at(&self, seq: u32) -> bool {
        self.signed_at(seq) || self.macs_at(seq).len() >= 2 * self.fault_bound() + 1
    }

    /// The sequence number that the replica processes next.
    pub open spec fn ordered_entry_spec(&self) -> int {
        let n = self.entries().len();
        if n == 0 || self.complete_at(n as u32) {
            (n + 1) as int
        } else {
            n as int
        }
    }

    /// The link hash that a link packet for `seq` must carry.
    pub open spec fn link_before(&self, seq: int) -> Seq<u8> {
        if seq <= 1 {
            zero_link()
        } else {
            self.entries()[seq - 2].next_link@
        }
    }

    /// Well-formed, and no parked request waits at the sequence number
    /// that is next in line (it would have been processed).
    pub closed spec fn wf(&self) -> bool {
        &&& self.inv()
        &&& self.ordered_entry_spec() <= u32::MAX ==> !self.reorder_request@.contains_key(
            self.ordered_entry_spec() as u32,
        )
    }

    /// The packet `m` carrying `r` is dropped at the head of the line: it
    /// differs from the request already logged at its sequence number, or it
    /// is a link packet whose link hash does not match the chain.
    pub open spec fn rejects(&self, m: Multicast, r: RequestView) -> bool {
        (m.seq <= self.entries().len() && self.entries()[m.seq - 1].request@ != r) || (m.crypto matches
            MulticastCrypto::Link { link_hash } && link_hash@ != self.link_before(m.seq as int))
    }

    pub closed spec fn inv(&self) -> bool {
        &&& 3 * self.f + 1 <= 256
        &&& self.log@.len() <= u32::MAX
        &&& self.spec_num + 1 == self.ordered_entry_spec()
        &&& forall|s: u32| 1 <= s < self.log@.len() ==> #[trigger] self.complete_at(s)
        &&& forall|s: u32| #[trigger] self.multicast_signatures@.contains_key(s) ==> 1 <= s <= self.log@.len()
        &&& forall|i: int| 0 <= i < self.log@.len() ==> #[trigger] self.log@[i].next_link@ == sha256_of(
            self.log@[i].digest@ + self.link_before(i + 1))
        &&& forall|i: int| 0 <= i < self.log@.len() ==> self.received@.contains(((i + 1) as u32, #[trigger] self.log@[i].request@))
        &&& forall|s: u32, j: int| #[trigger] self.reorder_request@.contains_key(s) && 0 <= j < self.reorder_request@[s]@.len()
            ==> (#[trigger] self.reorder_request@[s]@[j]).0.seq == s && self.received@.contains((s, self.reorder_request@[s]@[j].1@))
        &&& self.executed@.no_duplicates()
        &&& forall|k: int| 0 <= k < self.executed@.len() ==> {
            let (c, n) = #[trigger] self.executed@[k];
            self.replies@.contains_key(c) && n <= self.replies@[c].request_num
        }
        &&& forall|c: u32| #[trigger] self.replies@.contains_key(c) ==> self.replies@[c].replica_id == self.id
    }

    pub fn new(id: u8, app: App, f: usize) -> (r: Replica)
        requires
            3 * f + 1 <= 256,
        ensures
            r.wf(),
            r.replica_id() == id,
            r.fault_bound() == f,
            r.application() == app,
            r.entries().len() == 0,
            r.committed() == 0,
            r.signatures().is_empty(),
            r.parked().is_empty(),
            r.cached().is_empty(),
            r.executions().len() == 0,
            r.arrivals().is_empty(),
    {
        let r = Replica {
            id,
            f,
            log: Vec::new(),
            spec_num: 0,
            multicast_signatures: HashMap::new(),
            reorder_request: HashMap::new(),
            app,
            replies: HashMap::new(),
            executed: Ghost(Seq::empty()),
            received: Ghost(Set::empty()),
        };
        assert(r.cached() =~= Map::empty());
        r
    }

    /// The number of log positions.
    pub fn log_len(&self) -> (r: usize)
        ensures
            r == self.entries().len(),
    {
        self.log.len()
    }

    /// The request committed or logged at sequence number `seq`.
    pub fn request_at(&self, seq: u32) -> (r: &Request)
        requires
            1 <= seq <= self.entries().len(),
        ensures
            *r == self.entries()[seq - 1].request,
    {
        &self.log[(seq - 1) as usize].request
    }

    /// The last committed sequence number.
    pub fn committed_num(&self) -> (r: u32)
        ensures
            r == self.committed(),
    {
        self.spec_num
    }

    /// The sequence number of the next new log position.
    pub fn next_entry(&self) -> (r: u64)
        requires
            self.wf(),
        ensures
            r == self.entries().len() + 1,
    {
        self.log.len() as u64 + 1
    }

    /// Whether `seq` holds enough authentication to commit.
    pub fn multicast_complete(&self, seq: u32) -> (r: bool)
        requires
            3 * self.fault_bound() + 1 <= 256,
        ensures
            r == self.complete_at(seq),
    {
        match self.multicast_signatures.get(&seq) {
            None => false,
            Some(MulticastSignature::SipHash(macs)) => macs.len() >= 2 * self.f + 1,
            Some(_) => true,
        }
    }

    /// The sequence number that is next in line: the next new position
    /// once the last one is complete, the last one while it is not.
    pub fn ordered_entry(&self) -> (r: u64)
        requires
            self.wf(),
        ensures
            r == self.ordered_entry_spec(),
    {
        self.head_of_line()
    }

    fn head_of_line(&self) -> (r: u64)
        requires
            self.inv(),
        ensures
            r == self.ordered_entry_spec(),
    {
        let next = self.log.len() as u64 + 1;
        if next == 1 || self.multicast_complete((next - 1) as u32) {
            next
        } else {
            next - 1
        }
    }

    fn link_before_exec(&self, seq: u32) -> (r: [u8; 32])
        requires
            self.inv(),
            1 <= seq <= self.entries().len() + 1,
        ensures
            r@ == self.link_before(seq as int),
    {
        if seq == 1 {
            let z = [0u8; 32];
            assert(z@ =~= zero_link());
            z
        } else {
            self.log[(seq - 2) as usize].next_link
        }
    }

    /// Records the authentication that a packet for `seq` carries.
    fn record(&mut self, seq: u32, crypto: &MulticastCrypto)
        requires
            3 * old(self).f + 1 <= 256,
            1 <= seq <= old(self).log@.len(),
        ensures
            final(self).log@ == old(self).log@,
            final(self).id == old(self).id,
            final(self).f == old(self).f,
            final(self).app == old(self).app,
            final(self).spec_num == old(self).spec_num,
            final(self).reorder_request@ == old(self).reorder_request@,
            final(self).replies@ == old(self).replies@,
            final(self).executed@ == old(self).executed@,
            final(self).received@ == old(self).received@,
            records(*old(self), *final(self), seq, *crypto),
            match *crypto {
                MulticastCrypto::SipHash { index, macs } => if old(self).signed_at(seq) {
                    final(self).signed_at(seq)
                } else {
                    !final(self).signed_at(seq) && final(self).macs_at(seq) == old(self).macs_at(seq)
                        + covered(index, 3 * old(self).f + 1)
                },
                _ => final(self).signed_at(seq),
            },
    {
        match crypto {
            MulticastCrypto::SipHash { index, macs } => {
                let existing = self.multicast_signatures.remove(&seq);
                let mut table = match existing {
                    Some(MulticastSignature::SipHash(t)) => t,
                    Some(other) => {
                        self.multicast_signatures.insert(seq, other);
                        assert(self.multicast_signatures@ =~= old(self).multicast_signatures@);
                        return ;
                    },
                    None => HashMap::new(),
                };
                let ghost before = table@.dom();
                let ghost before_t = table@;
                assert(before == old(self).macs_at(seq));
                assert(before_t == old(self).mac_table(seq));
                let count: u32 = 3 * self.f as u32 + 1;
                let start: u32 = *index as u32;
                let end: u32 = if start + 4 < count {
                    start + 4
                } else {
                    count
                };
                let mut j: u32 = start;
                while j < end
                    invariant
                        start <= j,
                        end <= count <= 256,
                        end <= start + 4,
                        start == *index as u32,
                        j <= end || j == start,
                        count == 3 * self.f + 1,
                        table@.dom() == before + Set::new(|x: u8| start <= x < j),
                        forall|x: u8| start <= x < j ==> #[trigger] table@[x]@ == mac_slot_of(*macs, *index, x),
                        forall|x: u8| #[trigger] before_t.contains_key(x) && !(start <= x < j) ==> table@[x] == before_t[x],
                    decreases end - j,
                {
                    let k = ((j - start) * 4) as usize;
                    let slot = [macs[k], macs[k + 1], macs[k + 2], macs[k + 3]];
                    assert(slot@ =~= mac_slot_of(*macs, *index, j as u8));
                    table.insert(j as u8, slot);
                    j += 1;
                    assert(table@.dom() =~= before + Set::new(|x: u8| start <= x < j));
                }
                assert(Set::new(|x: u8| start <= x < j) =~= covered(*index, 3 * self.f + 1));
                self.multicast_signatures.insert(seq, MulticastSignature::SipHash(table));
                assert(self.mac_table(seq) == table@);
            },
            MulticastCrypto::P256 { signature } => {
                self.multicast_signatures.insert(seq, MulticastSignature::P256(*signature));
            },
            MulticastCrypto::Link { .. } => {
                self.multicast_signatures.insert(seq, MulticastSignature::Linked);
            },
        }
        assert(self.signatures().remove(seq) =~= old(self).signatures().remove(seq));
    }

    /// Commits `seq`: runs the application on its request unless the
    /// client's cached reply already answers it.
    fn commit(&mut self, seq: u32) -> (e: Effect)
        requires
            1 <= seq <= old(self).log@.len(),
            forall|k: int| 0 <= k < old(self).executed@.len() ==> {
                let (c, n) = #[trigger] old(self).executed@[k];
                old(self).replies@.contains_key(c) && n <= old(self).replies@[c].request_num
            },
            old(self).executed@.no_duplicates(),
            forall|c: u32| #[trigger] old(self).replies@.contains_key(c) ==> old(self).replies@[c].replica_id == old(self).id,
        ensures
            final(self).log@ == old(self).log@,
            final(self).id == old(self).id,
            final(self).f == old(self).f,
            final(self).app == old(self).app,
            final(self).multicast_signatures@ == old(self).multicast_signatures@,
            final(self).reorder_request@ == old(self).reorder_request@,
            final(self).received@ == old(self).received@,
            final(self).spec_num == seq,
            answers_log(e@, final(self).log@, final(self).id),
            final(self).executed@.no_duplicates(),
            forall|k: int| 0 <= k < final(self).executed@.len() ==> {
                let (c, n) = #[trigger] final(self).executed@[k];
                final(self).replies@.contains_key(c) && n <= final(self).replies@[c].request_num
            },
            forall|c: u32| #[trigger] final(self).replies@.contains_key(c) ==> final(self).replies@[c].replica_id == final(self).id,
            ({
                let req = old(self).log@[seq - 1].request@;
                let c = req.client_id;
                let cached = if old(self).cached().contains_key(c) { Some(old(self).cached()[c]) } else { None };
                let fresh = ReplyView {
                    request_num: req.request_num,
                    result: app_result(old(self).app, req.op),
                    replica_id: old(self).id,
                    seq,
                };
                &&& match reply_sent(cached, req, fresh) {
                    Some(rv) => e@.len() == 1 && sends_reply(e@[0], req.client_addr, rv),
                    None => e@.len() == 0,
                }
                &&& final(self).cached() == match reply_sent(cached, req, fresh) {
                    Some(rv) => old(self).cached().insert(c, rv),
                    None => old(self).cached(),
                }
                &&& if runs_app(cached, req) {
                    final(self).executed@ == old(self).executed@.push((c, req.request_num))
                } else {
                    final(self).executed@ == old(self).executed@
                }
            }),
    {
        let i = (seq - 1) as usize;
        let client_id = self.log[i].request.client_id;
        let request_num = self.log[i].request.request_num;
        let addr = self.log[i].request.client_addr;
        let mut e: Effect = Vec::new();
        match self.replies.get(&client_id) {
            Some(c) => {
                if c.request_num > request_num {
                    self.spec_num = seq;
                    return e;
                } else if c.request_num == request_num {
                    let mut rep = c.duplicate();
                    rep.seq = seq;
                    self.replies.insert(client_id, rep.duplicate());
                    self.spec_num = seq;
                    proof {
                        assert(self.cached() =~= old(self).cached().insert(client_id, rep@));
                        assert forall|k: int| 0 <= k < self.executed@.len() implies {
                            let (c, n) = #[trigger] self.executed@[k];
                            self.replies@.contains_key(c) && n <= self.replies@[c].request_num
                        } by {
                            let (c, n) = self.executed@[k];
                            assert(old(self).replies@.contains_key(c));
                        }
                    }
                    e.push(NodeEffect::Send(addr, Message::Reply(rep)));
                    assert(answers(e@[0], self.log@[i as int].request@, self.id));
                    assert(answers_some(e@[0], self.log@, self.id));
                    return e;
                }
            },
            None => {},
        }
        let result = self.app.execute(self.log[i].request.op.as_slice());
        let reply = Reply { request_num, result, replica_id: self.id, seq };
        let ghost old_exec = self.executed@;
        self.replies.insert(client_id, reply.duplicate());
        self.executed = Ghost(self.executed@.push((client_id, request_num)));
        self.spec_num = seq;
        proof {
            assert(self.cached() =~= old(self).cached().insert(client_id, reply@));
            assert forall|k: int| 0 <= k < old_exec.len() implies #[trigger] old_exec[k] != (client_id, request_num) by {
                let (c, n) = old_exec[k];
            }
            assert forall|k: int| 0 <= k < self.executed@.len() implies {
                let (c, n) = #[trigger] self.executed@[k];
                self.replies@.contains_key(c) && n <= self.replies@[c].request_num
            } by {
                if k < old_exec.len() {
                    assert(self.executed@[k] == old_exec[k]);
                }
            }
            assert forall|a: int, b: int| 0 <= a < self.executed@.len() && 0 <= b < self.executed@.len() && a != b
                implies self.executed@[a] != self.executed@[b] by {
                if a < old_exec.len() && b < old_exec.len() {
                    assert(old_exec[a] != old_exec[b]);
                }
            }
        }
        e.push(NodeEffect::Send(addr, Message::Reply(reply)));
        assert(answers(e@[0], self.log@[i as int].request@, self.id));
        assert(answers_some(e@[0], self.log@, self.id));
        e
    }

    /// Processes the ordered request whose sequence number is next in line.
    ///
    /// A request that differs from the one already logged at its sequence
    /// number (equivocation), or a link packet whose link hash does not
    /// match the chain, is dropped and changes nothing. Otherwise the
    /// request is logged if new, its authentication is recorded, and once
    /// the sequence number is complete it is committed.
    fn handle_request(&mut self, m: Multicast, r: Request) -> (e: Effect)
        requires
            old(self).inv(),
            m.seq == old(self).ordered_entry_spec(),
        ensures
            final(self).inv(),
            final(self).committed() >= old(self).committed(),
            forall|s: u32| #[trigger] old(self).complete_at(s) ==> final(self).complete_at(s),
            final(self).reorder_request@ == old(self).reorder_request@,
            old(self).arrivals().subset_of(final(self).arrivals()),
            final(self).replica_id() == old(self).replica_id(),
            final(self).fault_bound() == old(self).fault_bound(),
            final(self).application() == old(self).application(),
            answers_log(e@, final(self).entries(), final(self).replica_id()),
            handled(*old(self), *final(self), m, r@, e@),
    {
        let seq = m.seq;
        let len = self.log.len();
        if (seq as usize) <= len {
            if !r.same_as(&self.log[(seq - 1) as usize].request) {
                return Vec::new();
            }
        }
        let prev = self.link_before_exec(seq);
        match m.crypto {
            MulticastCrypto::Link { link_hash } => {
                if !same_bytes(link_hash.as_slice(), prev.as_slice()) {
                    return Vec::new();
                }
            },
            _ => {},
        }
        let ghost o0 = *self;
        self.received = Ghost(self.received@.insert((seq, r@)));
        proof {
            Self::lemma_wf_frame(o0, *self);
        }
        let ghost o = *self;
        if (seq as usize) > len {
            self.append_entry(r, m.digest, prev);
        }
        proof {
            assert(self.log@.subrange(0, len as int) =~= o.log@);
        }
        let ghost mid = *self;
        self.record(seq, &m.crypto);
        proof {
            assert forall|s: u32| #[trigger] o0.complete_at(s) implies self.complete_at(s) by {
                if s == seq {
                    if !mid.signed_at(seq) && !self.signed_at(seq) {
                        vstd::set_lib::lemma_len_subset(mid.macs_at(seq), self.macs_at(seq));
                    }
                } else {
                    if mid.signatures().contains_key(s) {
                        assert(self.signatures().remove(seq)[s] == self.signatures()[s]);
                        assert(mid.signatures().remove(seq)[s] == mid.signatures()[s]);
                    }
                    assert(self.signatures().remove(seq).contains_key(s) == mid.signatures().remove(seq).contains_key(s));
                }
            }
            // authentication only grows, and only at `seq`
            assert forall|s: u32| 1 <= s < self.log@.len() implies #[trigger] self.complete_at(s) by {
                if s < len {
                    assert(o.complete_at(s));
                } else {
                    assert(s == len);
                    assert(o.complete_at(s));
                }
                assert(mid.complete_at(s));
                assert(s != seq);
                assert(self.signatures().remove(seq).contains_key(s) == mid.signatures().remove(seq).contains_key(s));
                assert(self.signatures().contains_key(s) == mid.signatures().contains_key(s));
                if mid.signatures().contains_key(s) {
                    assert(self.signatures().remove(seq)[s] == self.signatures()[s]);
                    assert(mid.signatures().remove(seq)[s] == mid.signatures()[s]);
                }
                assert(self.macs_at(s) == mid.macs_at(s));
            }
            assert forall|s: u32| #[trigger] self.multicast_signatures@.contains_key(s) implies 1 <= s <= self.log@.len() by {
                if s != seq {
                    assert(self.signatures().remove(seq).contains_key(s));
                }
            }
        }
        if !self.multicast_complete(seq) {
            return Vec::new();
        }
        let ghost pre = *self;
        let e = self.commit(seq);
        proof {
            assert(self.complete_at(seq));
            assert forall|s: u32| 1 <= s < self.log@.len() implies #[trigger] self.complete_at(s) by {
                assert(pre.complete_at(s));
            }
            assert forall|s: u32, j: int| #[trigger] self.reorder_request@.contains_key(s) && 0 <= j < self.reorder_request@[s]@.len()
                implies (#[trigger] self.reorder_request@[s]@[j]).0.seq == s && self.received@.contains((s, self.reorder_request@[s]@[j].1@)) by {
                assert(pre.reorder_request@[s]@[j] == self.reorder_request@[s]@[j]);
            }
        }
        e
    }

    /// Appends a new log position, chaining its link hash.
    fn append_entry(&mut self, r: Request, digest: [u8; 32], prev: [u8; 32])
        requires
            old(self).log@.len() < u32::MAX,
            prev@ == old(self).link_before(old(self).log@.len() + 1int),
            old(self).received@.contains(((old(self).log@.len() + 1) as u32, r@)),
            forall|i: int| 0 <= i < old(self).log@.len() ==> #[trigger] old(self).log@[i].next_link@ == sha256_of(
                old(self).log@[i].digest@ + old(self).link_before(i + 1)),
            forall|i: int| 0 <= i < old(self).log@.len() ==> old(self).received@.contains(((i + 1) as u32, #[trigger] old(self).log@[i].request@)),
        ensures
            final(self).log@.len() == old(self).log@.len() + 1,
            final(self).log@.subrange(0, old(self).log@.len() as int) == old(self).log@,
            final(self).log@.last().request@ == r@,
            final(self).log@.last().digest == digest,
            final(self).log@.last().next_link@ == sha256_of(digest@ + prev@),
            final(self).id == old(self).id,
            final(self).f == old(self).f,
            final(self).app == old(self).app,
            final(self).spec_num == old(self).spec_num,
            final(self).multicast_signatures@ == old(self).multicast_signatures@,
            final(self).reorder_request@ == old(self).reorder_request@,
            final(self).replies@ == old(self).replies@,
            final(self).executed@ == old(self).executed@,
            final(self).received@ == old(self).received@,
            forall|i: int| 0 <= i < final(self).log@.len() ==> #[trigger] final(self).log@[i].next_link@ == sha256_of(
                final(self).log@[i].digest@ + final(self).link_before(i + 1)),
            forall|i: int| 0 <= i < final(self).log@.len() ==> final(self).received@.contains(((i + 1) as u32, #[trigger] final(self).log@[i].request@)),
    {
        let ghost o = *self;
        let len = self.log.len();
        let mut input: Vec<u8> = Vec::new();
        put_slice(&mut input, digest.as_slice());
        put_slice(&mut input, prev.as_slice());
        let next_link = sha256(input.as_slice());
        self.log.push(LogEntry { request: r, digest, next_link });
        proof {
            assert(self.log@.subrange(0, len as int) =~= o.log@);
            assert forall|i: int| 0 <= i < self.log@.len() implies #[trigger] self.log@[i].next_link@
                == sha256_of(self.log@[i].digest@ + self.link_before(i + 1)) by {
                if i < len {
                    assert(self.log@[i] == o.log@[i]);
                    if i >= 1 {
                        assert(self.log@[i - 1] == o.log@[i - 1]);
                    }
                }
            }
            assert forall|i: int| 0 <= i < self.log@.len() implies self.received@.contains(
                ((i + 1) as u32, #[trigger] self.log@[i].request@)) by {
                if i < len {
                    assert(self.log@[i] == o.log@[i]);
                }
            }
        }
    }

    /// The reply to an ordered request whose sequence number is already
    /// committed: the cached reply when it answers that very request.
    fn resend(&self, m: &Multicast, r: &Request) -> (e: Effect)
        requires
            self.inv(),
            m.seq < self.ordered_entry_spec(),
        ensures
            answers_log(e@, self.log@, self.id),
            e@.len() <= 1,
            ({
                let c = r@.client_id;
                e@.len() == 1 <==> (1 <= m.seq && self.log@[m.seq - 1].request@ == r@ && self.cached().contains_key(c)
                    && self.cached()[c].request_num == r@.request_num)
            }),
            e@.len() == 1 ==> sends_reply(e@[0], r@.client_addr, self.cached()[r@.client_id]),
    {
        let mut e: Effect = Vec::new();
        if m.seq == 0 || !r.same_as(&self.log[(m.seq - 1) as usize].request) {
            return e;
        }
        match self.replies.get(&r.client_id) {
            Some(c) => {
                if c.request_num == r.request_num {
                    e.push(NodeEffect::Send(r.client_addr, Message::Reply(c.duplicate())));
                    assert(answers(e@[0], self.log@[m.seq - 1].request@, self.id));
                    assert(answers_some(e@[0], self.log@, self.id));
                }
            },
            None => {},
        }
        e
    }

    /// Parks a request that is ahead of the line.
    fn park(&mut self, m: Multicast, r: Request)
        requires
            old(self).wf(),
            m.seq > old(self).ordered_entry_spec(),
        ensures
            final(self).wf(),
            final(self).log@ == old(self).log@,
            final(self).id == old(self).id,
            final(self).f == old(self).f,
            final(self).app == old(self).app,
            final(self).spec_num == old(self).spec_num,
            final(self).multicast_signatures@ == old(self).multicast_signatures@,
            final(self).replies@ == old(self).replies@,
            final(self).executed@ == old(self).executed@,
            final(self).received@ == old(self).received@.insert((m.seq, r@)),
            final(self).reorder_request@.remove(m.seq) == old(self).reorder_request@.remove(m.seq),
            final(self).reorder_request@.contains_key(m.seq),
            final(self).reorder_request@[m.seq]@.len() >= 1,
            final(self).reorder_request@[m.seq]@.drop_last() == (if old(self).reorder_request@.contains_key(m.seq) {
                old(self).reorder_request@[m.seq]@
            } else {
                Seq::empty()
            }),
            final(self).reorder_request@[m.seq]@.last().0 == m,
            final(self).reorder_request@[m.seq]@.last().1@ == r@,
    {
        let seq = m.seq;
        let ghost rv = r@;
        let mut list = match self.reorder_request.remove(&seq) {
            Some(l) => l,
            None => Vec::new(),
        };
        let ghost before = list@;
        assert(before == (if old(self).reorder_request@.contains_key(seq) {
            old(self).reorder_request@[seq]@
        } else {
            Seq::<(Multicast, Request)>::empty()
        }));
        list.push((m, r));
        assert(list@.drop_last() =~= before);
        self.reorder_request.insert(seq, list);
        self.received = Ghost(self.received@.insert((seq, rv)));
        proof {
            assert forall|i: int| 0 <= i < self.log@.len() implies self.received@.contains(
                ((i + 1) as u32, #[trigger] self.log@[i].request@)) by {
                assert(old(self).received@.contains(((i + 1) as u32, old(self).log@[i].request@)));
            }
            assert(self.reorder_request@.remove(seq) =~= old(self).reorder_request@.remove(seq));
            assert(self.spec_num + 1 == self.ordered_entry_spec());
            assert forall|s: u32| 1 <= s < self.log@.len() implies #[trigger] self.complete_at(s) by {
                assert(old(self).complete_at(s));
            }
            assert(self.executed@.no_duplicates());
            assert forall|s: u32, j: int| #[trigger] self.reorder_request@.contains_key(s) && 0 <= j < self.reorder_request@[s]@.len()
                implies (#[trigger] self.reorder_request@[s]@[j]).0.seq == s && self.received@.contains((s, self.reorder_request@[s]@[j].1@)) by {
                if s == seq {
                    if j < before.len() {
                        assert(self.reorder_request@[s]@[j] == before[j]);
                        assert(old(self).reorder_request@[s]@[j] == before[j]);
                    }
                } else {
                    assert(self.reorder_request@.remove(seq)[s] == old(self).reorder_request@.remove(seq)[s]);
                }
            }
        }
    }

    /// Takes an ordered request.
    ///
    /// A request ahead of the line waits in the reorder buffer. The request
    /// next in line is processed, then every waiting request that becomes
    /// next in line, in order of arrival. A request at a committed sequence
    /// number changes nothing and gets the cached reply again when that
    /// reply answers it.
    pub fn insert_request(&mut self, m: Multicast, r: Request) -> (e: Effect)
        requires
            old(self).wf(),
        ensures
            final(self).wf(),
            final(self).replica_id() == old(self).replica_id(),
            final(self).fault_bound() == old(self).fault_bound(),
            final(self).application() == old(self).application(),
            old(self).entries().len() <= final(self).entries().len(),
            final(self).entries().subrange(0, old(self).entries().len() as int) == old(self).entries(),
            final(self).committed() >= old(self).committed(),
            answers_log(e@, final(self).entries(), final(self).replica_id()),
            takes_ordered(*old(self), *final(self), m, r@, e@),
    {
        let ordered = self.ordered_entry();
        if (m.seq as u64) < ordered {
            let e = self.resend(&m, &r);
            proof {
                assert(self.log@.subrange(0, self.log@.len() as int) =~= self.log@);
            }
            return e;
        }
        if (m.seq as u64) > ordered {
            self.park(m, r);
            proof {
                assert(self.log@.subrange(0, self.log@.len() as int) =~= self.log@);
            }
            return Vec::new();
        }
        let ghost o = *self;
        let ghost rv = r@;
        let e = self.handle_request(m, r);
        let ghost mid = *self;
        let ghost e_mid = e@;
        proof {
            if o.rejects(m, rv) {
                assert(mid == o);
            }
            if !o.rejects(m, rv) {
                assert(mid.complete_at(m.seq) ==> self.complete_at(m.seq));
            }
            if !mid.complete_at(m.seq) && !o.rejects(m, rv) {
                // the head did not move, and nothing waits there
                assert(mid.ordered_entry_spec() == m.seq);
            }
        }
        proof {
            if !o.rejects(m, rv) && (m.seq == u32::MAX || !o.parked().contains_key((m.seq + 1) as u32)) {
                assert(mid.entries().len() == m.seq);
                if mid.complete_at(m.seq) {
                    assert(mid.ordered_entry_spec() == m.seq + 1);
                } else {
                    assert(mid.ordered_entry_spec() == m.seq);
                }
                assert(!(mid.ordered_entry_spec() <= u32::MAX && mid.reorder_request@.contains_key(
                    mid.ordered_entry_spec() as u32)));
            }
        }
        let out = self.drain(e);
        proof {
            if !o.rejects(m, rv) {
                assert(self.log@.subrange(0, mid.log@.len() as int)[m.seq - 1] == self.log@[m.seq - 1]);
                assert(mid.complete_at(m.seq) ==> self.complete_at(m.seq));
                if self.complete_at(m.seq) && !mid.complete_at(m.seq) {
                    assert(*self == mid);
                }
                if e_mid.len() >= 1 {
                    assert(out@.subrange(0, e_mid.len() as int)[0] == out@[0]);
                }
            }
            assert(self.log@.subrange(0, o.log@.len() as int) =~= o.log@) by {
                assert(self.log@.subrange(0, o.log@.len() as int) =~= self.log@.subrange(0, mid.log@.len() as int).subrange(0, o.log@.len() as int));
            }
        }
        out
    }

    /// Processes the waiting requests that become next in line.
    fn drain(&mut self, e: Effect) -> (out: Effect)
        requires
            old(self).inv(),
            answers_log(e@, old(self).log@, old(self).id),
        ensures
            final(self).wf(),
            final(self).id == old(self).id,
            final(self).f == old(self).f,
            final(self).app == old(self).app,
            old(self).log@.len() <= final(self).log@.len(),
            final(self).log@.subrange(0, old(self).log@.len() as int) == old(self).log@,
            final(self).spec_num >= old(self).spec_num,
            forall|s: u32| #[trigger] old(self).complete_at(s) ==> final(self).complete_at(s),
            final(self).received@ == old(self).received@,
            forall|s: u32| #[trigger] final(self).reorder_request@.contains_key(s) ==> old(self).reorder_request@.contains_key(s)
                && final(self).reorder_request@[s] == old(self).reorder_request@[s],
            answers_log(out@, final(self).log@, final(self).id),
            e@.len() <= out@.len(),
            out@.subrange(0, e@.len() as int) == e@,
            old(self).ordered_entry_spec() <= u32::MAX && old(self).reorder_request@.contains_key(
                old(self).ordered_entry_spec() as u32,
            ) || (*final(self) == *old(self) && out@ == e@),
    {
        let ghost start = *self;
        let ghost e_in = e@;
        let mut e = e;
        let ghost mut first = true;
        loop
            invariant
                self.inv(),
                self.id == start.id,
                self.f == start.f,
                self.app == start.app,
                start.log@.len() <= self.log@.len(),
                self.log@.subrange(0, start.log@.len() as int) == start.log@,
                self.spec_num >= start.spec_num,
                forall|s: u32| #[trigger] start.complete_at(s) ==> self.complete_at(s),
                self.received@ == start.received@,
                forall|s: u32| #[trigger] self.reorder_request@.contains_key(s) ==> start.reorder_request@.contains_key(s)
                    && self.reorder_request@[s] == start.reorder_request@[s],
                answers_log(e@, self.log@, self.id),
                e_in.len() <= e@.len(),
                e@.subrange(0, e_in.len() as int) == e_in,
                first ==> *self == start && e@ == e_in,
                !first ==> start.ordered_entry_spec() <= u32::MAX && start.reorder_request@.contains_key(
                    start.ordered_entry_spec() as u32,
                ),
            ensures
                self.wf(),
                self.id == start.id,
                self.f == start.f,
                self.app == start.app,
                start.log@.len() <= self.log@.len(),
                self.log@.subrange(0, start.log@.len() as int) == start.log@,
                self.spec_num >= start.spec_num,
                forall|s: u32| #[trigger] start.complete_at(s) ==> self.complete_at(s),
                self.received@ == start.received@,
                forall|s: u32| #[trigger] self.reorder_request@.contains_key(s) ==> start.reorder_request@.contains_key(s)
                    && self.reorder_request@[s] == start.reorder_request@[s],
                answers_log(e@, self.log@, self.id),
                e_in.len() <= e@.len(),
                e@.subrange(0, e_in.len() as int) == e_in,
                start.ordered_entry_spec() <= u32::MAX && start.reorder_request@.contains_key(
                    start.ordered_entry_spec() as u32,
                ) || (*self == start && e@ == e_in),
            decreases self.reorder_request@.dom().len(),
        {
            let next = self.head_of_line();
            if next > u32::MAX as u64 {
                break;
            }
            let key = next as u32;
            if !self.reorder_request.contains_key(&key) {
                break;
            }
            let ghost pre = *self;
            let ghost dom_before = self.reorder_request@.dom().len();
            let found = self.reorder_request.remove(&key);
            proof {
                if first {
                    assert(start.ordered_entry_spec() <= u32::MAX && start.reorder_request@.contains_key(
                        start.ordered_entry_spec() as u32));
                }
                first = false;
                assert forall|s: u32, j: int| #[trigger] self.reorder_request@.contains_key(s) && 0 <= j < self.reorder_request@[s]@.len()
                    implies (#[trigger] self.reorder_request@[s]@[j]).0.seq == s && self.received@.contains((s, self.reorder_request@[s]@[j].1@)) by {
                    assert(pre.reorder_request@.remove(key)[s] == pre.reorder_request@[s]);
                }
                assert forall|s: u32| #[trigger] self.reorder_request@.contains_key(s) implies start.reorder_request@.contains_key(s)
                    && self.reorder_request@[s] == start.reorder_request@[s] by {
                    assert(pre.reorder_request@.remove(key)[s] == pre.reorder_request@[s]);
                    assert(pre.reorder_request@.contains_key(s));
                }
                Self::lemma_wf_frame(pre, *self);
            }
            let mut list = match found {
                None => Vec::new(),
                Some(l) => l,
            };
            let ghost dom_after = self.reorder_request@.dom().len();
            assert(dom_after < dom_before);
            assert forall|j: int| 0 <= j < list@.len() implies (#[trigger] list@[j]).0.seq == key && self.received@.contains((key, list@[j].1@)) by {
            }
            while list.len() > 0
                invariant
                    self.inv(),
                    self.id == start.id,
                    self.f == start.f,
                    self.app == start.app,
                    start.log@.len() <= self.log@.len(),
                    self.log@.subrange(0, start.log@.len() as int) == start.log@,
                    self.spec_num >= start.spec_num,
                    forall|s: u32| #[trigger] start.complete_at(s) ==> self.complete_at(s),
                    self.received@ == start.received@,
                    forall|s: u32| #[trigger] self.reorder_request@.contains_key(s) ==> start.reorder_request@.contains_key(s)
                        && self.reorder_request@[s] == start.reorder_request@[s],
                    answers_log(e@, self.log@, self.id),
                    e_in.len() <= e@.len(),
                    e@.subrange(0, e_in.len() as int) == e_in,
                    self.reorder_request@.dom().len() == dom_after,
                    !first,
                    start.ordered_entry_spec() <= u32::MAX && start.reorder_request@.contains_key(
                        start.ordered_entry_spec() as u32,
                    ),
                    forall|j: int| 0 <= j < list@.len() ==> (#[trigger] list@[j]).0.seq == key && self.received@.contains((key, list@[j].1@)),
                decreases list@.len(),
            {
                let ghost lst = list@;
                let (m2, r2) = list.remove(0);
                assert(m2.seq == key && self.received@.contains((key, r2@))) by {
                    assert(lst[0] == (m2, r2));
                }
                let ghost before = *self;
                let ghost r2v = r2@;
                let ordered = self.head_of_line();
                let mut e2 = if m2.seq as u64 == ordered {
                    self.handle_request(m2, r2)
                } else if (m2.seq as u64) < ordered {
                    self.resend(&m2, &r2)
                } else {
                    Vec::new()
                };
                proof {
                    if m2.seq as u64 == ordered && !before.rejects(m2, r2v) {
                        assert(self.received@ =~= before.received@);
                    }
                    assert(self.log@.subrange(0, before.log@.len() as int) == before.log@);
                    assert(self.log@.subrange(0, start.log@.len() as int) =~= start.log@) by {
                        assert(self.log@.subrange(0, start.log@.len() as int) =~= before.log@.subrange(0, start.log@.len() as int));
                    }
                    lemma_answers_grow(e@, e2@, before.log@, self.log@, self.id);
                    assert forall|j: int| 0 <= j < list@.len() implies (#[trigger] list@[j]).0.seq == key && self.received@.contains((key, list@[j].1@)) by {
                        assert(list@[j] == lst[j + 1]);
                    }
                    assert forall|s: u32| #[trigger] start.complete_at(s) implies self.complete_at(s) by {
                        assert(before.complete_at(s));
                    }
                }
                let ghost e_before = e@;
                let ghost e2v = e2@;
                e.append(&mut e2);
                assert(e@ == e_before + e2v);
                assert(e@.subrange(0, e_in.len() as int) =~= e_before.subrange(0, e_in.len() as int));
            }
        }
        e
    }

    /// Well-formedness survives a change of the reorder buffer, and of the
    /// arrivals as long as they only grow.
    proof fn lemma_wf_frame(a: Replica, b: Replica)
        requires
            a.inv(),
            b.id == a.id,
            b.f == a.f,
            b.log@ == a.log@,
            b.spec_num == a.spec_num,
            b.multicast_signatures@ == a.multicast_signatures@,
            b.replies@ == a.replies@,
            b.executed@ == a.executed@,
            a.received@.subset_of(b.received@),
            b.reorder_request@ == a.reorder_request@ || forall|s: u32, j: int| #[trigger] b.reorder_request@.contains_key(s) && 0 <= j < b.reorder_request@[s]@.len()
                ==> (#[trigger] b.reorder_request@[s]@[j]).0.seq == s && b.received@.contains((s, b.reorder_request@[s]@[j].1@)),
        ensures
            b.inv(),
    {
        if b.reorder_request@ == a.reorder_request@ {
            assert forall|s: u32, j: int| #[trigger] b.reorder_request@.contains_key(s) && 0 <= j < b.reorder_request@[s]@.len()
                implies (#[trigger] b.reorder_request@[s]@[j]).0.seq == s && b.received@.contains((s, b.reorder_request@[s]@[j].1@)) by {
                assert(a.reorder_request@[s]@[j] == b.reorder_request@[s]@[j]);
            }
        }
        assert forall|s: u32| 1 <= s < b.log@.len() implies #[trigger] b.complete_at(s) by {
            assert(a.complete_at(s));
        }
        assert forall|i: int| 0 <= i < b.log@.len() implies b.received@.contains(
            ((i + 1) as u32, #[trigger] b.log@[i].request@)) by {
            assert(a.received@.contains(((i + 1) as u32, a.log@[i].request@)));
        }
        assert forall|k: int| 0 <= k < b.executed@.len() implies {
            let (c, n) = #[trigger] b.executed@[k];
            b.replies@.contains_key(c) && n <= b.replies@[c].request_num
        } by {
            assert(a.executed@[k] == b.executed@[k]);
        }
    }

    /// Reacts to a node event: ordered requests go to `insert_request`;
    /// everything else (plain requests, replies, ticks) changes nothing.
    pub fn update(&mut self, event: NodeEvent<Message>) -> (e: Effect)
        requires
            old(self).wf(),
        ensures
            final(self).wf(),
            final(self).replica_id() == old(self).replica_id(),
            final(self).fault_bound() == old(self).fault_bound(),
            final(self).application() == old(self).application(),
            old(self).entries().len() <= final(self).entries().len(),
            final(self).entries().subrange(0, old(self).entries().len() as int) == old(self).entries(),
            answers_log(e@, final(self).entries(), final(self).replica_id()),
            final(self).committed() >= old(self).committed(),
            match event {
                NodeEvent::Handle(Message::OrderedRequest(m, r)) => takes_ordered(*old(self), *final(self), m, r@, e@),
                _ => *final(self) == *old(self) && e@.len() == 0,
            },
            // replaying a committed request changes nothing
            event matches NodeEvent::Handle(Message::OrderedRequest(m, _)) && m.seq <= old(self).committed()
                ==> *final(self) == *old(self),
    {
        match event {
            NodeEvent::Handle(Message::OrderedRequest(m, r)) => self.insert_request(m, r),
            _ => {
                proof {
                    assert(self.log@.subrange(0, self.log@.len() as int) =~= self.log@);
                }
                Vec::new()
            },
        }
    }
}

/// Agreement: two replicas whose ordered requests came from one sequencer
/// that never gave two requests the same sequence number hold the same
/// request at every log position that both have.
pub proof fn lemma_agreement(a: &Replica, b: &Replica, n: int)
    requires
        a.wf(),
        b.wf(),
        0 <= n < a.entries().len(),
        n < b.entries().len(),
        forall|s: u32, x: RequestView, y: RequestView|
            #[trigger] a.arrivals().contains((s, x)) && #[trigger] b.arrivals().contains((s, y)) ==> x == y,
    ensures
        a.entries()[n].request@ == b.entries()[n].request@,
{
    assert(a.arrivals().contains(((n + 1) as u32, a.entries()[n].request@)));
    assert(b.arrivals().contains(((n + 1) as u32, b.entries()[n].request@)));
}

/// Each log position holds a request that arrived for that very sequence
/// number; since `update` lets only the request it is handed join the
/// arrivals (`takes_ordered`), positions are filled only from what the
/// sequencer numbered for them.
pub proof fn lemma_log_arrived(r: &Replica, i: int)
    requires
        r.wf(),
        0 <= i < r.entries().len(),
    ensures
        r.arrivals().contains(((i + 1) as u32, r.entries()[i].request@)),
{
}

/// At most once: the application never runs twice for one client and one
/// request number.
pub proof fn lemma_at_most_once(r: &Replica)
    requires
        r.wf(),
    ensures
        r.executions().no_duplicates(),
{
}

/// A replica commits a sequence number only once it holds a signature, a
/// matching link hash, or MACs from at least 2f+1 replicas for it.
pub proof fn lemma_committed_complete(r: &Replica, s: u32)
    requires
        r.wf(),
        1 <= s <= r.committed(),
    ensures
        r.complete_at(s),
        s <= r.entries().len(),
{
    if s < r.entries().len() {
        assert(r.complete_at(s));
    }
}

/// Chain integrity: the link hash held at each log position is the SHA-256
/// of that position's digest followed by the previous link hash. A link
/// packet is accepted at a sequence number only when it carries the link
/// hash of the position before it (see `Replica::rejects`), so an accepted
/// link equals `SHA-256(previous digest || previous link hash)`.
pub proof fn lemma_link_chain(r: &Replica, i: int)
    requires
        r.wf(),
        0 <= i < r.entries().len(),
    ensures
        r.entries()[i].next_link@ == sha256_of(r.entries()[i].digest@ + r.link_before(i + 1)),
{
}

} // verus!
