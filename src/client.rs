//! The client: numbers its requests, sends them to the sequencer and
//! delivers a result once 2f+1 replicas have answered.
use crate::message::{Message, NodeAddr, Reply, ReplyView, Request, RequestView};
use crate::node::{ClientEffect, ClientEvent, NodeEffect, NodeEvent};
use std::collections::HashMap;
use vstd::prelude::*;

verus! {

broadcast use vstd::std_specs::hash::group_hash_axioms;

pub struct Client {
    id: u32,
    addr: NodeAddr,
    multicast_addr: NodeAddr,
    request_num: u32,
    op: Option<Vec<u8>>,
    results: HashMap<u8, Reply>,
    ticked: u32,
    f: usize,
    /// Deliver only once 2f+1 kept replies carry the same result.
    match_results: bool,
}

/// `e` sends `req` to `to` as a plain request.
pub open spec fn sends_request(e: ClientEffect<Message>, to: NodeAddr, req: RequestView) -> bool {
    match e {
        ClientEffect::Node(NodeEffect::Send(a, Message::Request(r))) => a == to && r@ == req,
        _ => false,
    }
}

pub open spec fn is_nop(e: ClientEffect<Message>) -> bool {
    e matches ClientEffect::Node(NodeEffect::Nop)
}

impl Client {
    pub closed spec fn client_id(&self) -> u32 {
        self.id
    }

    pub closed spec fn address(&self) -> NodeAddr {
        self.addr
    }

    pub closed spec fn sequencer(&self) -> NodeAddr {
        self.multicast_addr
    }

    pub closed spec fn current_num(&self) -> u32 {
        self.request_num
    }

    /// The operation in flight, if any.
    pub closed spec fn pending(&self) -> Option<Seq<u8>> {
        match self.op {
            Some(v) => Some(v@),
            None => None,
        }
    }

    /// The replies gathered for the operation in flight, by replica id.
    pub closed spec fn gathered(&self) -> Map<u8, ReplyView> {
        self.results@.map_values(|r: Reply| r@)
    }

    pub closed spec fn ticks(&self) -> u32 {
        self.ticked
    }

    pub closed spec fn fault_bound(&self) -> usize {
        self.f
    }

    pub closed spec fn matches_results(&self) -> bool {
        self.match_results
    }

    /// The request that the client sends for its operation in flight.
    pub open spec fn request_spec(&self) -> RequestView {
        RequestView {
            client_id: self.client_id(),
            client_addr: self.address(),
            request_num: self.current_num(),
            op: self.pending().unwrap(),
        }
    }

    pub closed spec fn wf(&self) -> bool {
        &&& self.op is None ==> self.results@.is_empty()
        &&& !self.match_results ==> self.results@.len() <= 2 * self.f
        &&& forall|i: u8| #[trigger] self.results@.contains_key(i) ==> self.results@[i].request_num
            == self.request_num && self.results@[i].replica_id == i
    }

    pub fn new(id: u32, addr: NodeAddr, multicast_addr: NodeAddr, f: usize) -> (r: Client)
        ensures
            r.wf(),
            r.client_id() == id,
            r.address() == addr,
            r.sequencer() == multicast_addr,
            r.current_num() == 0,
            r.pending() is None,
            r.gathered().is_empty(),
            r.ticks() == 0,
            r.fault_bound() == f,
            !r.matches_results(),
    {
        let r = Client {
            id,
            addr,
            multicast_addr,
            request_num: 0,
            op: None,
            results: HashMap::new(),
            ticked: 0,
            f,
            match_results: false,
        };
        assert(r.gathered() =~= Map::empty());
        r
    }

    /// A client that delivers a result only once 2f+1 distinct replicas
    /// replied with that same result.
    pub fn with_matching_results(id: u32, addr: NodeAddr, multicast_addr: NodeAddr, f: usize) -> (r: Client)
        ensures
            r.wf(),
            r.client_id() == id,
            r.address() == addr,
            r.sequencer() == multicast_addr,
            r.current_num() == 0,
            r.pending() is None,
            r.gathered().is_empty(),
            r.ticks() == 0,
            r.fault_bound() == f,
            r.matches_results(),
    {
        let mut r = Client::new(id, addr, multicast_addr, f);
        r.match_results = true;
        r
    }

    /// The replica ids whose kept reply carries `result`.
    pub open spec fn agreeing(kept: Map<u8, ReplyView>, result: Seq<u8>) -> Set<u8> {
        kept.dom().filter(|i: u8| kept[i].result == result)
    }

    /// Counts the kept replies that carry `result`.
    fn count_matching(&self, result: &[u8]) -> (n: u32)
        ensures
            n == Self::agreeing(self.gathered(), result@).len(),
            n <= 256,
    {
        let ghost dom = self.results@.dom();
        let ghost kept = self.gathered();
        let mut n: u32 = 0;
        let mut i: u32 = 0;
        assert(dom.filter(|id: u8| (id as u32) < 0 && kept[id].result == result@) =~= Set::empty());
        while i < 256
            invariant
                i <= 256,
                n <= i,
                dom == self.results@.dom(),
                kept == self.gathered(),
                n == dom.filter(|id: u8| (id as u32) < i && kept[id].result == result@).len(),
            decreases 256 - i,
        {
            let ghost before = dom.filter(|id: u8| (id as u32) < i && kept[id].result == result@);
            let ghost after = dom.filter(|id: u8| (id as u32) < i + 1 && kept[id].result == result@);
            proof {
                dom.lemma_len_filter(|id: u8| (id as u32) < i && kept[id].result == result@);
            }
            match self.results.get(&(i as u8)) {
                Some(rep) => {
                    if crate::message::same_bytes(rep.result.as_slice(), result) {
                        proof {
                            assert(after =~= before.insert(i as u8));
                            assert(!before.contains(i as u8));
                        }
                        n = n + 1;
                    } else {
                        proof {
                            assert(after =~= before);
                        }
                    }
                },
                None => {
                    proof {
                        assert(after =~= before);
                    }
                },
            }
            i = i + 1;
        }
        proof {
            assert(dom.filter(|id: u8| (id as u32) < 256 && kept[id].result == result@) =~= Self::agreeing(kept, result@));
        }
        n
    }

    /// The number of the latest request.
    pub fn request_num(&self) -> (r: u32)
        ensures
            r == self.current_num(),
    {
        self.request_num
    }

    /// Whether an operation is in flight.
    pub fn in_flight(&self) -> (r: bool)
        ensures
            r == self.pending() is Some,
    {
        self.op.is_some()
    }

    fn do_request(&self) -> (e: ClientEffect<Message>)
        requires
            self.op is Some,
        ensures
            sends_request(e, self.sequencer(), self.request_spec()),
    {
        let op = match &self.op {
            Some(op) => crate::message::copy_bytes(op.as_slice()),
            None => Vec::new(),
        };
        let request = Request {
            client_id: self.id,
            client_addr: self.addr,
            request_num: self.request_num,
            op,
        };
        ClientEffect::Node(NodeEffect::Send(self.multicast_addr, Message::Request(request)))
    }

    /// Submits an operation, answers a tick, or takes a reply.
    ///
    /// A new operation gets the next request number and is sent to the
    /// sequencer. A tick with an operation in flight counts; from the second
    /// tick on the request is sent again. A reply for the operation in
    /// flight is kept by replica id; when replies from 2f+1 distinct replicas
    /// are kept, the operation ends and the result of the last reply is
    /// delivered.
    pub fn update(&mut self, event: ClientEvent<Message>) -> (e: ClientEffect<Message>)
        requires
            old(self).wf(),
            event matches ClientEvent::Op(_) ==> old(self).pending() is None && old(self).current_num() < u32::MAX,
            !(event matches ClientEvent::Node(NodeEvent::Handle(Message::Request(_)))),
            !(event matches ClientEvent::Node(NodeEvent::Handle(Message::OrderedRequest(_, _)))),
        ensures
            final(self).wf(),
            final(self).client_id() == old(self).client_id(),
            final(self).address() == old(self).address(),
            final(self).sequencer() == old(self).sequencer(),
            final(self).fault_bound() == old(self).fault_bound(),
            final(self).matches_results() == old(self).matches_results(),
            match event {
                ClientEvent::Op(op) => {
                    &&& final(self).current_num() == old(self).current_num() + 1
                    &&& final(self).pending() == Some(op@)
                    &&& final(self).gathered() == old(self).gathered()
                    &&& final(self).ticks() == 0
                    &&& sends_request(e, final(self).sequencer(), final(self).request_spec())
                },
                ClientEvent::Node(NodeEvent::Tick) => {
                    &&& final(self).current_num() == old(self).current_num()
                    &&& final(self).pending() == old(self).pending()
                    &&& final(self).gathered() == old(self).gathered()
                    &&& if old(self).pending() is None {
                        final(self).ticks() == old(self).ticks() && is_nop(e)
                    } else {
                        &&& final(self).ticks() == if old(self).ticks() == u32::MAX { u32::MAX } else { (old(self).ticks() + 1) as u32 }
                        &&& if final(self).ticks() == 1 {
                            is_nop(e)
                        } else {
                            sends_request(e, final(self).sequencer(), final(self).request_spec())
                        }
                    }
                },
                ClientEvent::Node(NodeEvent::Handle(Message::Reply(reply))) => {
                    let accepted = old(self).pending() is Some && reply.request_num == old(self).current_num();
                    let kept = old(self).gathered().insert(reply.replica_id, reply@);
                    let agree = Self::agreeing(kept, reply.result@);
                    &&& final(self).current_num() == old(self).current_num()
                    &&& final(self).ticks() == old(self).ticks()
                    &&& if !accepted {
                        final(self).pending() == old(self).pending() && final(self).gathered()
                            == old(self).gathered() && is_nop(e)
                    } else if old(self).matches_results() {
                        if agree.len() >= 2 * old(self).fault_bound() + 1 {
                            &&& final(self).pending() is None
                            &&& final(self).gathered().is_empty()
                            &&& e == ClientEffect::<Message>::Result(reply.result)
                        } else {
                            final(self).pending() == old(self).pending() && final(self).gathered() == kept
                                && is_nop(e)
                        }
                    } else if kept.len() == 2 * old(self).fault_bound() + 1 {
                        &&& final(self).pending() is None
                        &&& final(self).gathered().is_empty()
                        &&& e == ClientEffect::<Message>::Result(reply.result)
                    } else {
                        final(self).pending() == old(self).pending() && final(self).gathered() == kept
                            && is_nop(e)
                    }
                },
                _ => final(self).current_num() == old(self).current_num() && final(self).pending()
                    == old(self).pending() && final(self).gathered() == old(self).gathered()
                    && final(self).ticks() == old(self).ticks() && is_nop(e),
            },
            // Quorum delivery: a result is delivered only once 2f+1 distinct
            // replicas replied for the current request number.
            e is Result ==> (event matches ClientEvent::Node(NodeEvent::Handle(Message::Reply(reply)))
                && reply.request_num == old(self).current_num() && {
                    let kept = old(self).gathered().insert(reply.replica_id, reply@);
                    &&& kept.len() >= 2 * old(self).fault_bound() + 1
                    &&& forall|i: u8| #[trigger] kept.contains_key(i) ==> kept[i].request_num == old(self).current_num()
                        && kept[i].replica_id == i
                    &&& old(self).matches_results() ==> Self::agreeing(kept, reply.result@).len() >= 2
                        * old(self).fault_bound() + 1
                }),
    {
        match event {
            ClientEvent::Op(op) => {
                self.op = Some(op);
                self.request_num = self.request_num + 1;
                self.ticked = 0;
                proof {
                    assert(self.gathered() =~= old(self).gathered());
                }
                self.do_request()
            },
            ClientEvent::Node(NodeEvent::Init) => ClientEffect::Node(NodeEffect::Nop),
            ClientEvent::Node(NodeEvent::Tick) => {
                if self.op.is_none() {
                    return ClientEffect::Node(NodeEffect::Nop);
                }
                if self.ticked < u32::MAX {
                    self.ticked = self.ticked + 1;
                }
                if self.ticked == 1 {
                    return ClientEffect::Node(NodeEffect::Nop);
                }
                self.do_request()
            },
            ClientEvent::Node(NodeEvent::Handle(Message::Reply(reply))) => {
                if self.op.is_none() || reply.request_num != self.request_num {
                    return ClientEffect::Node(NodeEffect::Nop);
                }
                let ghost kept = old(self).gathered().insert(reply.replica_id, reply@);
                let ghost old_results = self.results@;
                self.results.insert(reply.replica_id, reply.duplicate());
                proof {
                    assert(self.gathered() =~= kept);
                    assert(self.results@.dom() =~= old_results.dom().insert(reply.replica_id));
                    assert(kept.dom() =~= self.results@.dom());
                }
                if self.match_results {
                    let agree = self.count_matching(reply.result.as_slice());
                    if self.f < 128 && (agree as usize) > 2 * self.f {
                        proof {
                            vstd::set_lib::lemma_len_subset(Self::agreeing(kept, reply.result@), kept.dom());
                        }
                        self.results.clear();
                        self.op = None;
                        proof {
                            assert(self.gathered() =~= Map::empty());
                        }
                        return ClientEffect::Result(reply.result);
                    }
                    return ClientEffect::Node(NodeEffect::Nop);
                }
                let n = self.results.len();
                if n % 2 == 1 && n / 2 == self.f {
                    self.results.clear();
                    self.op = None;
                    proof {
                        assert(self.gathered() =~= Map::empty());
                    }
                    ClientEffect::Result(reply.result)
                } else {
                    proof {
                        if old_results.contains_key(reply.replica_id) {
                            assert(old_results.dom().insert(reply.replica_id) =~= old_results.dom());
                        }
                    }
                    ClientEffect::Node(NodeEffect::Nop)
                }
            },
            _ => ClientEffect::Node(NodeEffect::Nop),
        }
    }
}

} // verus!
