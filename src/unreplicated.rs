//! The unreplicated baseline: one replica executes requests in arrival
//! order, with no sequencer.
use crate::app::{app_result, App};
use crate::message::{copy_bytes, NetAddr, NodeAddr, RequestView};
use crate::wire::{
    bytes_with_len, get_bytes_with_len, get_node_addr, get_u32, lemma_join, lemma_join3,
    lemma_split, lemma_split3, le32, node_addr_bytes, put_bytes_with_len, put_node_addr, put_u32,
    request_bytes, starts_at,
};
use crate::node::{ClientEffect, ClientEvent, NodeEffect, NodeEvent};
use std::collections::HashMap;
use vstd::prelude::*;

verus! {

broadcast use vstd::std_specs::hash::group_hash_axioms;

#[derive(Clone, Debug)]
pub struct Request {
    pub client_id: u32,
    pub client_addr: NodeAddr,
    pub seq: u32,
    pub op: Vec<u8>,
}

#[derive(Clone, Debug)]
pub struct Reply {
    pub seq: u32,
    pub result: Vec<u8>,
}

#[derive(Clone, Debug)]
pub enum Message {
    Request(Request),
    Reply(Reply),
}

pub struct ReplyView {
    pub seq: u32,
    pub result: Seq<u8>,
}

impl View for Reply {
    type V = ReplyView;

    open spec fn view(&self) -> ReplyView {
        ReplyView { seq: self.seq, result: self.result@ }
    }
}

impl Reply {
    pub fn duplicate(&self) -> (r: Reply)
        ensures
            r@ == self@,
    {
        Reply { seq: self.seq, result: copy_bytes(self.result.as_slice()) }
    }
}

/// An address bound to the unspecified IPv4 address, which no reply can
/// reach.
pub open spec fn unspecified(a: NodeAddr) -> bool {
    a matches NodeAddr::Socket(NetAddr::V4 { ip, port }) && ip@ == seq![0u8, 0u8, 0u8, 0u8]
}

pub struct Client {
    id: u32,
    addr: NodeAddr,
    replica_addr: NodeAddr,
    seq: u32,
    op: Option<Vec<u8>>,
    ticked: u32,
}

/// `e` sends the request `(id, addr, seq, op)` to `to`.
pub open spec fn sends_request(e: ClientEffect<Message>, to: NodeAddr, id: u32, addr: NodeAddr, seq: u32, op: Seq<u8>) -> bool {
    match e {
        ClientEffect::Node(NodeEffect::Send(a, Message::Request(r))) => a == to && r.client_id == id
            && r.client_addr == addr && r.seq == seq && r.op@ == op,
        _ => false,
    }
}

impl Client {
    pub closed spec fn current_seq(&self) -> u32 {
        self.seq
    }

    pub closed spec fn pending(&self) -> Option<Seq<u8>> {
        match self.op {
            Some(v) => Some(v@),
            None => None,
        }
    }

    pub closed spec fn client_id(&self) -> u32 {
        self.id
    }

    pub closed spec fn ticks(&self) -> u32 {
        self.ticked
    }

    /// The sequence number of the latest request.
    pub fn current(&self) -> (r: u32)
        ensures
            r == self.current_seq(),
    {
        self.seq
    }

    pub closed spec fn address(&self) -> NodeAddr {
        self.addr
    }

    pub closed spec fn replica(&self) -> NodeAddr {
        self.replica_addr
    }

    pub fn new(id: u32, addr: NodeAddr, replica_addr: NodeAddr) -> (r: Client)
        requires
            !unspecified(addr),
        ensures
            r.client_id() == id,
            r.address() == addr,
            r.replica() == replica_addr,
            r.current_seq() == 0,
            r.pending() is None,
            r.ticks() == 0,
    {
        Client { id, addr, replica_addr, seq: 0, op: None, ticked: 0 }
    }

    fn send(&self) -> (e: ClientEffect<Message>)
        requires
            self.op is Some,
        ensures
            sends_request(e, self.replica(), self.client_id(), self.address(), self.current_seq(), self.pending().unwrap()),
    {
        let op = match &self.op {
            Some(op) => copy_bytes(op.as_slice()),
            None => Vec::new(),
        };
        let request = Request { client_id: self.id, client_addr: self.addr, seq: self.seq, op };
        ClientEffect::Node(NodeEffect::Send(self.replica_addr, Message::Request(request)))
    }

    /// Submits an operation, answers a tick (resending from the second tick
    /// on), or takes the reply to the operation in flight.
    pub fn update(&mut self, event: ClientEvent<Message>) -> (e: ClientEffect<Message>)
        requires
            event matches ClientEvent::Op(_) ==> old(self).pending() is None && old(self).current_seq() < u32::MAX,
            !(event matches ClientEvent::Node(NodeEvent::Handle(Message::Request(_)))),
        ensures
            final(self).client_id() == old(self).client_id(),
            final(self).address() == old(self).address(),
            final(self).replica() == old(self).replica(),
            match event {
                ClientEvent::Op(op) => final(self).current_seq() == old(self).current_seq() + 1 && final(self).pending()
                    == Some(op@) && final(self).ticks() == 0 && sends_request(e, final(self).replica(), final(self).client_id(), final(self).address(),
                    final(self).current_seq(), op@),
                ClientEvent::Node(NodeEvent::Handle(Message::Reply(reply))) => final(self).current_seq() == old(self).current_seq()
                    && if old(self).pending() is Some && reply.seq == old(self).current_seq() {
                    final(self).pending() is None && e == ClientEffect::<Message>::Result(reply.result)
                } else {
                    final(self).pending() == old(self).pending() && e matches ClientEffect::Node(NodeEffect::Nop)
                },
                ClientEvent::Node(NodeEvent::Tick) => {
                    &&& final(self).current_seq() == old(self).current_seq()
                    &&& final(self).pending() == old(self).pending()
                    &&& if old(self).pending() is None {
                        final(self).ticks() == old(self).ticks() && e matches ClientEffect::Node(NodeEffect::Nop)
                    } else {
                        &&& final(self).ticks() == if old(self).ticks() == u32::MAX { u32::MAX } else { (old(self).ticks() + 1) as u32 }
                        &&& if final(self).ticks() == 1 {
                            e matches ClientEffect::Node(NodeEffect::Nop)
                        } else {
                            sends_request(e, final(self).replica(), final(self).client_id(), final(self).address(),
                                final(self).current_seq(), final(self).pending().unwrap())
                        }
                    }
                },
                _ => final(self).current_seq() == old(self).current_seq() && final(self).pending() == old(self).pending()
                    && e matches ClientEffect::Node(NodeEffect::Nop),
            },
    {
        match event {
            ClientEvent::Op(op) => {
                self.op = Some(op);
                self.seq = self.seq + 1;
                self.ticked = 0;
                self.send()
            },
            ClientEvent::Node(NodeEvent::Tick) => {
                if self.op.is_none() {
                    return ClientEffect::Node(NodeEffect::Nop);
                }
                if self.ticked < u32::MAX {
                    self.ticked = self.ticked + 1;
                }
                if self.ticked == 1 {
                    return ClientEffect::Node(NodeEffect::Nop);
                }
                self.send()
            },
            ClientEvent::Node(NodeEvent::Handle(Message::Reply(reply))) => {
                if self.op.is_none() || reply.seq != self.seq {
                    return ClientEffect::Node(NodeEffect::Nop);
                }
                self.op = None;
                ClientEffect::Result(reply.result)
            },
            _ => ClientEffect::Node(NodeEffect::Nop),
        }
    }
}

pub struct Replica {
    op_num: u32,
    app: App,
    replies: HashMap<u32, Reply>,
}

impl Replica {
    pub closed spec fn application(&self) -> App {
        self.app
    }

    pub closed spec fn cached(&self) -> Map<u32, ReplyView> {
        self.replies@.map_values(|r: Reply| r@)
    }

    pub fn new(app: App) -> (r: Replica)
        ensures
            r.application() == app,
            r.cached().is_empty(),
    {
        let r = Replica { op_num: 0, app, replies: HashMap::new() };
        assert(r.cached() =~= Map::empty());
        r
    }

    /// Executes a request unless the client's cached reply is newer (the
    /// request is dropped) or answers it (the cached reply is sent again).
    pub fn update(&mut self, event: NodeEvent<Message>) -> (e: NodeEffect<Message>)
        requires
            !(event matches NodeEvent::Handle(Message::Reply(_))),
        ensures
            final(self).application() == old(self).application(),
            match event {
                NodeEvent::Handle(Message::Request(r)) => {
                    let c = r.client_id;
                    let fresh = ReplyView { seq: r.seq, result: app_result(old(self).application(), r.op@) };
                    if old(self).cached().contains_key(c) && old(self).cached()[c].seq > r.seq {
                        e is Nop && final(self).cached() == old(self).cached()
                    } else if old(self).cached().contains_key(c) && old(self).cached()[c].seq == r.seq {
                        (e matches NodeEffect::Send(a, Message::Reply(rep)) && a == r.client_addr && rep@
                            == old(self).cached()[c]) && final(self).cached() == old(self).cached()
                    } else {
                        (e matches NodeEffect::Send(a, Message::Reply(rep)) && a == r.client_addr && rep@ == fresh)
                            && final(self).cached() == old(self).cached().insert(c, fresh)
                    }
                },
                _ => e is Nop && final(self).cached() == old(self).cached(),
            },
    {
        let request = match event {
            NodeEvent::Handle(Message::Request(request)) => request,
            _ => {
                return NodeEffect::Nop;
            },
        };
        match self.replies.get(&request.client_id) {
            Some(reply) => {
                if reply.seq > request.seq {
                    return NodeEffect::Nop;
                }
                if reply.seq == request.seq {
                    return NodeEffect::Send(request.client_addr, Message::Reply(reply.duplicate()));
                }
            },
            None => {},
        }
        if self.op_num < u32::MAX {
            self.op_num = self.op_num + 1;
        }
        let result = self.app.execute(request.op.as_slice());
        let reply = Reply { seq: request.seq, result };
        self.replies.insert(request.client_id, reply.duplicate());
        proof {
            assert(self.cached() =~= old(self).cached().insert(request.client_id, reply@));
        }
        NodeEffect::Send(request.client_addr, Message::Reply(reply))
    }
}

impl View for Request {
    type V = RequestView;

    /// The request's sequence number stands where a replicated request
    /// carries its request number.
    open spec fn view(&self) -> RequestView {
        RequestView {
            client_id: self.client_id,
            client_addr: self.client_addr,
            request_num: self.seq,
            op: self.op@,
        }
    }
}

pub enum MessageView {
    Request(RequestView),
    Reply(ReplyView),
}

impl View for Message {
    type V = MessageView;

    open spec fn view(&self) -> MessageView {
        match self {
            Message::Request(r) => MessageView::Request(r@),
            Message::Reply(r) => MessageView::Reply(r@),
        }
    }
}

/// The encoding of a baseline message: a request is laid out as a
/// replicated one; a reply is its sequence number and result.
pub open spec fn message_bytes(m: MessageView) -> Seq<u8> {
    match m {
        MessageView::Request(r) => le32(0) + request_bytes(r),
        MessageView::Reply(r) => le32(1) + (le32(r.seq) + bytes_with_len(r.result)),
    }
}

pub fn encode_message(m: &Message) -> (r: Vec<u8>)
    ensures
        r@ == message_bytes(m@),
{
    let mut out: Vec<u8> = Vec::new();
    match m {
        Message::Request(r) => {
            put_u32(&mut out, 0);
            put_u32(&mut out, r.client_id);
            put_node_addr(&mut out, &r.client_addr);
            put_u32(&mut out, r.seq);
            put_bytes_with_len(&mut out, r.op.as_slice());
        },
        Message::Reply(r) => {
            put_u32(&mut out, 1);
            put_u32(&mut out, r.seq);
            put_bytes_with_len(&mut out, r.result.as_slice());
        },
    }
    assert(out@ =~= message_bytes(m@));
    out
}

proof fn lemma_message_parts(b: Seq<u8>, m: MessageView)
    requires
        starts_at(b, 0, message_bytes(m)),
    ensures
        match m {
            MessageView::Request(r) => starts_at(b, 0, le32(0)) && starts_at(b, 4, request_bytes(r)),
            MessageView::Reply(r) => starts_at(b, 0, le32(1)) && starts_at(b, 4, le32(r.seq)) && starts_at(
                b,
                8,
                bytes_with_len(r.result),
            ),
        },
{
    match m {
        MessageView::Request(r) => lemma_split(b, 0, le32(0), request_bytes(r)),
        MessageView::Reply(r) => lemma_split3(b, 0, le32(1), le32(r.seq), bytes_with_len(r.result)),
    }
}

/// Decodes the baseline message at the start of `buf`, ignoring trailing
/// bytes; exact in the same way as the replicated codec.
pub fn decode_message(buf: &[u8]) -> (r: Option<Message>)
    ensures
        r matches Some(m) ==> starts_at(buf@, 0, message_bytes(m@)),
        forall|v: MessageView| starts_at(buf@, 0, #[trigger] message_bytes(v)) ==> (r matches Some(m) && m@ == v),
{
    let ghost b = buf@;
    let (tag, at1) = match get_u32(buf, 0) {
        Some(x) => x,
        None => {
            proof {
                assert forall|v: MessageView| !starts_at(b, 0, #[trigger] message_bytes(v)) by {
                    if starts_at(b, 0, message_bytes(v)) { lemma_message_parts(b, v); }
                }
            }
            return None;
        },
    };
    let r = if tag == 0 {
        match crate::wire::get_request(buf, at1) {
            Some((q, _)) => {
                proof { lemma_join(b, 0, le32(0), request_bytes(q@)); }
                Some(Message::Request(Request { client_id: q.client_id, client_addr: q.client_addr, seq: q.request_num, op: q.op }))
            },
            None => None,
        }
    } else if tag == 1 {
        match get_u32(buf, at1) {
            Some((seq, at2)) => match get_bytes_with_len(buf, at2) {
                Some((result, _)) => {
                    proof { lemma_join3(b, 0, le32(1), le32(seq), bytes_with_len(result@)); }
                    Some(Message::Reply(Reply { seq, result }))
                },
                None => None,
            },
            None => None,
        }
    } else {
        None
    };
    proof {
        assert forall|v: MessageView| starts_at(b, 0, #[trigger] message_bytes(v)) implies (r matches Some(m) && m@ == v) by {
            lemma_message_parts(b, v);
        }
    }
    r
}

} // verus!
