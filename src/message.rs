//! The messages that clients, the sequencer and replicas exchange.
use vstd::prelude::*;

verus! {

/// An IP socket address, held as its octets and port.
#[derive(Clone, Copy, Debug, PartialEq, Eq, Hash)]
#[allow(inconsistent_fields)]
pub enum NetAddr {
    V4 { ip: [u8; 4], port: u16 },
    V6 { ip: [u8; 16], port: u16 },
}

/// The address of a node: a socket, or an identity in a simulated network.
#[derive(Clone, Copy, Debug, PartialEq, Eq, Hash)]
pub enum NodeAddr {
    TestClient(u32),
    TestReplica(u32),
    Socket(NetAddr),
}

/// A client's request. `request_num` grows strictly for each client.
#[derive(Clone, Debug)]
pub struct Request {
    pub client_id: u32,
    pub client_addr: NodeAddr,
    pub request_num: u32,
    pub op: Vec<u8>,
}

pub struct RequestView {
    pub client_id: u32,
    pub client_addr: NodeAddr,
    pub request_num: u32,
    pub op: Seq<u8>,
}

impl View for Request {
    type V = RequestView;

    open spec fn view(&self) -> RequestView {
        RequestView {
            client_id: self.client_id,
            client_addr: self.client_addr,
            request_num: self.request_num,
            op: self.op@,
        }
    }
}

/// How the sequencer authenticated an ordered packet.
#[derive(Clone, Copy, Debug, PartialEq, Eq)]
pub enum MulticastCrypto {
    /// Four-byte MACs for replicas `index .. index + 4`, in that order.
    SipHash { index: u8, macs: [u8; 16] },
    /// A compact ECDSA signature over the digest.
    P256 { signature: [u8; 64] },
    /// No signature: the link hash of the chain up to the previous packet.
    Link { link_hash: [u8; 32] },
}

/// The ordering header that the sequencer puts on a request, with the
/// digest that the receiver computed over the packet.
#[derive(Clone, Copy, Debug, PartialEq, Eq)]
pub struct Multicast {
    pub seq: u32,
    pub crypto: MulticastCrypto,
    pub digest: [u8; 32],
}

/// A replica's reply to a request.
#[derive(Clone, Debug)]
pub struct Reply {
    pub request_num: u32,
    pub result: Vec<u8>,
    pub replica_id: u8,
    pub seq: u32,
}

pub struct ReplyView {
    pub request_num: u32,
    pub result: Seq<u8>,
    pub replica_id: u8,
    pub seq: u32,
}

impl View for Reply {
    type V = ReplyView;

    open spec fn view(&self) -> ReplyView {
        ReplyView {
            request_num: self.request_num,
            result: self.result@,
            replica_id: self.replica_id,
            seq: self.seq,
        }
    }
}

#[derive(Clone, Debug)]
pub enum Message {
    Request(Request),
    OrderedRequest(Multicast, Request),
    Reply(Reply),
}

pub enum MessageView {
    Request(RequestView),
    OrderedRequest(Multicast, RequestView),
    Reply(ReplyView),
}

impl View for Message {
    type V = MessageView;

    open spec fn view(&self) -> MessageView {
        match self {
            Message::Request(r) => MessageView::Request(r@),
            Message::OrderedRequest(m, r) => MessageView::OrderedRequest(*m, r@),
            Message::Reply(r) => MessageView::Reply(r@),
        }
    }
}

/// A copy of a byte slice.
pub fn copy_bytes(b: &[u8]) -> (r: Vec<u8>)
    ensures
        r@ == b@,
{
    vstd::slice::slice_to_vec(b)
}

/// Whether two byte slices hold the same bytes.
pub fn same_bytes(a: &[u8], b: &[u8]) -> (r: bool)
    ensures
        r == (a@ == b@),
{
    if a.len() != b.len() {
        return false;
    }
    let mut i: usize = 0;
    while i < a.len()
        invariant
            i <= a.len() == b.len(),
            forall|j: int| 0 <= j < i ==> a@[j] == b@[j],
        decreases a.len() - i,
    {
        if a[i] != b[i] {
            return false;
        }
        i += 1;
    }
    assert(a@ =~= b@);
    true
}

/// Whether two socket addresses are equal.
pub fn same_net(a: &NetAddr, b: &NetAddr) -> (r: bool)
    ensures
        r == (a == b),
{
    broadcast use vstd::array::group_array_axioms;

    match (a, b) {
        (NetAddr::V4 { ip: x, port: p }, NetAddr::V4 { ip: y, port: q }) => {
            let e = same_bytes(x.as_slice(), y.as_slice());
            if e {
                assert(*x =~= *y);
            }
            e && *p == *q
        },
        (NetAddr::V6 { ip: x, port: p }, NetAddr::V6 { ip: y, port: q }) => {
            let e = same_bytes(x.as_slice(), y.as_slice());
            if e {
                assert(*x =~= *y);
            }
            e && *p == *q
        },
        _ => false,
    }
}

/// Whether two node addresses are equal.
pub fn same_node(a: &NodeAddr, b: &NodeAddr) -> (r: bool)
    ensures
        r == (a == b),
{
    match (a, b) {
        (NodeAddr::TestClient(x), NodeAddr::TestClient(y)) => *x == *y,
        (NodeAddr::TestReplica(x), NodeAddr::TestReplica(y)) => *x == *y,
        (NodeAddr::Socket(x), NodeAddr::Socket(y)) => same_net(x, y),
        _ => false,
    }
}

impl Request {
    pub fn duplicate(&self) -> (r: Request)
        ensures
            r@ == self@,
    {
        Request {
            client_id: self.client_id,
            client_addr: self.client_addr,
            request_num: self.request_num,
            op: copy_bytes(self.op.as_slice()),
        }
    }

    /// Whether two requests are the same, field by field and byte by byte.
    pub fn same_as(&self, other: &Request) -> (r: bool)
        ensures
            r == (self@ == other@),
    {
        self.client_id == other.client_id && same_node(&self.client_addr, &other.client_addr)
            && self.request_num == other.request_num && same_bytes(
            self.op.as_slice(),
            other.op.as_slice(),
        )
    }
}

impl Reply {
    pub fn duplicate(&self) -> (r: Reply)
        ensures
            r@ == self@,
    {
        Reply {
            request_num: self.request_num,
            result: copy_bytes(self.result.as_slice()),
            replica_id: self.replica_id,
            seq: self.seq,
        }
    }
}

} // verus!
