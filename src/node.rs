//! The events a node reacts to and the effects it produces.
use crate::message::NodeAddr;
use vstd::prelude::*;

verus! {

pub enum NodeEvent<M> {
    Init,
    Handle(M),
    Tick,
}

/// An effect of a node: nothing, a message to one node, a message to all,
/// or several effects in order.
pub enum NodeEffect<M> {
    Nop,
    Send(NodeAddr, M),
    Broadcast(M),
    Compose(Vec<NodeEffect<M>>),
}

/// What a client reacts to: an operation to submit, or a node event.
pub enum ClientEvent<M> {
    Op(Vec<u8>),
    Node(NodeEvent<M>),
}

/// What a client produces: the result of an operation, or a node effect.
pub enum ClientEffect<M> {
    Result(Vec<u8>),
    Node(NodeEffect<M>),
}

/// The atomic effects that an effect stands for, in order: none for `Nop`,
/// the elements of a composition, the effect itself otherwise.
pub open spec fn effect_atoms<M>(e: NodeEffect<M>) -> Seq<NodeEffect<M>> {
    match e {
        NodeEffect::Nop => Seq::empty(),
        NodeEffect::Compose(v) => v@,
        _ => seq![e],
    }
}

impl<M> NodeEffect<M> {
    /// Composes two effects: the atoms of `self`, then the atoms of `other`.
    /// `Nop` is neutral on both sides.
    pub fn compose(self, other: Self) -> (r: Self)
        ensures
            effect_atoms(r) == effect_atoms(self) + effect_atoms(other),
            self is Nop ==> r == other,
            other is Nop ==> r == self,
    {
        let ghost sa = effect_atoms(self);
        let ghost oa = effect_atoms(other);
        let r = match (self, other) {
            (NodeEffect::Nop, o) => o,
            (s, NodeEffect::Nop) => s,
            (NodeEffect::Compose(mut v), NodeEffect::Compose(mut w)) => {
                v.append(&mut w);
                NodeEffect::Compose(v)
            },
            (NodeEffect::Compose(mut v), o) => {
                v.push(o);
                NodeEffect::Compose(v)
            },
            (s, NodeEffect::Compose(mut w)) => {
                let mut v = Vec::new();
                v.push(s);
                v.append(&mut w);
                NodeEffect::Compose(v)
            },
            (s, o) => {
                let mut v = Vec::new();
                v.push(s);
                v.push(o);
                NodeEffect::Compose(v)
            },
        };
        assert(effect_atoms(r) =~= sa + oa);
        r
    }

    /// Takes out the last atom; `None` when there is none. What is left
    /// holds the other atoms, in order.
    pub fn decompose(&mut self) -> (r: Option<Self>)
        ensures
            effect_atoms(*old(self)).len() == 0 ==> r is None && *final(self) is Nop,
            effect_atoms(*old(self)).len() > 0 ==> r == Some(effect_atoms(*old(self)).last())
                && effect_atoms(*final(self)) == effect_atoms(*old(self)).drop_last(),
    {
        let (n, is_compose) = match self {
            NodeEffect::Nop => {
                return None;
            },
            NodeEffect::Compose(v) => (v.len(), true),
            _ => (1, false),
        };
        let ghost before = effect_atoms(*self);
        if n == 0 {
            *self = NodeEffect::Nop;
            return None;
        }
        if is_compose {
            let r = match self {
                NodeEffect::Compose(v) => v.pop(),
                _ => None,
            };
            assert(effect_atoms(*self) =~= before.drop_last());
            r
        } else {
            let mut out = NodeEffect::Nop;
            core::mem::swap(self, &mut out);
            assert(effect_atoms(*self) =~= before.drop_last());
            Some(out)
        }
    }
}

impl<M> ClientEffect<M> {
    /// Composes two client effects: a result composes only with `Nop`.
    pub fn compose(self, other: Self) -> (r: Self)
        requires
            self matches ClientEffect::Node(NodeEffect::Nop) || other matches ClientEffect::Node(NodeEffect::Nop),
            !(self matches ClientEffect::Node(NodeEffect::Send(_, _)) || self matches ClientEffect::Node(NodeEffect::Broadcast(_))
                || self matches ClientEffect::Node(NodeEffect::Compose(_))),
            !(other matches ClientEffect::Node(NodeEffect::Send(_, _)) || other matches ClientEffect::Node(NodeEffect::Broadcast(_))
                || other matches ClientEffect::Node(NodeEffect::Compose(_))),
        ensures
            self matches ClientEffect::Node(NodeEffect::Nop) ==> r == other,
            other matches ClientEffect::Node(NodeEffect::Nop) ==> r == self,
    {
        match (self, other) {
            (ClientEffect::Node(NodeEffect::Nop), o) => o,
            (s, _) => s,
        }
    }

    /// Takes one effect out: a result whole, leaving `Nop`; from a node
    /// effect, its last atom.
    pub fn decompose(&mut self) -> (r: Option<Self>)
        ensures
            match *old(self) {
                ClientEffect::Result(v) => r == Some(ClientEffect::<M>::Result(v)) && *final(self) matches ClientEffect::Node(NodeEffect::Nop),
                ClientEffect::Node(e) => *final(self) matches ClientEffect::Node(f) && if effect_atoms(e).len() == 0 {
                    r is None && f is Nop
                } else {
                    r == Some(ClientEffect::<M>::Node(effect_atoms(e).last())) && effect_atoms(f) == effect_atoms(e).drop_last()
                },
            },
    {
        match self {
            ClientEffect::Result(_) => {
                let mut out = ClientEffect::Node(NodeEffect::Nop);
                core::mem::swap(self, &mut out);
                Some(out)
            },
            ClientEffect::Node(e) => match e.decompose() {
                Some(x) => Some(ClientEffect::Node(x)),
                None => None,
            },
        }
    }
}

} // verus!
