//! The pipeline algebra: stages that map events to effects, and effects
//! that compose.
use crate::node::{effect_atoms, NodeEffect};
use vstd::prelude::*;

verus! {

/// A stage: consumes an event, produces an effect.
pub trait Protocol<E>: Sized {
    type Effect;

    /// Taking `event` may leave the stage as `after` with `effect`.
    spec fn step(&self, event: E, after: Self, effect: Self::Effect) -> bool;

    fn update(&mut self, event: E) -> (r: Self::Effect)
        ensures
            old(self).step(event, *final(self), r),
    ;
}

/// An effect made of atomic effects, with a neutral element.
pub trait Composite: Sized {
    type Atom;

    /// The atoms, in order.
    spec fn atoms(&self) -> Seq<Self::Atom>;

    fn nop() -> (r: Self)
        ensures
            r.atoms().len() == 0,
    ;

    fn compose(self, other: Self) -> (r: Self)
        ensures
            r.atoms() == self.atoms() + other.atoms(),
    ;

    /// Takes out the last atom, leaving the others.
    fn decompose(&mut self) -> (r: Option<Self::Atom>)
        ensures
            old(self).atoms().len() == 0 ==> r is None && final(self).atoms().len() == 0,
            old(self).atoms().len() > 0 ==> r == Some(old(self).atoms().last()) && final(self).atoms()
                == old(self).atoms().drop_last(),
    ;
}

impl<E> Composite for Vec<E> {
    type Atom = E;

    open spec fn atoms(&self) -> Seq<E> {
        self@
    }

    fn nop() -> (r: Self) {
        Vec::new()
    }

    fn compose(self, other: Self) -> (r: Self) {
        let mut v = self;
        let mut w = other;
        v.append(&mut w);
        v
    }

    fn decompose(&mut self) -> (r: Option<E>) {
        self.pop()
    }
}

impl<M> Composite for NodeEffect<M> {
    type Atom = NodeEffect<M>;

    open spec fn atoms(&self) -> Seq<NodeEffect<M>> {
        effect_atoms(*self)
    }

    fn nop() -> (r: Self) {
        NodeEffect::Nop
    }

    fn compose(self, other: Self) -> (r: Self) {
        NodeEffect::compose(self, other)
    }

    fn decompose(&mut self) -> (r: Option<NodeEffect<M>>) {
        NodeEffect::decompose(self)
    }
}

/// Two stages in a row: the effect of the first is the event of the second.
pub struct Then<A, B>(pub A, pub B);

impl<E, A: Protocol<E>, B: Protocol<A::Effect>> Protocol<E> for Then<A, B> {
    type Effect = B::Effect;

    open spec fn step(&self, event: E, after: Self, effect: B::Effect) -> bool {
        exists|x: A::Effect| #[trigger] self.0.step(event, after.0, x) && self.1.step(x, after.1, effect)
    }

    fn update(&mut self, event: E) -> (r: B::Effect) {
        let x = self.0.update(event);
        let r = self.1.update(x);
        assert(old(self).0.step(event, self.0, x));
        r
    }
}

/// `b` takes `events` one by one, from first to last, going to `after`; the
/// `k`-th step gives `effects[k]`.
pub open spec fn steps<E, B: Protocol<E>>(b: B, events: Seq<E>, after: B, effects: Seq<B::Effect>) -> bool {
    exists|states: Seq<B>| #[trigger] passes(states, b, events, after, effects)
}

/// `states` are the stages before and after each step of `steps`.
pub open spec fn passes<E, B: Protocol<E>>(states: Seq<B>, b: B, events: Seq<E>, after: B, effects: Seq<B::Effect>) -> bool {
    &&& states.len() == events.len() + 1
    &&& effects.len() == events.len()
    &&& states[0] == b
    &&& states.last() == after
    &&& forall|k: int| 0 <= k < events.len() ==> #[trigger] states[k].step(events[k], states[k + 1], effects[k])
}

/// The atoms of several effects, one after the other.
pub open spec fn flatten<C: Composite>(effects: Seq<C>) -> Seq<C::Atom>
    decreases effects.len(),
{
    if effects.len() == 0 {
        Seq::empty()
    } else {
        flatten(effects.drop_last()) + effects.last().atoms()
    }
}

/// The atoms of `x` in the order `decompose` takes them out: last first.
pub open spec fn taken_order<T>(atoms: Seq<T>) -> Seq<T> {
    Seq::new(atoms.len(), |k: int| atoms[atoms.len() - 1 - k])
}

/// Two stages in a row, the second run once for each atom of the first's
/// effect, in the order `decompose` takes them out, its effects composed in
/// that order.
pub struct EachThen<A, B>(pub A, pub B);

impl<E, A, B> Protocol<E> for EachThen<A, B> where
    A: Protocol<E>,
    A::Effect: Composite,
    B: Protocol<<A::Effect as Composite>::Atom>,
    B::Effect: Composite,
 {
    type Effect = B::Effect;

    open spec fn step(&self, event: E, after: Self, effect: B::Effect) -> bool {
        exists|x: A::Effect, ys: Seq<B::Effect>|
            #[trigger] self.0.step(event, after.0, x) && #[trigger] steps(
                self.1,
                taken_order(x.atoms()),
                after.1,
                ys,
            ) && effect.atoms() == flatten(ys)
    }

    fn update(&mut self, event: E) -> (r: B::Effect) {
        let mut a = self.0.update(event);
        let ghost x = a;
        let ghost all = x.atoms();
        let ghost b0 = self.1;
        let ghost mut evs: Seq<<A::Effect as Composite>::Atom> = Seq::empty();
        let ghost mut ys: Seq<B::Effect> = Seq::empty();
        let ghost mut states: Seq<B> = seq![b0];
        let mut b = B::Effect::nop();
        assert(b.atoms() =~= flatten(ys));
        assert(evs =~= taken_order(all.subrange(all.len() as int, all.len() as int)));
        loop
            invariant
                old(self).0.step(event, self.0, x),
                all == x.atoms(),
                a.atoms() == all.subrange(0, a.atoms().len() as int),
                a.atoms().len() <= all.len(),
                evs == taken_order(all.subrange(a.atoms().len() as int, all.len() as int)),
                passes(states, b0, evs, self.1, ys),
                b.atoms() == flatten(ys),
            ensures
                old(self).0.step(event, self.0, x),
                passes(states, b0, taken_order(all), self.1, ys),
                b.atoms() == flatten(ys),
            decreases a.atoms().len(),
        {
            let ghost before_b = self.1;
            let ghost n = a.atoms().len();
            match a.decompose() {
                Some(atom) => {
                    let y = self.1.update(atom);
                    let ghost evs0 = evs;
                    let ghost ys0 = ys;
                    let ghost st0 = states;
                    proof {
                        evs = evs.push(atom);
                        ys = ys.push(y);
                        states = states.push(self.1);
                        assert forall|k: int| 0 <= k < evs.len() implies #[trigger] states[k].step(evs[k], states[k + 1], ys[k]) by {
                            if k < evs0.len() {
                                assert(st0[k].step(evs0[k], st0[k + 1], ys0[k]));
                            }
                        }
                        assert(evs =~= taken_order(all.subrange(n - 1, all.len() as int)));
                        assert(a.atoms() =~= all.subrange(0, n - 1));
                        assert(ys.drop_last() =~= ys0);
                    }
                    b = b.compose(y);
                    assert(b.atoms() =~= flatten(ys)) by {
                        assert(flatten(ys) == flatten(ys.drop_last()) + ys.last().atoms());
                    }
                },
                None => {
                    proof {
                        assert(all.subrange(0, all.len() as int) =~= all);
                    }
                    break;
                },
            }
        }
        assert(passes(states, b0, taken_order(all), self.1, ys));
        assert(steps(b0, taken_order(all), self.1, ys));
        assert(old(self).1 == b0);
        assert(old(self).0.step(event, self.0, x) && steps(old(self).1, taken_order(x.atoms()), self.1, ys)
            && b.atoms() == flatten(ys));
        b
    }
}

/// A value from one of two streams, tagged by its source.
pub enum Multiplex<A, B> {
    A(A),
    B(B),
}

/// Two stages side by side: each event goes to the stage of its tag, and the
/// other stage does not move.
impl<A, B, EA, EB> Protocol<Multiplex<EA, EB>> for (A, B) where A: Protocol<EA>, B: Protocol<EB> {
    type Effect = Multiplex<A::Effect, B::Effect>;

    open spec fn step(&self, event: Multiplex<EA, EB>, after: Self, effect: Multiplex<A::Effect, B::Effect>) -> bool {
        match (event, effect) {
            (Multiplex::A(e), Multiplex::A(x)) => self.0.step(e, after.0, x) && after.1 == self.1,
            (Multiplex::B(e), Multiplex::B(x)) => self.1.step(e, after.1, x) && after.0 == self.0,
            _ => false,
        }
    }

    fn update(&mut self, event: Multiplex<EA, EB>) -> (r: Multiplex<A::Effect, B::Effect>) {
        match event {
            Multiplex::A(e) => Multiplex::A(self.0.update(e)),
            Multiplex::B(e) => Multiplex::B(self.1.update(e)),
        }
    }
}

/// One of two stages with the same input and output.
pub enum OneOf<A, B> {
    A(A),
    B(B),
}

impl<E, F, A: Protocol<E, Effect = F>, B: Protocol<E, Effect = F>> Protocol<E> for OneOf<A, B> {
    type Effect = F;

    /// The held stage steps, and stays held.
    open spec fn step(&self, event: E, after: Self, effect: F) -> bool {
        match (*self, after) {
            (OneOf::A(p), OneOf::A(q)) => p.step(event, q, effect),
            (OneOf::B(p), OneOf::B(q)) => p.step(event, q, effect),
            _ => false,
        }
    }

    fn update(&mut self, event: E) -> (r: F) {
        match self {
            OneOf::A(p) => p.update(event),
            OneOf::B(p) => p.update(event),
        }
    }
}

} // verus!
