//! The replicated application: a pure function from an operation to its
//! result.
use vstd::prelude::*;

verus! {

#[derive(Clone, Copy, Debug, PartialEq, Eq)]
pub enum App {
    /// Answers every operation with an empty result.
    Null,
    /// Answers every operation with the operation itself.
    Echo,
}

pub open spec fn app_result(app: App, op: Seq<u8>) -> Seq<u8> {
    match app {
        App::Null => Seq::empty(),
        App::Echo => op,
    }
}

impl App {
    pub fn execute(&self, op: &[u8]) -> (r: Vec<u8>)
        ensures
            r@ == app_result(*self, op@),
    {
        match self {
            App::Null => Vec::new(),
            App::Echo => crate::message::copy_bytes(op),
        }
    }
}

} // verus!
