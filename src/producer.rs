//! Producers of the per-dispatch context that handlers receive.

use vstd::prelude::*;

verus! {

/// Makes a fresh context value for each dispatch.
pub trait Producer<C> {
    /// `c` is a context value that this producer may hand out. A producer
    /// that does not say so may hand out any value.
    open spec fn produces(&self, c: C) -> bool {
        true
    }

    /// A new context value.
    fn get_new(&self) -> (c: C)
        ensures
            self.produces(c),
    ;
}

/// The placeholder context, for handlers that need none.
pub struct Dummy;

/// The default producer: it hands out `Dummy`.
pub struct DummyProducer;

impl Default for DummyProducer {
    fn default() -> (r: DummyProducer) {
        DummyProducer
    }
}

impl Producer<Dummy> for DummyProducer {
    open spec fn produces(&self, c: Dummy) -> bool {
        c == Dummy
    }

    fn get_new(&self) -> (r: Dummy) {
        Dummy
    }
}

} // verus!
