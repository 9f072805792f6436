//! The network front end's state: an engine waiting to serve requests. The
//! listener loop itself is unverified plumbing and lives outside the library.

use crate::engine::Engine;
use vstd::prelude::*;

verus! {

/// A server holding the engine it answers from.
pub struct Server<E: Engine> {
    engine: E,
}

impl<E: Engine> Server<E> {
    /// The engine held.
    pub closed spec fn sengine(self) -> E {
        self.engine
    }

    /// A new server over `engine`.
    pub fn new(engine: E) -> (r: Self)
        ensures
            r.sengine() == engine,
    {
        Server { engine }
    }

    /// Hands the engine back, for the loop that serves requests.
    pub fn into_engine(self) -> (r: E)
        ensures
            r == self.sengine(),
    {
        self.engine
    }
}

} // verus!
