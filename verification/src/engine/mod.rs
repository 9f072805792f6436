//! The abstract storage engine a server front end is written against.

use crate::error::Error;
use vstd::prelude::*;

mod store;

pub use store::Store;

verus! {

/// What any storage engine promises: it behaves as a map from keys to
/// values.
pub trait Engine {
    /// The key-value mapping the engine holds.
    spec fn model(&self) -> Map<Seq<char>, Seq<char>>;

    /// The engine's internal invariant.
    spec fn inv(&self) -> bool;

    /// Looks a key up; an absent key is a normal `None`, not an error.
    fn get(&self, key: &String) -> (r: Result<Option<String>, Error>)
        requires
            self.inv(),
        ensures
            r is Ok,
            self.model().dom().contains(key@) ==> (r->Ok_0 matches Some(v) && v@ == self.model()[key@]),
            !self.model().dom().contains(key@) ==> r->Ok_0 is None,
    ;

    /// Binds a key to a value.
    fn set(&mut self, key: &String, val: &String) -> (r: Result<(), Error>)
        requires
            old(self).inv(),
        ensures
            r is Ok,
            final(self).inv(),
            final(self).model() == old(self).model().insert(key@, val@),
    ;

    /// Drops a key; dropping an absent key changes nothing and is no error.
    fn del(&mut self, key: &String) -> (r: Result<(), Error>)
        requires
            old(self).inv(),
        ensures
            r is Ok,
            final(self).inv(),
            final(self).model() == old(self).model().remove(key@),
    ;
}

} // verus!
