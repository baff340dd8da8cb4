//! Game objects named by their id.
use vstd::prelude::*;

verus! {

/// A game object, named by its id.
pub struct Object {
    id: u64,
}

impl Object {
    /// The object's id.
    pub closed spec fn id_spec(&self) -> u64 {
        self.id
    }

    /// The object named `id`.
    pub fn new(id: u64) -> (r: Self)
        ensures
            r.id_spec() == id,
    {
        Object { id }
    }

    /// The object's id.
    pub fn id(&self) -> (r: u64)
        ensures
            r == self.id_spec(),
    {
        self.id
    }
}

} // verus!
