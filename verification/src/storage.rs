use vstd::prelude::*;

use crate::set::SpaceTimeIdSet;

verus! {

/// A named collection of keys, each holding typed values bound to regions.
pub struct Space {
    name: String,
    key: Vec<Key>,
}

/// A key under a space, holding the values stored against it.
struct Key {
    name: String,
    value: Vec<Value>,
}

/// One stored scalar together with the region set it applies to.
struct Value {
    value: ValueEntry,
    set: SpaceTimeIdSet,
}

/// The scalar payloads the storage layer can hold.
enum ValueEntry {
    INT(i64),
    TEXT(String),
    BOOLEAN(bool),
}

/// The storage layer around the region-set engine: a flat collection of
/// named spaces.
pub struct Storage {
    space: Vec<Space>,
}

impl Storage {
    /// How many spaces are held.
    pub closed spec fn spaces_len(self) -> nat {
        self.space@.len()
    }

    /// A fresh store, holding no spaces.
    pub fn new() -> (r: Result<Self, String>)
        ensures
            r is Ok,
            r matches Ok(s) ==> s.spaces_len() == 0,
    {
        Ok(Storage { space: Vec::new() })
    }
}

} // verus!
