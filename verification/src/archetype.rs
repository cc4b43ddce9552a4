//! The archetype table: an append-style list of per-species descriptors.
//! Nodes store an index into it; no growth rule consults it yet, so it is
//! kept only so that the index contract is preserved.

use vstd::prelude::*;

verus! {

/// The reserved archetype index meaning "no archetype".
pub const INVALID_ARCHETYPE_INDEX: u32 = 4_294_967_295;

/// A per-species descriptor; placeholder shape for future growth rules.
#[derive(Clone, Copy, Debug, PartialEq, Eq, Structural)]
pub struct Archetype {
    pub placeholder: u8,
}

/// An indexable table of archetype descriptors.
pub struct ArchetypeTable {
    pub table: Vec<Archetype>,
}

impl ArchetypeTable {
    /// An empty table.
    pub fn new() -> (r: ArchetypeTable)
        ensures
            r.table@.len() == 0,
    {
        ArchetypeTable { table: Vec::new() }
    }

    /// Appends a descriptor and returns its index, which is one below the new
    /// length; the reserved index can never be handed out.
    pub fn register_archetype(&mut self, descriptor: Archetype) -> (r: u32)
        requires
            old(self).table@.len() < INVALID_ARCHETYPE_INDEX as int,
        ensures
            final(self).table@ == old(self).table@.push(descriptor),
            r as int == old(self).table@.len(),
            r != INVALID_ARCHETYPE_INDEX,
    {
        let r = self.table.len() as u32;
        self.table.push(descriptor);
        r
    }
}

} // verus!
