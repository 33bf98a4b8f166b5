//! Entity identifiers and where an entity's data lives.

use vstd::prelude::*;

use crate::archetype::{ArchetypeId, ArchetypeRow};
use crate::table::{TableId, TableRow};

verus! {

/// An entity identifier: an index and the generation of that index.
#[derive(Clone, Copy, Debug, PartialEq, Eq, Hash)]
pub struct Entity {
    generation: u32,
    index: u32,
}

impl Entity {
    /// The index of the entity.
    pub closed spec fn spec_index(&self) -> u32 {
        self.index
    }

    /// The generation of the entity's index.
    pub closed spec fn spec_generation(&self) -> u32 {
        self.generation
    }

    /// The entity of generation zero at `index`.
    pub fn from_raw(index: u32) -> (r: Entity)
        ensures
            r.spec_index() == index,
            r.spec_generation() == 0,
    {
        Entity { generation: 0, index }
    }

    /// The index of the entity.
    pub fn index(&self) -> (r: u32)
        ensures
            r == self.spec_index(),
    {
        self.index
    }

    /// The generation of the entity's index.
    pub fn generation(&self) -> (r: u32)
        ensures
            r == self.spec_generation(),
    {
        self.generation
    }
}

/// Where an entity's data is stored: its archetype and row there, and its
/// table and row there.
#[derive(Clone, Copy, Debug, PartialEq, Eq)]
pub struct EntityLocation {
    pub archetype_id: ArchetypeId,
    pub archetype_row: ArchetypeRow,
    pub table_id: TableId,
    pub table_row: TableRow,
}

} // verus!
