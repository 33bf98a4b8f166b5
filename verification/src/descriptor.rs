//! Identifiers of registered systems and system sets.

use vstd::prelude::*;

verus! {

/// The id of a registered system or system set.
#[derive(Debug, Clone, Copy, Eq, PartialEq, Structural, PartialOrd, Ord, Hash)]
pub enum RegId {
    System(u64),
    SystemSet(u64),
}

/// The order of registry ids: systems before sets, then by number.
pub open spec fn spec_reg_id_le(a: RegId, b: RegId) -> bool {
    match (a, b) {
        (RegId::System(x), RegId::System(y)) => x <= y,
        (RegId::SystemSet(x), RegId::SystemSet(y)) => x <= y,
        (RegId::System(_), RegId::SystemSet(_)) => true,
        (RegId::SystemSet(_), RegId::System(_)) => false,
    }
}

impl RegId {
    /// Whether this is the id of a system.
    pub fn is_system(&self) -> (r: bool)
        ensures
            r == (*self is System),
    {
        match self {
            RegId::System(_) => true,
            _ => false,
        }
    }

    /// Whether this is the id of a system set.
    pub fn is_set(&self) -> (r: bool)
        ensures
            r == (*self is SystemSet),
    {
        match self {
            RegId::SystemSet(_) => true,
            _ => false,
        }
    }

    /// The kind of node this id names.
    pub fn to_str(&self) -> (r: &str)
        ensures
            *self is System ==> r@ == "system"@,
            *self is SystemSet ==> r@ == "set"@,
    {
        match self {
            RegId::System(_) => "system",
            RegId::SystemSet(_) => "set",
        }
    }
}

/// Whether `a` comes no later than `b` (systems before sets, then by number).
pub fn reg_id_le(a: RegId, b: RegId) -> (r: bool)
    ensures
        r == spec_reg_id_le(a, b),
{
    match (a, b) {
        (RegId::System(x), RegId::System(y)) => x <= y,
        (RegId::SystemSet(x), RegId::SystemSet(y)) => x <= y,
        (RegId::System(_), RegId::SystemSet(_)) => true,
        (RegId::SystemSet(_), RegId::System(_)) => false,
    }
}

/// The two ids, smaller first.
pub fn sort_pair(a: RegId, b: RegId) -> (r: (RegId, RegId))
    ensures
        r == if spec_reg_id_le(a, b) {
            (a, b)
        } else {
            (b, a)
        },
{
    if reg_id_le(a, b) {
        (a, b)
    } else {
        (b, a)
    }
}

/// The order of registry ids is total, so a sorted pair is ordered whichever
/// way round the two ids are given, and the same pair comes out.
pub proof fn lemma_sort_pair_ordered(a: RegId, b: RegId)
    ensures
        spec_reg_id_le(a, b) || spec_reg_id_le(b, a),
        (spec_reg_id_le(a, b) && spec_reg_id_le(b, a)) ==> a == b,
{
}

/// Whether a node comes before or after another.
#[derive(Debug, Clone, Copy, Eq, PartialEq, Structural, PartialOrd, Ord, Hash)]
pub enum Order {
    Before,
    After,
}

} // verus!
