//! Entity handles.

use vstd::prelude::*;

verus! {

/// The handle of one entity: its number, counted from zero in the order of
/// creation.
pub type Lentity = usize;

/// What a query hands out: one entity, or the representative of a whole group
/// of entities that share their shelves for the queried types.
#[derive(Clone, Copy, Debug, PartialEq, Eq, Hash, Structural)]
pub enum GroupedLentity {
    /// One entity, for itself.
    Single(Lentity),
    /// An entity that stands for its group: what is committed for it is
    /// committed for every member.
    Group(Lentity),
}

impl GroupedLentity {
    /// The entity behind the handle.
    pub open spec fn lentity(self) -> Lentity {
        match self {
            GroupedLentity::Single(lentity) => lentity,
            GroupedLentity::Group(lentity) => lentity,
        }
    }
}

/// The handle that makes `lentity` the representative of its group.
pub fn lentity_to_grouped_lentity(lentity: Lentity) -> (handle: GroupedLentity)
    ensures
        handle == GroupedLentity::Group(lentity),
{
    GroupedLentity::Group(lentity)
}

/// The entity behind a handle of either kind.
pub fn grouped_lentity_to_lentity(handle: GroupedLentity) -> (lentity: Lentity)
    ensures
        lentity == handle.lentity(),
{
    match handle {
        GroupedLentity::Single(lentity) => lentity,
        GroupedLentity::Group(lentity) => lentity,
    }
}

/// Whether the handle stands for a group.
pub fn is_grouped_lentity(handle: GroupedLentity) -> (b: bool)
    ensures
        b == (handle is Group),
{
    match handle {
        GroupedLentity::Single(_) => false,
        GroupedLentity::Group(_) => true,
    }
}

/// Whether the handle stands for a single entity.
pub fn is_lentity(handle: GroupedLentity) -> (b: bool)
    ensures
        b == (handle is Single),
{
    match handle {
        GroupedLentity::Single(_) => true,
        GroupedLentity::Group(_) => false,
    }
}

} // verus!
