//! What a simulation is set up with.

use vstd::prelude::*;

verus! {

/// The storage that a simulation runs on.
#[allow(non_camel_case_types)]
#[derive(Clone, Copy, Debug, PartialEq)]
pub enum BrainType {
    Legion,
    LegionCounted,
    Duck_DB,
    Sqlite_DB,
    Rc_Ecs,
}

/// The scenario that a simulation plays.
#[derive(Clone, Copy, Debug, PartialEq)]
pub enum Challenge {
    ComplexQuery,
    IdenticalEntities,
    NonIdenticalEntities,
    ImageEditing,
    PaintClosest,
    Slideshow,
    SpacialArray,
    UnitsShooting,
}

impl Default for Challenge {
    fn default() -> (challenge: Challenge)
        ensures
            challenge == Challenge::Slideshow,
    {
        Challenge::Slideshow
    }
}

impl Default for BrainType {
    fn default() -> (brain_type: BrainType)
        ensures
            brain_type == BrainType::Rc_Ecs,
    {
        BrainType::Rc_Ecs
    }
}

} // verus!
