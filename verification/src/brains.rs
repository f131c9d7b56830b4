//! The systems that a simulation runs on the entities of a store.

use vstd::prelude::*;

verus! {

/// A system: one kind of work that a tick does on every entity that has the
/// components for it.
#[derive(Debug, PartialEq, Clone)]
pub enum SystemType {
    Velocity,
    Acceleration,
    MapEdge,
    UpdateTimedLife,
    Shoot,
    DeleteExpired,
    PaintNearest,
    EditTeamOneImage,
    EditTeamOneColor,
}

impl SystemType {
    /// The name of the system, as it is written in the source.
    pub open spec fn name(self) -> Seq<char> {
        match self {
            SystemType::Velocity => "Velocity"@,
            SystemType::Acceleration => "Acceleration"@,
            SystemType::MapEdge => "MapEdge"@,
            SystemType::UpdateTimedLife => "UpdateTimedLife"@,
            SystemType::Shoot => "Shoot"@,
            SystemType::DeleteExpired => "DeleteExpired"@,
            SystemType::PaintNearest => "PaintNearest"@,
            SystemType::EditTeamOneImage => "EditTeamOneImage"@,
            SystemType::EditTeamOneColor => "EditTeamOneColor"@,
        }
    }

    /// The name of the system.
    pub fn get_name(&self) -> (name: String)
        ensures
            name@ == self.name(),
    {
        match self {
            SystemType::Velocity => "Velocity".to_owned(),
            SystemType::Acceleration => "Acceleration".to_owned(),
            SystemType::MapEdge => "MapEdge".to_owned(),
            SystemType::UpdateTimedLife => "UpdateTimedLife".to_owned(),
            SystemType::Shoot => "Shoot".to_owned(),
            SystemType::DeleteExpired => "DeleteExpired".to_owned(),
            SystemType::PaintNearest => "PaintNearest".to_owned(),
            SystemType::EditTeamOneImage => "EditTeamOneImage".to_owned(),
            SystemType::EditTeamOneColor => "EditTeamOneColor".to_owned(),
        }
    }
}

/// What the image system does to an image: every fourth byte, from the first
/// on, becomes 0 if the first byte was 255, and 255 if it was not. The other
/// bytes stay.
pub open spec fn edited(blob: Seq<u8>) -> Seq<u8> {
    Seq::new(
        blob.len(),
        |i: int|
            if i % 4 == 0 {
                if blob[0] == 255 {
                    0u8
                } else {
                    255u8
                }
            } else {
                blob[i]
            },
    )
}

/// Edits an image in place: toggles every fourth byte, from the first on,
/// between 0 and 255, by what the first byte is.
pub fn edit_image(blob: &mut Vec<u8>)
    requires
        old(blob)@.len() > 0,
    ensures
        final(blob)@ == edited(old(blob)@),
{
    let value: u8 = if blob[0] == 255 {
        0
    } else {
        255
    };
    let mut i: usize = 0;
    while i < blob.len()
        invariant
            blob@.len() == old(blob)@.len(),
            value == edited(old(blob)@)[0],
            forall|j: int| 0 <= j < i && j < blob@.len() ==> blob@[j] == edited(old(blob)@)[j],
            forall|j: int| i <= j < blob@.len() ==> blob@[j] == old(blob)@[j],
        decreases blob@.len() - i,
    {
        if i % 4 == 0 {
            blob.set(i, value);
        }
        i = i + 1;
    }
    proof {
        assert(blob@ =~= edited(old(blob)@));
    }
}

} // verus!
