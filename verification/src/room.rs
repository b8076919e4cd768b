//! Rooms and what the game enumerates in them.
use vstd::prelude::*;
use crate::structure;
use crate::vec::Vec;

verus! {

/// The identity of a room that survives from tick to tick.
#[allow(non_camel_case_types)]
#[derive(Copy, Clone, Debug, PartialEq, Eq, Structural)]
pub enum RoomGUID {
    Unassigned,
    guid(u32),
}

/// A room; `renum` is the address at which the game keeps the room's
/// enumeration.
pub struct Room {
    pub id: u32,
    pub guid: RoomGUID,
    pub renum: usize,
}

impl Clone for Room {
    fn clone(&self) -> (r: Self)
        ensures
            r == *self,
    {
        Room { id: self.id, guid: self.guid, renum: self.renum }
    }
}

/// An energy source.
pub struct Source {
    pub id: u32,
    pub energy: u32,
    pub energy_capacity: u32,
    pub ticks_to_regenerate: u32,
}

/// The sources, controller, spawns and extensions of a room.
pub struct Enumeration {
    pub sources: Vec<Source>,
    pub controller: u32,
    pub spawns: Vec<structure::Spawn>,
    pub extensions: Vec<structure::Extension>,
}

} // verus!
