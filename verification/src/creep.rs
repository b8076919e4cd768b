//! Creeps and their body parts.
use vstd::prelude::*;
use crate::room;

verus! {

#[derive(Copy, Clone, Debug, PartialEq, Eq, Structural)]
pub enum BodyPart {
    Work,
    Carry,
    Move,
    Attack,
    RangedAttack,
    Heal,
    Claim,
}

/// A creep as the game reports it for the current tick.
pub struct Creep {
    pub id: u32,
    pub hits: u32,
    pub hits_max: u32,
    pub room: room::Room,
    pub carry_energy: u32,
    pub carry_capacity: u32,
    pub ticks_to_live: u32,
    pub spawning: bool,
}

} // verus!
