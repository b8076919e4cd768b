//! Structures of the game.
use vstd::prelude::*;
use crate::room::RoomGUID;
use crate::Role;
use crate::SubRole;

verus! {

pub enum StructureTypeCode {
    Spawn,
    Extension,
    Road,
    Wall,
    Rampart,
    KeeperLair,
    Portal,
    Controller,
    Link,
    Storage,
    Tower,
    Observer,
    PowerBank,
    PowerSpawn,
    Extractor,
    Lab,
    Terminal,
    Container,
    Nuker,
}

/// What every structure has.
#[derive(Clone, Copy)]
pub struct Structure {
    pub id: u32,
    pub hits: u32,
    pub hits_max: u32,
}

/// A spawn: a structure that builds creeps from the energy it holds.
#[derive(Clone, Copy)]
pub struct Spawn {
    pub structure: Structure,
    pub energy: u32,
    pub energy_capacity: u32,
    pub spawning: bool,
}

/// The body, role and home of a creep to be built.
pub struct SpawnCreepSpec {
    pub work: u8,
    pub carry: u8,
    pub attack: u8,
    pub rattack: u8,
    pub heal: u8,
    pub claim: u8,
    pub tough: u8,
    pub moves: u8,
    pub role: Role,
    pub subrole: SubRole,
    pub room_guid: RoomGUID,
}

/// An extension: a structure that stores energy for the spawns.
#[derive(Clone, Copy)]
pub struct Extension {
    pub structure: Structure,
    pub energy: u32,
    pub energy_capacity: u32,
}

#[derive(Clone, Copy)]
pub struct Road {
    pub structure: Structure,
}

#[derive(Clone, Copy)]
pub struct Wall {
    pub structure: Structure,
}

#[derive(Clone, Copy)]
pub struct Rampart {
    pub structure: Structure,
}

#[derive(Clone, Copy)]
pub struct KeeperLair {
    pub structure: Structure,
}

#[derive(Clone, Copy)]
pub struct Portal {
    pub structure: Structure,
}

#[derive(Clone, Copy)]
pub struct Controller {
    pub structure: Structure,
}

#[derive(Clone, Copy)]
pub struct Link {
    pub structure: Structure,
}

#[derive(Clone, Copy)]
pub struct Storage {
    pub structure: Structure,
}

#[derive(Clone, Copy)]
pub struct Tower {
    pub structure: Structure,
}

#[derive(Clone, Copy)]
pub struct Observer {
    pub structure: Structure,
}

#[derive(Clone, Copy)]
pub struct PowerBank {
    pub structure: Structure,
}

#[derive(Clone, Copy)]
pub struct PowerSpawn {
    pub structure: Structure,
}

#[derive(Clone, Copy)]
pub struct Extractor {
    pub structure: Structure,
}

#[derive(Clone, Copy)]
pub struct Lab {
    pub structure: Structure,
}

#[derive(Clone, Copy)]
pub struct Terminal {
    pub structure: Structure,
}

#[derive(Clone, Copy)]
pub struct Container {
    pub structure: Structure,
}

#[derive(Clone, Copy)]
pub struct Nuker {
    pub structure: Structure,
}

} // verus!
