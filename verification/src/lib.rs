//! The verified core of a Screeps bot: a first-fit heap over a flat memory,
//! a fixed-capacity vector, a small key-value store, the game's data types,
//! the integer side of spawn planning, and the per-tick decisions of
//! gather-and-work creeps.
pub mod creep;
pub mod fmemseg;
pub mod heap;
pub mod rc;
pub mod room;
pub mod spawner;
pub mod structure;
pub mod vec;

pub use creep::Creep;
pub use rc::Rc;
pub use room::Room;
pub use vec::Vec;

use vstd::prelude::*;

verus! {

/// The outcome of an order given to a game object, decoded from the game's
/// integer return codes.
#[derive(Clone, Copy, Debug, PartialEq, Eq, Structural)]
pub enum ActionResult {
    OK,
    NotOwner,
    NoPath,
    NameExists,
    Busy,
    NotFound,
    NotEnoughEnergy,
    NotEnoughResources,
    InvalidTarget,
    Full,
    NotInRange,
    InvalidArgs,
    Tired,
    NoBodypart,
    NotEnoughExtensions,
    RCLNotEnough,
    GCLNotEnough,
    Unknown,
    InvalidRustProxyID,
}

/// The result that the game's integer return code `i` stands for.
pub open spec fn action_result_of(i: i32) -> ActionResult {
    if i == 0 { ActionResult::OK }
    else if i == -1 { ActionResult::NotOwner }
    else if i == -2 { ActionResult::NameExists }
    else if i == -3 { ActionResult::Busy }
    else if i == -4 { ActionResult::NotFound }
    else if i == -5 { ActionResult::NotEnoughEnergy }
    else if i == -6 { ActionResult::NotEnoughResources }
    else if i == -7 { ActionResult::InvalidTarget }
    else if i == -8 { ActionResult::Full }
    else if i == -9 { ActionResult::NotInRange }
    else if i == -10 { ActionResult::InvalidArgs }
    else if i == -11 { ActionResult::Tired }
    else if i == -12 { ActionResult::NoBodypart }
    else if i == -13 { ActionResult::NotEnoughExtensions }
    else if i == -14 { ActionResult::RCLNotEnough }
    else if i == -15 { ActionResult::GCLNotEnough }
    else if i == -100 { ActionResult::InvalidRustProxyID }
    else { ActionResult::Unknown }
}

impl ActionResult {
    /// Decodes a return code of the game.
    pub fn from_integer(i: i32) -> (r: ActionResult)
        ensures
            r == action_result_of(i),
    {
        match i {
            0 => ActionResult::OK,
            -1 => ActionResult::NotOwner,
            -2 => ActionResult::NameExists,
            -3 => ActionResult::Busy,
            -4 => ActionResult::NotFound,
            -5 => ActionResult::NotEnoughEnergy,
            -6 => ActionResult::NotEnoughResources,
            -7 => ActionResult::InvalidTarget,
            -8 => ActionResult::Full,
            -9 => ActionResult::NotInRange,
            -10 => ActionResult::InvalidArgs,
            -11 => ActionResult::Tired,
            -12 => ActionResult::NoBodypart,
            -13 => ActionResult::NotEnoughExtensions,
            -14 => ActionResult::RCLNotEnough,
            -15 => ActionResult::GCLNotEnough,
            -100 => ActionResult::InvalidRustProxyID,
            _ => ActionResult::Unknown,
        }
    }
}

/// The state of the game handed to each tick.
pub struct Game {
    pub creeps: Vec<Option<Creep>>,
    pub rooms: &'static Vec<Room>,
}

/// The keys under which a creep's memory holds values.
#[derive(Clone, Copy, Debug, PartialEq, Eq, Structural)]
pub enum Memkey {
    Gathering,
    Role,
    SubRole,
    Room,
}

impl Memkey {
    /// The number of the key in the game's memory.
    pub fn to_u32(&self) -> (r: u32)
        ensures
            r == (match *self {
                Memkey::Gathering => 0u32,
                Memkey::Role => 1u32,
                Memkey::SubRole => 2u32,
                Memkey::Room => 3u32,
            }),
    {
        match self {
            Memkey::Gathering => 0,
            Memkey::Role => 1,
            Memkey::SubRole => 2,
            Memkey::Room => 3,
        }
    }
}

/// The job of a creep.
#[derive(Clone, Copy, Debug, PartialEq, Eq, Structural)]
pub enum Role {
    SourceMiner,
    SourceHauler,
    BaseFueling,
    SourceMinerAndHauler,
    Unassigned,
}

impl Role {
    /// The number of the role in a creep's memory.
    pub fn to_u32(&self) -> (r: u32)
        ensures
            r == (match *self {
                Role::SourceMiner => 0u32,
                Role::SourceHauler => 1u32,
                Role::BaseFueling => 2u32,
                Role::SourceMinerAndHauler => 3u32,
                Role::Unassigned => 4u32,
            }),
    {
        match self {
            Role::SourceMiner => 0,
            Role::SourceHauler => 1,
            Role::BaseFueling => 2,
            Role::SourceMinerAndHauler => 3,
            Role::Unassigned => 4,
        }
    }
}

/// The finer job of a creep within its role.
#[derive(Clone, Copy, Debug, PartialEq, Eq, Structural)]
pub enum SubRole {
    Unassigned,
}

impl SubRole {
    /// The number of the subrole in a creep's memory.
    pub fn to_u32(&self) -> (r: u32)
        ensures
            r == 0,
    {
        match self {
            SubRole::Unassigned => 0,
        }
    }
}

/// A creep that fetches energy from a source until it is full and then works
/// with it until it is empty.
pub struct GatherAndWorkCreep {
    pub creep: Creep,
}

/// The order that a working creep is given this tick.
#[derive(Clone, Copy, Debug, PartialEq, Eq, Structural)]
pub enum CreepOrder {
    Harvest,
    UpgradeController,
    Transfer,
}

/// What a creep does this tick: the gathering flag to store in its memory,
/// if any, and the order to give it, with the order's target.
#[derive(Clone, Copy, Debug, PartialEq, Eq, Structural)]
pub struct WorkStep {
    pub gathering_write: Option<u8>,
    pub order: CreepOrder,
    pub target: u32,
}

/// The gathering flag as read from memory; a missing flag reads as 0.
pub open spec fn gathering_flag(gathering: Option<u8>) -> u8 {
    match gathering {
        Some(g) => g,
        None => 0,
    }
}

/// The flag to store: an empty creep that is not gathering starts gathering,
/// a full creep that is gathering stops.
pub open spec fn gathering_write_of(gathering: Option<u8>, c: Creep) -> Option<u8> {
    let g = gathering_flag(gathering);
    if g == 0 && c.carry_energy == 0 {
        Some(1u8)
    } else if g == 1 && c.carry_energy == c.carry_capacity {
        Some(0u8)
    } else {
        None
    }
}

/// Law: a missing gathering flag acts as a flag of 0: an empty creep with
/// either starts gathering, and a creep that is not empty writes nothing.
pub proof fn lemma_missing_flag_is_zero(c: Creep)
    ensures
        gathering_write_of(None, c) == gathering_write_of(Some(0u8), c),
        c.carry_energy == 0 ==> gathering_write_of(None, c) == Some(1u8),
        c.carry_energy != 0 ==> gathering_write_of(None, c) == None::<u8>,
{
}

impl GatherAndWorkCreep {
    pub fn new(creep: Creep) -> (r: GatherAndWorkCreep)
        ensures
            r.creep == creep,
    {
        GatherAndWorkCreep { creep: creep }
    }

    fn step(&self, gathering: Option<u8>, source: u32, work: CreepOrder, target: u32) -> (r: WorkStep)
        ensures
            (gathering is None || gathering == Some(0u8)) && self.creep.carry_energy == 0 ==> r.gathering_write
                == Some(1u8),
            gathering == Some(1u8) && self.creep.carry_energy == self.creep.carry_capacity ==> r.gathering_write
                == Some(0u8),
            r.gathering_write is Some ==> ((gathering is None || gathering == Some(0u8)) && self.creep.carry_energy == 0) || (
            gathering == Some(1u8) && self.creep.carry_energy == self.creep.carry_capacity),
            gathering == Some(1u8) ==> r.order == CreepOrder::Harvest && r.target == source,
            gathering != Some(1u8) ==> r.order == work && r.target == target,
            r.gathering_write == gathering_write_of(gathering, self.creep),
            gathering_flag(gathering) == 1 ==> r.order == CreepOrder::Harvest && r.target == source,
            gathering_flag(gathering) != 1 ==> r.order == work && r.target == target,
    {
        let creep = &self.creep;
        let gathering = match gathering {
            Some(g) => g,
            None => 0,
        };
        let mut gathering_write: Option<u8> = None;
        if gathering == 0 && creep.carry_energy == 0 {
            gathering_write = Some(1);
        }
        if gathering == 1 && creep.carry_energy == creep.carry_capacity {
            gathering_write = Some(0);
        }
        if gathering == 1 {
            WorkStep { gathering_write, order: CreepOrder::Harvest, target: source }
        } else {
            WorkStep { gathering_write, order: work, target }
        }
    }

    /// One tick of a creep that upgrades the controller `target` with energy
    /// from `source`; `gathering` is the gathering flag read from its memory.
    /// The order follows the flag as read; the flag written takes effect on
    /// the next tick.
    pub fn action_upgrade(&self, gathering: Option<u8>, source: u32, target: u32) -> (r: WorkStep)
        ensures
            (gathering is None || gathering == Some(0u8)) && self.creep.carry_energy == 0 ==> r.gathering_write
                == Some(1u8),
            gathering == Some(1u8) && self.creep.carry_energy == self.creep.carry_capacity ==> r.gathering_write
                == Some(0u8),
            r.gathering_write is Some ==> ((gathering is None || gathering == Some(0u8)) && self.creep.carry_energy == 0) || (
            gathering == Some(1u8) && self.creep.carry_energy == self.creep.carry_capacity),
            gathering == Some(1u8) ==> r.order == CreepOrder::Harvest && r.target == source,
            gathering != Some(1u8) ==> r.order == CreepOrder::UpgradeController && r.target == target,
            r.gathering_write == gathering_write_of(gathering, self.creep),
            gathering_flag(gathering) == 1 ==> r.order == CreepOrder::Harvest && r.target == source,
            gathering_flag(gathering) != 1 ==> r.order == CreepOrder::UpgradeController && r.target
                == target,
    {
        self.step(gathering, source, CreepOrder::UpgradeController, target)
    }

    /// One tick of a creep that carries energy from `source` to the
    /// structure `target`; `gathering` is the gathering flag read from its
    /// memory. The order follows the flag as read; the flag written takes
    /// effect on the next tick.
    pub fn action_transfer(&self, gathering: Option<u8>, source: u32, target: u32) -> (r: WorkStep)
        ensures
            (gathering is None || gathering == Some(0u8)) && self.creep.carry_energy == 0 ==> r.gathering_write
                == Some(1u8),
            gathering == Some(1u8) && self.creep.carry_energy == self.creep.carry_capacity ==> r.gathering_write
                == Some(0u8),
            r.gathering_write is Some ==> ((gathering is None || gathering == Some(0u8)) && self.creep.carry_energy == 0) || (
            gathering == Some(1u8) && self.creep.carry_energy == self.creep.carry_capacity),
            gathering == Some(1u8) ==> r.order == CreepOrder::Harvest && r.target == source,
            gathering != Some(1u8) ==> r.order == CreepOrder::Transfer && r.target == target,
            r.gathering_write == gathering_write_of(gathering, self.creep),
            gathering_flag(gathering) == 1 ==> r.order == CreepOrder::Harvest && r.target == source,
            gathering_flag(gathering) != 1 ==> r.order == CreepOrder::Transfer && r.target == target,
    {
        self.step(gathering, source, CreepOrder::Transfer, target)
    }
}

impl WorkStep {
    /// The target to move to after the order came back with `result`: the
    /// order's target when it was out of range, else none.
    pub fn follow_up(&self, result: ActionResult) -> (r: Option<u32>)
        ensures
            r == (if result == ActionResult::NotInRange {
                Some(self.target)
            } else {
                None
            }),
    {
        match result {
            ActionResult::NotInRange => Some(self.target),
            _ => None,
        }
    }
}

/// Whether the development loop orders another creep: it keeps twelve.
pub fn needs_spawn(creep_count: usize) -> (r: bool)
    ensures
        r == (creep_count < 12),
{
    creep_count < 12
}

/// The job that the development loop gives creep `q`: the first creep
/// carries energy from source 0 to the spawn, the next three upgrade the
/// controller with energy from source 1, the creeps up to the twentieth
/// upgrade it with energy from source 0, and later creeps get no job. The
/// result is the work order and the index of the source.
pub fn mine_and_upgrade_job(q: usize) -> (r: Option<(CreepOrder, usize)>)
    ensures
        r == (if q < 1 {
            Some((CreepOrder::Transfer, 0usize))
        } else if q < 4 {
            Some((CreepOrder::UpgradeController, 1usize))
        } else if q < 20 {
            Some((CreepOrder::UpgradeController, 0usize))
        } else {
            None
        }),
{
    if q < 1 {
        Some((CreepOrder::Transfer, 0))
    } else if q < 4 {
        Some((CreepOrder::UpgradeController, 1))
    } else if q < 20 {
        Some((CreepOrder::UpgradeController, 0))
    } else {
        None
    }
}

} // verus!
