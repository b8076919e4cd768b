use rust_screeps_code::creep::Creep;
use rust_screeps_code::room::{Room, RoomGUID};
use rust_screeps_code::{mine_and_upgrade_job, needs_spawn, ActionResult, CreepOrder, GatherAndWorkCreep, Memkey, Role, SubRole};

fn creep(energy: u32, capacity: u32) -> Creep {
    Creep {
        id: 7,
        hits: 100,
        hits_max: 100,
        room: Room { id: 1, guid: RoomGUID::guid(9), renum: 0 },
        carry_energy: energy,
        carry_capacity: capacity,
        ticks_to_live: 1500,
        spawning: false,
    }
}

#[test]
fn it_works() {}

#[test]
fn from_integer_decodes_every_code() {
    let expected = [
        (0, ActionResult::OK),
        (-1, ActionResult::NotOwner),
        (-2, ActionResult::NameExists),
        (-3, ActionResult::Busy),
        (-4, ActionResult::NotFound),
        (-5, ActionResult::NotEnoughEnergy),
        (-6, ActionResult::NotEnoughResources),
        (-7, ActionResult::InvalidTarget),
        (-8, ActionResult::Full),
        (-9, ActionResult::NotInRange),
        (-10, ActionResult::InvalidArgs),
        (-11, ActionResult::Tired),
        (-12, ActionResult::NoBodypart),
        (-13, ActionResult::NotEnoughExtensions),
        (-14, ActionResult::RCLNotEnough),
        (-15, ActionResult::GCLNotEnough),
        (-100, ActionResult::InvalidRustProxyID),
    ];
    for (code, r) in expected.iter() {
        assert_eq!(ActionResult::from_integer(*code), *r);
    }
}

#[test]
fn from_integer_unknown_codes() {
    assert_eq!(ActionResult::from_integer(-16), ActionResult::Unknown);
    assert_eq!(ActionResult::from_integer(1), ActionResult::Unknown);
    assert_eq!(ActionResult::from_integer(-99), ActionResult::Unknown);
    assert_eq!(ActionResult::from_integer(i32::MIN), ActionResult::Unknown);
}

#[test]
fn keys_and_roles_numbers() {
    assert_eq!(Memkey::Gathering.to_u32(), 0);
    assert_eq!(Memkey::Role.to_u32(), 1);
    assert_eq!(Memkey::SubRole.to_u32(), 2);
    assert_eq!(Memkey::Room.to_u32(), 3);
    assert_eq!(Role::SourceMiner.to_u32(), 0);
    assert_eq!(Role::SourceHauler.to_u32(), 1);
    assert_eq!(Role::BaseFueling.to_u32(), 2);
    assert_eq!(Role::SourceMinerAndHauler.to_u32(), 3);
    assert_eq!(Role::Unassigned.to_u32(), 4);
    assert_eq!(SubRole::Unassigned.to_u32(), 0);
}

#[test]
fn empty_creep_without_flag_starts_gathering() {
    let w = GatherAndWorkCreep::new(creep(0, 50));
    let step = w.action_upgrade(None, 11, 22);
    assert_eq!(step.gathering_write, Some(1));
    assert_eq!(step.order, CreepOrder::UpgradeController);
    assert_eq!(step.target, 22);
}

#[test]
fn full_gathering_creep_stops_but_harvests_this_tick() {
    let w = GatherAndWorkCreep::new(creep(50, 50));
    let step = w.action_transfer(Some(1), 11, 22);
    assert_eq!(step.gathering_write, Some(0));
    assert_eq!(step.order, CreepOrder::Harvest);
    assert_eq!(step.target, 11);
}

#[test]
fn half_full_creeps_keep_their_flag() {
    let w = GatherAndWorkCreep::new(creep(20, 50));
    let step = w.action_transfer(Some(1), 11, 22);
    assert_eq!(step.gathering_write, None);
    assert_eq!(step.order, CreepOrder::Harvest);
    let step = w.action_transfer(Some(0), 11, 22);
    assert_eq!(step.gathering_write, None);
    assert_eq!(step.order, CreepOrder::Transfer);
    assert_eq!(step.target, 22);
    let step = w.action_upgrade(Some(5), 11, 22);
    assert_eq!(step.gathering_write, None);
    assert_eq!(step.order, CreepOrder::UpgradeController);
}

#[test]
fn follow_up_moves_only_when_out_of_range() {
    let w = GatherAndWorkCreep::new(creep(20, 50));
    let step = w.action_upgrade(Some(1), 11, 22);
    assert_eq!(step.follow_up(ActionResult::NotInRange), Some(11));
    assert_eq!(step.follow_up(ActionResult::OK), None);
    assert_eq!(step.follow_up(ActionResult::Tired), None);
}

#[test]
fn development_loop_jobs() {
    assert!(needs_spawn(0));
    assert!(needs_spawn(11));
    assert!(!needs_spawn(12));
    assert_eq!(mine_and_upgrade_job(0), Some((CreepOrder::Transfer, 0)));
    assert_eq!(mine_and_upgrade_job(1), Some((CreepOrder::UpgradeController, 1)));
    assert_eq!(mine_and_upgrade_job(3), Some((CreepOrder::UpgradeController, 1)));
    assert_eq!(mine_and_upgrade_job(4), Some((CreepOrder::UpgradeController, 0)));
    assert_eq!(mine_and_upgrade_job(19), Some((CreepOrder::UpgradeController, 0)));
    assert_eq!(mine_and_upgrade_job(20), None);
}
