use rust_screeps_code::creep::Creep;
use rust_screeps_code::room::{Enumeration, Room, RoomGUID};
use rust_screeps_code::spawner::{
    build_order_ttls, select_creep, spawn_energy_and_free_spawn, BodyPartSpec, CreepTags,
};
use rust_screeps_code::structure::{Extension, Spawn, Structure};
use rust_screeps_code::{Role, SubRole, Vec};

fn spec(work: u8, carry: u8, tough: u8, offroad: bool) -> BodyPartSpec {
    BodyPartSpec { work, carry, claim: 0, attack: 0, rattack: 0, heal: 0, tough, offroad, num: 2 }
}

fn creep(ttl: u32, spawning: bool) -> Creep {
    Creep {
        id: ttl,
        hits: 1,
        hits_max: 1,
        room: Room { id: 1, guid: RoomGUID::guid(9), renum: 0 },
        carry_energy: 0,
        carry_capacity: 0,
        ticks_to_live: ttl,
        spawning,
    }
}

fn spawn(id: u32, cap: u32, energy: u32, spawning: bool) -> Spawn {
    Spawn {
        structure: Structure { id, hits: 1, hits_max: 1 },
        energy,
        energy_capacity: cap,
        spawning,
    }
}

fn vec_of<T>(xs: std::vec::Vec<T>) -> Vec<T> {
    let mut v = Vec::with_capacity(xs.len());
    for x in xs {
        v.push(x);
    }
    v
}

#[test]
fn part_counts_off_road() {
    let s = spec(6, 6, 0, true);
    assert_eq!(s.total_parts_without_move(), 12);
    assert_eq!(s.move_parts(), 12);
    assert_eq!(s.total_parts(), 24);
    assert_eq!(s.build_time(), 72);
    assert_eq!(s.cost(), 6 * 100 + 6 * 50 + 12 * 50);
}

#[test]
fn part_counts_on_road_round_up() {
    let s = spec(4, 3, 0, false);
    assert_eq!(s.total_parts_without_move(), 7);
    assert_eq!(s.move_parts(), 4);
    assert_eq!(s.total_parts(), 11);
    assert_eq!(s.build_time(), 33);
    assert_eq!(s.cost(), 400 + 150 + 200);
    let all = BodyPartSpec {
        work: 1, carry: 1, claim: 1, attack: 1, rattack: 1, heal: 1, tough: 1, offroad: false, num: 1,
    };
    assert_eq!(all.cost(), 100 + 50 + 600 + 80 + 150 + 250 + 10 + 4 * 50);
}

#[test]
fn least_but_not_zero_skips_zeros() {
    assert_eq!(spec(6, 3, 0, true).least_but_not_zero(), 3);
    assert_eq!(spec(0, 0, 0, true).least_but_not_zero(), 255);
    assert_eq!(spec(0, 0, 200, true).least_but_not_zero(), 200);
}

#[test]
fn shrink_by_least_makes_the_least_one() {
    let n = spec(6, 3, 0, true).shrink_by_least();
    assert_eq!((n.work, n.carry, n.tough, n.num), (4, 1, 0, 2));
    let z = spec(0, 0, 0, false).shrink_by_least();
    assert_eq!((z.work, z.carry, z.tough), (0, 0, 0));
}

#[test]
fn room_energy_and_last_free_spawn() {
    let renum = Enumeration {
        sources: Vec::with_capacity(0),
        controller: 3,
        spawns: vec_of(vec![spawn(1, 300, 200, false), spawn(2, 300, 100, true), spawn(3, 300, 0, false)]),
        extensions: vec_of(vec![Extension {
            structure: Structure { id: 4, hits: 1, hits_max: 1 },
            energy: 50,
            energy_capacity: 50,
        }]),
    };
    let (cap, ava, free) = spawn_energy_and_free_spawn(&renum);
    assert_eq!(cap, 950);
    assert_eq!(ava, 350);
    assert_eq!(free.unwrap().structure.id, 3);
}

#[test]
fn room_energy_wraps_and_busy_spawns_give_none() {
    let renum = Enumeration {
        sources: Vec::with_capacity(0),
        controller: 3,
        spawns: vec_of(vec![spawn(1, u32::MAX, 1, true), spawn(2, 2, 1, true)]),
        extensions: Vec::with_capacity(0),
    };
    let (cap, ava, free) = spawn_energy_and_free_spawn(&renum);
    assert_eq!(cap, 1);
    assert_eq!(ava, 2);
    assert!(free.is_none());
}

#[test]
fn orders_inherit_ttls_spawning_first() {
    let creeps = vec_of(vec![Some(creep(100, false)), Some(creep(50, true)), None, Some(creep(1400, false))]);
    let existing = vec_of(vec![0usize, 1, 3]);
    let ttls = build_order_ttls(&existing, &creeps, 4);
    let got: std::vec::Vec<u32> = (0..ttls.len()).map(|i| *ttls.index(i)).collect();
    assert_eq!(got, vec![50, 1400, 100, 0]);
    let none = build_order_ttls(&Vec::with_capacity(0), &creeps, 2);
    assert_eq!(*none.index(0), 0);
    assert_eq!(*none.index(1), 0);
}

fn indices(v: &Vec<usize>) -> std::vec::Vec<usize> {
    (0..v.len()).map(|i| *v.index(i)).collect()
}

#[test]
fn select_creep_returns_every_serving_creep_up_to_num() {
    let creeps = vec_of(vec![Some(creep(1, false)), None, Some(creep(2, false)), Some(creep(3, false)), Some(creep(4, false))]);
    let tags = vec_of(vec![
        CreepTags { room: Some(RoomGUID::guid(9)), role: Some(Role::SourceHauler), subrole: None },
        CreepTags { room: Some(RoomGUID::guid(9)), role: Some(Role::SourceMiner), subrole: None },
        CreepTags { room: Some(RoomGUID::guid(9)), role: Some(Role::SourceMiner), subrole: None },
        CreepTags { room: Some(RoomGUID::guid(9)), role: Some(Role::SourceMiner), subrole: None },
        CreepTags { room: Some(RoomGUID::guid(9)), role: Some(Role::SourceMiner), subrole: None },
    ]);
    let g = RoomGUID::guid(9);
    assert_eq!(indices(&select_creep(&creeps, &tags, g, Role::SourceMiner, SubRole::Unassigned, 2)), vec![2, 3]);
    assert_eq!(indices(&select_creep(&creeps, &tags, g, Role::SourceMiner, SubRole::Unassigned, 5)), vec![2, 3, 4]);
    assert_eq!(indices(&select_creep(&creeps, &tags, g, Role::SourceMiner, SubRole::Unassigned, 0)), vec![]);
    assert_eq!(indices(&select_creep(&creeps, &tags, RoomGUID::guid(8), Role::SourceMiner, SubRole::Unassigned, 2)), vec![]);
    let untagged = vec_of(vec![CreepTags { room: None, role: None, subrole: None }]);
    let one = vec_of(vec![Some(creep(1, false))]);
    assert_eq!(indices(&select_creep(&one, &untagged, RoomGUID::Unassigned, Role::Unassigned, SubRole::Unassigned, 1)), vec![0]);
}
