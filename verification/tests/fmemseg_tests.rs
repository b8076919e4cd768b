use rust_screeps_code::fmemseg::{FastMemorySegment, MemoryKey, MemoryValue};
use rust_screeps_code::rc::Rc;

fn int_of(v: Option<MemoryValue>) -> Option<u32> {
    match v {
        Some(MemoryValue::Integer(x)) => Some(x),
        Some(_) => Some(u32::MAX),
        None => None,
    }
}

#[test]
fn new_segment_finds_nothing() {
    let mut m = FastMemorySegment::new();
    assert!(m.get(MemoryKey::Integer(1)).is_none());
}

#[test]
fn get_after_set_gives_the_value() {
    let mut m = FastMemorySegment::new();
    m.set(MemoryKey::Integer(1), MemoryValue::Integer(10));
    m.set(MemoryKey::Integer(2), MemoryValue::Integer(20));
    assert_eq!(int_of(m.get(MemoryKey::Integer(1))), Some(10));
    assert_eq!(int_of(m.get(MemoryKey::Integer(2))), Some(20));
    assert_eq!(int_of(m.get(MemoryKey::Integer(3))), None);
}

#[test]
fn set_again_replaces() {
    let mut m = FastMemorySegment::new();
    m.set(MemoryKey::Integer(1), MemoryValue::Integer(10));
    m.set(MemoryKey::Integer(1), MemoryValue::Nothing);
    assert!(matches!(m.get(MemoryKey::Integer(1)), Some(MemoryValue::Nothing)));
    m.set(MemoryKey::Integer(1), MemoryValue::Integer(11));
    assert_eq!(int_of(m.get(MemoryKey::Integer(1))), Some(11));
}

#[test]
fn unwrap_integer_or_defaults() {
    assert_eq!(MemoryValue::Integer(5).unwrap_integer_or(9), 5);
    assert_eq!(MemoryValue::Nothing.unwrap_integer_or(9), 9);
}

#[test]
fn dump_of_empty_store_is_empty() {
    let m = FastMemorySegment::new();
    assert_eq!(m.dump().len(), 0);
}

#[test]
fn dump_writes_ten_bytes_per_entry() {
    let mut m = FastMemorySegment::new();
    m.set(MemoryKey::Integer(0x0102_0304), MemoryValue::Integer(7));
    m.set(MemoryKey::String(Rc::new()), MemoryValue::Nothing);
    let d = m.dump();
    let bytes: Vec<u8> = (0..d.len()).map(|i| *d.index(i)).collect();
    assert_eq!(bytes, vec![0, 4, 3, 2, 1, 0, 7, 0, 0, 0, 1, 0, 0, 0, 0, 3, 0, 0, 0, 0]);
}

#[test]
fn load_restores_what_dump_wrote() {
    let mut m = FastMemorySegment::new();
    m.set(MemoryKey::Integer(1), MemoryValue::Integer(10));
    m.set(MemoryKey::Integer(2), MemoryValue::String(Rc::new()));
    m.set(MemoryKey::Integer(3), MemoryValue::Segment(Rc::new()));
    let d = m.dump();
    let mut fresh = FastMemorySegment::new();
    fresh.set(MemoryKey::Integer(9), MemoryValue::Integer(90));
    fresh.load(d);
    assert_eq!(int_of(fresh.get(MemoryKey::Integer(1))), Some(10));
    assert!(matches!(fresh.get(MemoryKey::Integer(2)), Some(MemoryValue::String(_))));
    assert!(matches!(fresh.get(MemoryKey::Integer(3)), Some(MemoryValue::Segment(_))));
    assert!(fresh.get(MemoryKey::Integer(9)).is_none());
}

#[test]
fn load_ignores_a_partial_entry_and_reads_unknown_tags() {
    let mut data = rust_screeps_code::Vec::with_capacity(13);
    for b in [0u8, 5, 0, 0, 0, 9, 1, 0, 0, 0, 1, 2, 3] {
        data.push(b);
    }
    let mut m = FastMemorySegment::new();
    m.load(data);
    assert!(matches!(m.get(MemoryKey::Integer(5)), Some(MemoryValue::Nothing)));
    assert_eq!(m.dump().len(), 10);
}

#[test]
fn string_keys_are_never_found() {
    let mut m = FastMemorySegment::new();
    m.set(MemoryKey::String(Rc::new()), MemoryValue::Integer(1));
    m.set(MemoryKey::String(Rc::new()), MemoryValue::Integer(2));
    assert!(m.get(MemoryKey::String(Rc::new())).is_none());
    assert_eq!(m.dump().len(), 20);
}

#[test]
fn setting_a_key_twice_keeps_one_entry() {
    let mut m = FastMemorySegment::new();
    m.set(MemoryKey::Integer(4), MemoryValue::Integer(1));
    m.set(MemoryKey::Integer(4), MemoryValue::Integer(2));
    m.set(MemoryKey::Integer(5), MemoryValue::Integer(3));
    assert_eq!(m.dump().len(), 20);
}
