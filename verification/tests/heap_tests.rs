use rust_screeps_code::heap::Heap;

fn word(mem: &[u8], a: usize) -> u32 {
    u32::from_le_bytes([mem[a], mem[a + 1], mem[a + 2], mem[a + 3]])
}

fn put(mem: &mut [u8], a: usize, v: u32) {
    mem[a..a + 4].copy_from_slice(&v.to_le_bytes());
}

/// A heap whose region at `off` of `size` bytes is one free last chunk.
fn heap(len: usize, off: usize, size: usize) -> Heap {
    let mut mem = vec![0u8; len];
    put(&mut mem, off, 2);
    put(&mut mem, off + 4, (size - 8) as u32);
    let mut h = Heap { mem, region_off: 0, region_size: 0 };
    h.heap_region(off, size);
    h
}

#[test]
fn heap_region_sets_the_region() {
    let mut h = Heap { mem: vec![0u8; 16], region_off: 1, region_size: 2 };
    h.heap_region(4, 12);
    assert_eq!(h.region_off, 4);
    assert_eq!(h.region_size, 12);
    assert_eq!(h.mem, vec![0u8; 16]);
    h.heap_region(0x1_0000_0005, 3);
    assert_eq!(h.region_off, 5);
}

#[test]
fn allocate_splits_a_large_chunk() {
    let mut h = heap(128, 16, 96);
    let r = h.allocate(10, 4);
    assert_eq!(r, 24);
    assert_eq!(word(&h.mem, 16), 1);
    assert_eq!(word(&h.mem, 20), 12);
    assert_eq!(word(&h.mem, 36), 2);
    assert_eq!(word(&h.mem, 40), 68);
}

#[test]
fn allocate_takes_a_small_chunk_whole() {
    let mut h = heap(128, 16, 96);
    assert_eq!(h.allocate(10, 4), 24);
    let r = h.allocate(40, 4);
    assert_eq!(r, 44);
    assert_eq!(word(&h.mem, 36), 3);
    assert_eq!(word(&h.mem, 40), 68);
    assert_eq!(h.allocate(4, 4), 0);
}

#[test]
fn allocate_rounds_up_to_four() {
    let mut h = heap(256, 0, 200);
    assert_eq!(h.allocate(1, 1), 8);
    assert_eq!(word(&h.mem, 4), 4);
    assert_eq!(h.allocate(8, 1), 20);
    assert_eq!(word(&h.mem, 16), 8);
    assert_eq!(h.allocate(0, 1), 36);
    assert_eq!(word(&h.mem, 32), 0);
}

#[test]
fn allocate_fails_when_nothing_fits() {
    let mut h = heap(64, 8, 40);
    let before = h.mem.clone();
    assert_eq!(h.allocate(33, 4), 0);
    assert_eq!(h.mem, before);
}

#[test]
fn chunk_exactly_32_larger_is_not_split() {
    let mut h = heap(128, 0, 8 + 44);
    assert_eq!(h.allocate(12, 4), 8);
    assert_eq!(word(&h.mem, 0), 3);
    assert_eq!(word(&h.mem, 4), 44);
}

#[test]
fn deallocate_clears_the_used_flag_only() {
    let mut h = heap(128, 16, 96);
    let a = h.allocate(10, 4);
    let b = h.allocate(40, 4);
    h.deallocate(b, 40, 4);
    assert_eq!(word(&h.mem, 36), 2);
    assert_eq!(word(&h.mem, 40), 68);
    h.deallocate(a, 10, 4);
    assert_eq!(word(&h.mem, 16), 0);
    assert_eq!(word(&h.mem, 20), 12);
}

#[test]
fn freed_chunk_is_handed_out_again() {
    let mut h = heap(256, 16, 200);
    let a = h.allocate(20, 4);
    let _b = h.allocate(20, 4);
    h.deallocate(a, 20, 4);
    assert_eq!(h.allocate(20, 4), a);
}

#[test]
fn chunks_are_not_merged() {
    let mut h = heap(256, 0, 120);
    let a = h.allocate(20, 4);
    let b = h.allocate(20, 4);
    h.deallocate(a, 20, 4);
    h.deallocate(b, 20, 4);
    // Two free chunks of 20 bytes do not serve a request of 48 bytes
    // from the start of the region.
    let c = h.allocate(48, 4);
    assert!(c != a && c != b);
    assert_eq!(c, 64);
}

#[test]
fn reallocate_keeps_the_data() {
    let mut h = heap(256, 16, 200);
    let p = h.allocate(8, 4);
    assert_eq!(p, 24);
    for i in 0..8 {
        h.mem[p + i] = (i + 1) as u8;
    }
    let q = h.reallocate(p, 8, 20, 4);
    assert_eq!(q, 40);
    for i in 0..8 {
        assert_eq!(h.mem[q + i], (i + 1) as u8);
    }
    // The old chunk was released.
    assert_eq!(word(&h.mem, 16), 0);
}

#[test]
fn reallocate_smaller_copies_in_place() {
    let mut h = heap(256, 16, 200);
    let p = h.allocate(40, 4);
    for i in 0..40 {
        h.mem[p + i] = (100 + i) as u8;
    }
    let q = h.reallocate(p, 40, 6, 4);
    assert_eq!(q, p);
    for i in 0..6 {
        assert_eq!(h.mem[q + i], (100 + i) as u8);
    }
}

#[test]
fn reallocate_that_fails_releases_the_old_chunk() {
    let mut h = heap(64, 8, 48);
    let p = h.allocate(40, 4);
    assert_eq!(p, 16);
    assert_eq!(h.reallocate(p, 40, 44, 4), 0);
    assert_eq!(word(&h.mem, 8), 2);
}

#[test]
fn allocations_are_aligned_in_an_aligned_heap() {
    let mut h = heap(512, 12, 400);
    let mut last = 0;
    for size in [1usize, 7, 13, 2, 30] {
        let r = h.allocate(size, 1);
        assert!(r != 0);
        assert_eq!(r % 4, 0);
        last = r;
    }
    h.deallocate(last, 30, 1);
    for size in [5usize, 3, 17] {
        let r = h.allocate(size, 1);
        assert!(r != 0);
        assert_eq!(r % 4, 0);
    }
}

#[test]
fn allocation_leaves_used_payloads_alone() {
    let mut h = heap(256, 0, 200);
    let a = h.allocate(16, 4);
    for i in 0..16 {
        h.mem[a + i] = 0xAB;
    }
    let _b = h.allocate(16, 4);
    let _c = h.allocate(100, 4);
    for i in 0..16 {
        assert_eq!(h.mem[a + i], 0xAB);
    }
}
