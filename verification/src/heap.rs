//! A first-fit heap over a flat byte memory.
//!
//! The region `[region_off, region_off + region_size)` of `mem` is carved
//! into chunks. Each chunk starts with an eight byte header: a little-endian
//! 32-bit flags word (bit 0: in use, bit 1: last chunk of the region) and a
//! little-endian 32-bit payload size; the payload follows the header and the
//! next chunk follows the payload.
use vstd::prelude::*;

verus! {

/// The little-endian 32-bit word stored at byte address `a`.
#[verifier::opaque]
pub open spec fn word_at(mem: Seq<u8>, a: int) -> u32 {
    (mem[a] + 256 * mem[a + 1] + 65536 * mem[a + 2] + 16777216 * mem[a + 3]) as u32
}

/// `mem` with the little-endian bytes of `v` stored at byte address `a`.
pub open spec fn write_word(mem: Seq<u8>, a: int, v: u32) -> Seq<u8> {
    mem.update(a, (v % 256) as u8).update(a + 1, ((v / 256) % 256) as u8).update(
        a + 2,
        ((v / 65536) % 256) as u8,
    ).update(a + 3, (v / 16777216) as u8)
}

proof fn lemma_word_bytes(v: u32)
    ensures
        (v % 256) + 256 * ((v / 256) % 256) + 65536 * ((v / 65536) % 256) + 16777216 * (v
            / 16777216) == v,
        v / 16777216 < 256,
{
    assert((v % 256) + 256 * ((v / 256) % 256) + 65536 * ((v / 65536) % 256) + 16777216 * (v
        / 16777216) == v) by (bit_vector);
    assert(v / 16777216 < 256) by (bit_vector);
}

/// Storing a word and reading it back gives the word; bytes outside the four
/// written ones keep their values.
proof fn lemma_write_word(mem: Seq<u8>, a: int, v: u32)
    requires
        0 <= a,
        a + 4 <= mem.len(),
    ensures
        write_word(mem, a, v).len() == mem.len(),
        word_at(write_word(mem, a, v), a) == v,
        forall|i: int|
            0 <= i < mem.len() && (i < a || a + 4 <= i) ==> #[trigger] write_word(mem, a, v)[i]
                == mem[i],
{
    reveal(word_at);
    lemma_word_bytes(v);
    let m = write_word(mem, a, v);
    assert(m[a] == v % 256);
    assert(m[a + 1] == (v / 256) % 256);
    assert(m[a + 2] == (v / 65536) % 256);
    assert(m[a + 3] == v / 16777216);
}

/// Words read from equal bytes are equal.
proof fn lemma_word_eq(m1: Seq<u8>, m2: Seq<u8>, a: int)
    requires
        m1[a] == m2[a],
        m1[a + 1] == m2[a + 1],
        m1[a + 2] == m2[a + 2],
        m1[a + 3] == m2[a + 3],
    ensures
        word_at(m1, a) == word_at(m2, a),
{
    reveal(word_at);
}

/// The header words of two memories that agree on the header's eight bytes
/// are equal.
proof fn lemma_header_eq(m1: Seq<u8>, m2: Seq<u8>, a: int)
    requires
        forall|i: int| a <= i < a + 8 ==> #[trigger] m1[i] == m2[i],
    ensures
        word_at(m1, a) == word_at(m2, a),
        word_at(m1, a + 4) == word_at(m2, a + 4),
{
    lemma_word_eq(m1, m2, a);
    lemma_word_eq(m1, m2, a + 4);
}

/// A word read from four bytes, split again, gives the same four bytes.
proof fn lemma_word_of_bytes(b0: u8, b1: u8, b2: u8, b3: u8)
    ensures
        ({
            let v = (b0 + 256 * b1 + 65536 * b2 + 16777216 * b3) as u32;
            &&& (v % 256) as u8 == b0
            &&& ((v / 256) % 256) as u8 == b1
            &&& ((v / 65536) % 256) as u8 == b2
            &&& (v / 16777216) as u8 == b3
        }),
{
    let x0 = b0 as u32;
    let x1 = b1 as u32;
    let x2 = b2 as u32;
    let x3 = b3 as u32;
    assert(x0 + 256 * x1 + 65536 * x2 + 16777216 * x3 <= 0xffff_ffff);
    let v = (x0 + 256 * x1 + 65536 * x2 + 16777216 * x3) as u32;
    assert(v % 256 == x0 && (v / 256) % 256 == x1 && (v / 65536) % 256 == x2 && v / 16777216
        == x3) by (bit_vector)
        requires
            x0 < 256,
            x1 < 256,
            x2 < 256,
            x3 < 256,
            v == x0 + 256 * x1 + 65536 * x2 + 16777216 * x3,
    ;
}

fn read32(mem: &std::vec::Vec<u8>, a: usize) -> (r: u32)
    requires
        a + 4 <= mem.len(),
    ensures
        r == word_at(mem@, a as int),
{
    proof {
        reveal(word_at);
    }
    mem[a] as u32 + (mem[a + 1] as u32) * 256 + (mem[a + 2] as u32) * 65536 + (mem[a + 3] as u32)
        * 16777216
}

fn write32(mem: &mut std::vec::Vec<u8>, a: usize, v: u32)
    requires
        a + 4 <= old(mem).len(),
    ensures
        final(mem)@ == write_word(old(mem)@, a as int, v),
{
    mem.set(a, (v % 256) as u8);
    mem.set(a + 1, ((v / 256) % 256) as u8);
    mem.set(a + 2, ((v / 65536) % 256) as u8);
    mem.set(a + 3, (v / 16777216) as u8);
}


/// The heap: a flat byte memory and the region of it that holds the chunks.
pub struct Heap {
    pub mem: std::vec::Vec<u8>,
    pub region_off: u32,
    pub region_size: u32,
}

/// The flags word of the chunk at offset `loff` of the region at `base`.
pub open spec fn flags_at(mem: Seq<u8>, base: int, loff: int) -> u32 {
    word_at(mem, base + loff)
}

/// The payload size of the chunk at offset `loff` of the region at `base`.
pub open spec fn size_at(mem: Seq<u8>, base: int, loff: int) -> u32 {
    word_at(mem, base + loff + 4)
}

/// The offset of the chunk that follows the chunk at `loff`.
pub open spec fn next_off(mem: Seq<u8>, base: int, loff: int) -> int {
    loff + 8 + size_at(mem, base, loff)
}

pub open spec fn is_used(f: u32) -> bool {
    f & 1 == 1
}

pub open spec fn is_last(f: u32) -> bool {
    f & 2 == 2
}

/// From offset `loff` on, the region of length `end` holds a chain of
/// chunks that lie inside it, the last of which carries the last flag.
pub open spec fn chain_from(mem: Seq<u8>, base: int, end: int, loff: int) -> bool
    decreases end - loff,
{
    if 0 <= loff && next_off(mem, base, loff) <= end {
        is_last(flags_at(mem, base, loff)) || chain_from(mem, base, end, next_off(mem, base, loff))
    } else {
        false
    }
}

/// The offset of the first free chunk, from `loff` on, whose payload holds
/// at least `rsize` bytes.
pub open spec fn first_fit(mem: Seq<u8>, base: int, end: int, loff: int, rsize: int) -> Option<int>
    decreases end - loff,
{
    if 0 <= loff && next_off(mem, base, loff) <= end {
        if !is_used(flags_at(mem, base, loff)) && size_at(mem, base, loff) >= rsize {
            Some(loff)
        } else if is_last(flags_at(mem, base, loff)) {
            None
        } else {
            first_fit(mem, base, end, next_off(mem, base, loff), rsize)
        }
    } else {
        None
    }
}

/// A chunk of the chain that starts at `loff` sits at offset `t`.
pub open spec fn in_chain(mem: Seq<u8>, base: int, end: int, loff: int, t: int) -> bool
    decreases end - loff,
{
    if 0 <= loff && next_off(mem, base, loff) <= end {
        loff == t || (!is_last(flags_at(mem, base, loff)) && in_chain(
            mem,
            base,
            end,
            next_off(mem, base, loff),
            t,
        ))
    } else {
        false
    }
}

/// The offset just past the last chunk of the chain that starts at `loff`:
/// the chunks from `loff` on tile the bytes up to it.
pub open spec fn chain_end(mem: Seq<u8>, base: int, end: int, loff: int) -> int
    decreases end - loff,
{
    if 0 <= loff && next_off(mem, base, loff) <= end {
        if is_last(flags_at(mem, base, loff)) {
            next_off(mem, base, loff)
        } else {
            chain_end(mem, base, end, next_off(mem, base, loff))
        }
    } else {
        loff
    }
}

/// Every chunk of the chain from `loff` on has a payload size that is a
/// multiple of four.
pub open spec fn sizes_aligned(mem: Seq<u8>, base: int, end: int, loff: int) -> bool
    decreases end - loff,
{
    if 0 <= loff && next_off(mem, base, loff) <= end {
        size_at(mem, base, loff) % 4 == 0 && (is_last(flags_at(mem, base, loff)) || sizes_aligned(
            mem,
            base,
            end,
            next_off(mem, base, loff),
        ))
    } else {
        false
    }
}

/// A request size rounded up to a multiple of four.
pub open spec fn round4(size: int) -> int {
    if size % 4 > 0 {
        size - size % 4 + 4
    } else {
        size
    }
}

/// The memory after the free chunk whose header is at address `a` is taken
/// for a request of `rsize` bytes: a chunk more than 32 bytes larger than
/// the request is split in a used chunk of `rsize` bytes and a free rest that
/// inherits the last flag; a smaller one is marked used as a whole.
#[verifier::opaque]
pub open spec fn alloc_at(mem: Seq<u8>, a: int, rsize: int) -> Seq<u8> {
    let f = word_at(mem, a);
    let s = word_at(mem, a + 4);
    if s > rsize + 32 {
        write_word(
            write_word(write_word(write_word(mem, a, 1), a + 4, rsize as u32), a + 8 + rsize, f & 2),
            a + 12 + rsize,
            (s - rsize - 8) as u32,
        )
    } else {
        write_word(mem, a, (f & 2) | 1)
    }
}

proof fn lemma_flag_bits(f: u32)
    ensures
        1u32 & 1u32 == 1,
        1u32 & 2u32 == 0,
        (f & 2) & 1 == 0,
        (f & 2) & 2 == f & 2,
        ((f & 2) | 1) & 1 == 1,
        ((f & 2) | 1) & 2 == f & 2,
        (f & 1 == 1) || (f & 1 == 0),
{
    assert((f & 1 == 1) || (f & 1 == 0)) by (bit_vector);
    assert(1u32 & 1u32 == 1) by (bit_vector);
    assert(1u32 & 2u32 == 0) by (bit_vector);
    assert((f & 2) & 1 == 0) by (bit_vector);
    assert((f & 2) & 2 == f & 2) by (bit_vector);
    assert(((f & 2) | 1) & 1 == 1) by (bit_vector);
    assert(((f & 2) | 1) & 2 == f & 2) by (bit_vector);
}

/// Two memories that agree on the region from `loff` on hold the same chain
/// there.
proof fn lemma_chain_frame(m1: Seq<u8>, m2: Seq<u8>, base: int, end: int, loff: int, rsize: int, t: int)
    requires
        0 <= base,
        0 <= loff,
        base + end <= m1.len(),
        m1.len() == m2.len(),
        forall|i: int| base + loff <= i < base + end ==> #[trigger] m1[i] == m2[i],
    ensures
        chain_from(m1, base, end, loff) == chain_from(m2, base, end, loff),
        first_fit(m1, base, end, loff, rsize) == first_fit(m2, base, end, loff, rsize),
        in_chain(m1, base, end, loff, t) == in_chain(m2, base, end, loff, t),
        sizes_aligned(m1, base, end, loff) == sizes_aligned(m2, base, end, loff),
        chain_end(m1, base, end, loff) == chain_end(m2, base, end, loff),
    decreases end - loff,
{
    reveal(word_at);
    if loff + 8 <= end {
        let a = base + loff;
        lemma_header_eq(m1, m2, a);
        assert(flags_at(m1, base, loff) == flags_at(m2, base, loff));
        assert(size_at(m1, base, loff) == size_at(m2, base, loff));
        let n = next_off(m1, base, loff);
        if n <= end {
            lemma_chain_frame(m1, m2, base, end, n, rsize, t);
        }
    }
}

/// What taking the chunk at `a` writes, and that it writes nothing outside
/// that chunk.
proof fn lemma_alloc_at(mem: Seq<u8>, a: int, rsize: int)
    requires
        0 <= a,
        0 <= rsize <= word_at(mem, a + 4),
        a + 8 + word_at(mem, a + 4) <= mem.len(),
    ensures
        ({
            let m2 = alloc_at(mem, a, rsize);
            let f = word_at(mem, a);
            let s = word_at(mem, a + 4);
            &&& m2.len() == mem.len()
            &&& forall|i: int|
                0 <= i < mem.len() && (i < a || a + 8 + s <= i) ==> #[trigger] m2[i] == mem[i]
            &&& forall|i: int| a + 8 <= i < a + 8 + rsize ==> #[trigger] m2[i] == mem[i]
            &&& s > rsize + 32 ==> {
                &&& word_at(m2, a) == 1
                &&& word_at(m2, a + 4) == rsize
                &&& word_at(m2, a + 8 + rsize) == f & 2
                &&& word_at(m2, a + 12 + rsize) == s - rsize - 8
            }
            &&& s <= rsize + 32 ==> {
                &&& word_at(m2, a) == (f & 2) | 1
                &&& word_at(m2, a + 4) == s
            }
        }),
{
    reveal(alloc_at);
    reveal(word_at);
    let f = word_at(mem, a);
    let s = word_at(mem, a + 4);
    if s > rsize + 32 {
        let w1 = write_word(mem, a, 1);
        lemma_write_word(mem, a, 1);
        let w2 = write_word(w1, a + 4, rsize as u32);
        lemma_write_word(w1, a + 4, rsize as u32);
        let w3 = write_word(w2, a + 8 + rsize, f & 2);
        lemma_write_word(w2, a + 8 + rsize, f & 2);
        let w4 = write_word(w3, a + 12 + rsize, (s - rsize - 8) as u32);
        lemma_write_word(w3, a + 12 + rsize, (s - rsize - 8) as u32);
        assert(word_at(w2, a) == word_at(w1, a));
        assert(word_at(w3, a) == word_at(w2, a));
        assert(word_at(w4, a) == word_at(w3, a));
        assert(word_at(w3, a + 4) == word_at(w2, a + 4));
        assert(word_at(w4, a + 4) == word_at(w3, a + 4));
        assert(word_at(w4, a + 8 + rsize) == word_at(w3, a + 8 + rsize));
    } else {
        lemma_write_word(mem, a, (f & 2) | 1);
        assert(word_at(write_word(mem, a, (f & 2) | 1), a + 4) == s);
    }
}

/// Taking the chunk at `l` keeps the chain from `l` on well formed.
proof fn lemma_alloc_chain_here(mem: Seq<u8>, base: int, end: int, l: int, rsize: int)
    requires
        0 <= base,
        base + end <= mem.len(),
        0 <= rsize <= size_at(mem, base, l),
        chain_from(mem, base, end, l),
    ensures
        chain_from(alloc_at(mem, base + l, rsize), base, end, l),
        in_chain(alloc_at(mem, base + l, rsize), base, end, l, l),
        size_at(alloc_at(mem, base + l, rsize), base, l) >= rsize,
        is_used(flags_at(alloc_at(mem, base + l, rsize), base, l)),
        chain_end(alloc_at(mem, base + l, rsize), base, end, l) == chain_end(mem, base, end, l),
{
    let m2 = alloc_at(mem, base + l, rsize);
    let f = flags_at(mem, base, l);
    let s = size_at(mem, base, l);
    lemma_flag_bits(f);
    let a = base + l;
    lemma_alloc_at(mem, a, rsize);
    let n = l + 8 + s;
    if !is_last(f) {
        lemma_chain_frame(mem, m2, base, end, n, rsize, 0);
    }
    if s > rsize + 32 {
        let mid = l + 8 + rsize;
        assert(flags_at(m2, base, l) == 1);
        assert(size_at(m2, base, l) == rsize);
        assert(next_off(m2, base, l) == mid);
        assert(flags_at(m2, base, mid) == f & 2);
        assert(size_at(m2, base, mid) == s - rsize - 8);
        assert(next_off(m2, base, mid) == n);
        assert(chain_from(m2, base, end, mid));
        assert(chain_end(m2, base, end, mid) == chain_end(mem, base, end, l));
        assert(chain_end(m2, base, end, l) == chain_end(m2, base, end, mid));
    } else {
        assert(flags_at(m2, base, l) == (f & 2) | 1);
        assert(next_off(m2, base, l) == n);
    }
}

/// Taking the first fitting chunk keeps the chain well formed.
proof fn lemma_alloc_chain(mem: Seq<u8>, base: int, end: int, loff: int, l: int, rsize: int)
    requires
        0 <= base,
        base + end <= mem.len(),
        0 <= rsize,
        chain_from(mem, base, end, loff),
        first_fit(mem, base, end, loff, rsize) == Some(l),
    ensures
        loff <= l,
        next_off(mem, base, l) <= end,
        size_at(mem, base, l) >= rsize,
        !is_used(flags_at(mem, base, l)),
        chain_from(alloc_at(mem, base + l, rsize), base, end, loff),
        in_chain(alloc_at(mem, base + l, rsize), base, end, loff, l),
        size_at(alloc_at(mem, base + l, rsize), base, l) >= rsize,
        is_used(flags_at(alloc_at(mem, base + l, rsize), base, l)),
        chain_end(alloc_at(mem, base + l, rsize), base, end, loff) == chain_end(mem, base, end, loff),
    decreases end - loff,
{
    let f = flags_at(mem, base, loff);
    let s = size_at(mem, base, loff);
    if !is_used(f) && s >= rsize {
        lemma_alloc_chain_here(mem, base, end, loff, rsize);
    } else {
        reveal(word_at);
        let m2 = alloc_at(mem, base + l, rsize);
        let n = next_off(mem, base, loff);
        lemma_alloc_chain(mem, base, end, n, l, rsize);
        lemma_alloc_at(mem, base + l, rsize);
        let a = base + loff;
        lemma_header_eq(m2, mem, a);
        assert(flags_at(m2, base, loff) == f);
        assert(next_off(m2, base, loff) == n);
    }
}

/// The memory after the chunk whose header is at address `h` is released:
/// its flags keep only the last flag.
pub open spec fn free_at(mem: Seq<u8>, h: int) -> Seq<u8> {
    write_word(mem, h, word_at(mem, h) & 2)
}

/// A chunk of the chain lies after the chain's start and inside the region.
proof fn lemma_in_chain_bounds(mem: Seq<u8>, base: int, end: int, loff: int, t: int)
    requires
        in_chain(mem, base, end, loff, t),
    ensures
        0 <= loff <= t,
        next_off(mem, base, t) <= end,
    decreases end - loff,
{
    if loff != t {
        lemma_in_chain_bounds(mem, base, end, next_off(mem, base, loff), t);
    }
}

/// The chunk that `first_fit` finds belongs to the chain.
proof fn lemma_first_fit_in_chain(mem: Seq<u8>, base: int, end: int, loff: int, rsize: int)
    requires
        first_fit(mem, base, end, loff, rsize) is Some,
    ensures
        in_chain(mem, base, end, loff, first_fit(mem, base, end, loff, rsize)->0),
    decreases end - loff,
{
    if first_fit(mem, base, end, loff, rsize) != Some(loff) {
        lemma_first_fit_in_chain(mem, base, end, next_off(mem, base, loff), rsize);
    }
}

/// Two different chunks of a chain do not overlap.
proof fn lemma_in_chain_disjoint(mem: Seq<u8>, base: int, end: int, loff: int, t1: int, t2: int)
    requires
        in_chain(mem, base, end, loff, t1),
        in_chain(mem, base, end, loff, t2),
        t1 < t2,
    ensures
        next_off(mem, base, t1) <= t2,
    decreases end - loff,
{
    let n = next_off(mem, base, loff);
    if loff == t1 {
        lemma_in_chain_bounds(mem, base, end, n, t2);
    } else {
        lemma_in_chain_bounds(mem, base, end, n, t1);
        lemma_in_chain_disjoint(mem, base, end, n, t1, t2);
    }
}

/// Releasing a chunk of the chain keeps the chain well formed, keeps every
/// chunk where it was, and leaves that chunk free.
proof fn lemma_free_chain(mem: Seq<u8>, base: int, end: int, loff: int, t: int)
    requires
        0 <= base,
        base + end <= mem.len(),
        chain_from(mem, base, end, loff),
        in_chain(mem, base, end, loff, t),
    ensures
        chain_from(free_at(mem, base + t), base, end, loff),
        in_chain(free_at(mem, base + t), base, end, loff, t),
        size_at(free_at(mem, base + t), base, t) == size_at(mem, base, t),
        !is_used(flags_at(free_at(mem, base + t), base, t)),
        sizes_aligned(mem, base, end, loff) ==> sizes_aligned(free_at(mem, base + t), base, end, loff),
        chain_end(free_at(mem, base + t), base, end, loff) == chain_end(mem, base, end, loff),
    decreases end - loff,
{
    let m2 = free_at(mem, base + t);
    let f = flags_at(mem, base, loff);
    lemma_flag_bits(f);
    lemma_in_chain_bounds(mem, base, end, loff, t);
    let ft = flags_at(mem, base, t);
    lemma_flag_bits(ft);
    lemma_write_word(mem, base + t, ft & 2);
    let n = next_off(mem, base, loff);
    if loff == t {
        lemma_word_eq(m2, mem, base + t + 4);
        assert(size_at(m2, base, t) == size_at(mem, base, t));
        assert(flags_at(m2, base, t) == ft & 2);
        if !is_last(f) {
            lemma_chain_frame(mem, m2, base, end, n, 0, 0);
        }
    } else {
        lemma_in_chain_bounds(mem, base, end, n, t);
        lemma_free_chain(mem, base, end, n, t);
        lemma_header_eq(m2, mem, base + loff);
        assert(flags_at(m2, base, loff) == f);
        assert(next_off(m2, base, loff) == n);
    }
}

/// Freeing the chunk that an allocation has just taken, and asking for the
/// same size again, finds that same chunk.
proof fn lemma_reuse(mem: Seq<u8>, base: int, end: int, loff: int, l: int, rsize: int)
    requires
        0 <= base,
        base + end <= mem.len(),
        0 <= rsize,
        chain_from(mem, base, end, loff),
        first_fit(mem, base, end, loff, rsize) == Some(l),
    ensures
        first_fit(free_at(alloc_at(mem, base + l, rsize), base + l), base, end, loff, rsize) == Some(
            l,
        ),
    decreases end - loff,
{
    let m1 = alloc_at(mem, base + l, rsize);
    let m2 = free_at(m1, base + l);
    lemma_alloc_chain(mem, base, end, loff, l, rsize);
    lemma_alloc_at(mem, base + l, rsize);
    let f1 = word_at(m1, base + l);
    lemma_write_word(m1, base + l, f1 & 2);
    lemma_flag_bits(f1);
    lemma_flag_bits(word_at(mem, base + l));
    if loff == l {
        lemma_word_eq(m2, m1, base + l + 4);
        assert(size_at(m2, base, l) == size_at(m1, base, l));
        assert(flags_at(m2, base, l) == f1 & 2);
    } else {
        let n = next_off(mem, base, loff);
        lemma_reuse(mem, base, end, n, l, rsize);
        lemma_alloc_chain(mem, base, end, n, l, rsize);
        let a = base + loff;
        lemma_header_eq(m2, mem, a);
        assert(flags_at(m2, base, loff) == flags_at(mem, base, loff));
        assert(size_at(m2, base, loff) == size_at(mem, base, loff));
    }
}

/// `mem` with the `n` bytes at `s` copied to `d`.
pub open spec fn copy_bytes(mem: Seq<u8>, d: int, s: int, n: int) -> Seq<u8> {
    Seq::new(mem.len(), |i: int| if d <= i < d + n { mem[s + (i - d)] } else { mem[i] })
}

/// Storing the word read at `s` at address `d` copies the four bytes.
proof fn lemma_copy_word(m: Seq<u8>, d: int, s: int)
    requires
        0 <= d,
        d + 4 <= m.len(),
        0 <= s,
        s + 4 <= m.len(),
    ensures
        write_word(m, d, word_at(m, s))[d] == m[s],
        write_word(m, d, word_at(m, s))[d + 1] == m[s + 1],
        write_word(m, d, word_at(m, s))[d + 2] == m[s + 2],
        write_word(m, d, word_at(m, s))[d + 3] == m[s + 3],
{
    reveal(word_at);
    lemma_word_of_bytes(m[s], m[s + 1], m[s + 2], m[s + 3]);
}

/// Changing bytes inside the payload of a chunk keeps the chain.
proof fn lemma_payload_frame(
    m1: Seq<u8>,
    m2: Seq<u8>,
    base: int,
    end: int,
    loff: int,
    l: int,
    lo: int,
    hi: int,
)
    requires
        0 <= base,
        base + end <= m1.len(),
        m1.len() == m2.len(),
        chain_from(m1, base, end, loff),
        in_chain(m1, base, end, loff, l),
        base + l + 8 <= lo <= hi <= base + next_off(m1, base, l),
        forall|i: int| 0 <= i < m1.len() && !(lo <= i < hi) ==> #[trigger] m1[i] == m2[i],
    ensures
        chain_from(m2, base, end, loff),
    decreases end - loff,
{
    lemma_in_chain_bounds(m1, base, end, loff, l);
    let n = next_off(m1, base, loff);
    if loff != l {
        lemma_in_chain_bounds(m1, base, end, n, l);
    }
    let a = base + loff;
    lemma_header_eq(m2, m1, a);
    assert(next_off(m2, base, loff) == n);
    if !is_last(flags_at(m1, base, loff)) {
        if loff == l {
            lemma_chain_frame(m1, m2, base, end, n, 0, 0);
        } else {
            lemma_payload_frame(m1, m2, base, end, n, l, lo, hi);
        }
    }
}

/// What `reallocate` relies on: the released chunk `t` and the chunk that the
/// new request takes are the same chunk or do not overlap, and the first `n`
/// bytes of the released payload survive the release and the new request.
proof fn lemma_realloc(mem: Seq<u8>, base: int, end: int, t: int, rs: int, n: int)
    requires
        0 <= base,
        base + end <= mem.len(),
        chain_from(mem, base, end, 0),
        in_chain(mem, base, end, 0, t),
        0 <= n <= size_at(mem, base, t),
        n <= rs,
        first_fit(free_at(mem, base + t), base, end, 0, rs) is Some,
    ensures
        ({
            let freed = free_at(mem, base + t);
            let l = first_fit(freed, base, end, 0, rs)->0;
            let m1 = alloc_at(freed, base + l, rs);
            &&& freed.len() == mem.len()
            &&& m1.len() == mem.len()
            &&& chain_from(freed, base, end, 0)
            &&& 0 <= l
            &&& base + l + 8 + rs <= base + end
            &&& base + t + 8 + n <= base + end
            &&& (l == t || base + l + 8 + n <= base + t + 8 || base + t + 8 + n <= base + l + 8)
            &&& forall|i: int| 0 <= i < n ==> #[trigger] m1[base + t + 8 + i] == mem[base + t + 8 + i]
        }),
{
    let freed = free_at(mem, base + t);
    lemma_free_chain(mem, base, end, 0, t);
    lemma_in_chain_bounds(mem, base, end, 0, t);
    lemma_write_word(mem, base + t, word_at(mem, base + t) & 2);
    let l = first_fit(freed, base, end, 0, rs)->0;
    lemma_alloc_chain(freed, base, end, 0, l, rs);
    lemma_first_fit_in_chain(freed, base, end, 0, rs);
    lemma_alloc_at(freed, base + l, rs);
    if l < t {
        lemma_in_chain_disjoint(freed, base, end, 0, l, t);
    } else if t < l {
        lemma_in_chain_disjoint(freed, base, end, 0, t, l);
    }
}

proof fn lemma_round4(x: usize)
    requires
        x <= 0xffff_fffc,
    ensures
        x & 3 == x % 4,
        (x >> 2) << 2 == x - x % 4,
{
    assert(x & 3 == x % 4) by (bit_vector);
    assert((x >> 2) << 2 == x - x % 4) by (bit_vector)
        requires
            x <= 0xffff_fffc,
    ;
}

/// One step of the walk along the chain.
proof fn lemma_first_fit_step(mem: Seq<u8>, base: int, end: int, loff: int, rsize: int)
    requires
        chain_from(mem, base, end, loff),
    ensures
        0 <= loff,
        next_off(mem, base, loff) <= end,
        !is_last(flags_at(mem, base, loff)) ==> chain_from(
            mem,
            base,
            end,
            next_off(mem, base, loff),
        ),
        first_fit(mem, base, end, loff, rsize) == (if !is_used(flags_at(mem, base, loff))
            && size_at(mem, base, loff) >= rsize {
            Some(loff)
        } else if is_last(flags_at(mem, base, loff)) {
            None
        } else {
            first_fit(mem, base, end, next_off(mem, base, loff), rsize)
        }),
{
}

/// Law: a request rounded up to four is a multiple of four, not below the
/// request and less than four above it.
pub proof fn lemma_round4_bounds(x: int)
    requires
        x >= 0,
    ensures
        round4(x) % 4 == 0,
        x <= round4(x) < x + 4,
{
}

/// Law: `first_fit` finds a free chunk of the chain that holds the request
/// and before which every chunk is in use or too small; when it finds none,
/// every chunk is in use or too small.
pub proof fn lemma_first_fit_first(mem: Seq<u8>, base: int, end: int, loff: int, rsize: int)
    requires
        chain_from(mem, base, end, loff),
    ensures
        first_fit(mem, base, end, loff, rsize) matches Some(l) ==> {
            &&& in_chain(mem, base, end, loff, l)
            &&& !is_used(flags_at(mem, base, l))
            &&& size_at(mem, base, l) >= rsize
            &&& forall|c: int|
                in_chain(mem, base, end, loff, c) && c < l ==> is_used(#[trigger] flags_at(mem, base, c))
                    || size_at(mem, base, c) < rsize
        },
        first_fit(mem, base, end, loff, rsize) is None ==> forall|c: int|
            in_chain(mem, base, end, loff, c) ==> is_used(#[trigger] flags_at(mem, base, c)) || size_at(
                mem,
                base,
                c,
            ) < rsize,
    decreases end - loff,
{
    let n = next_off(mem, base, loff);
    let f = flags_at(mem, base, loff);
    if !is_used(f) && size_at(mem, base, loff) >= rsize {
        assert forall|c: int| in_chain(mem, base, end, loff, c) && c < loff implies is_used(
            #[trigger] flags_at(mem, base, c),
        ) || size_at(mem, base, c) < rsize by {
            lemma_in_chain_bounds(mem, base, end, loff, c);
        }
    } else if is_last(f) {
    } else {
        lemma_first_fit_first(mem, base, end, n, rsize);
        assert forall|c: int| in_chain(mem, base, end, loff, c) && c != loff implies in_chain(
            mem,
            base,
            end,
            n,
            c,
        ) by {}
        if first_fit(mem, base, end, n, rsize) is Some {
            let l = first_fit(mem, base, end, n, rsize)->0;
            lemma_in_chain_bounds(mem, base, end, n, l);
        }
    }
}

impl Heap {
    /// Marks the free chunk whose header is at `a` used for a request of
    /// `size` bytes, splitting it when it is more than 32 bytes larger.
    fn take_chunk(&mut self, a: usize, size: usize, chunkflags: u32, chunksize: u32)
        requires
            chunkflags == word_at(old(self).mem@, a as int),
            chunksize == word_at(old(self).mem@, a as int + 4),
            size <= chunksize,
            a + 8 + chunksize <= old(self).mem.len(),
        ensures
            final(self).mem@ == alloc_at(old(self).mem@, a as int, size as int),
            final(self).region_off == old(self).region_off,
            final(self).region_size == old(self).region_size,
    {
        proof {
            reveal(alloc_at);
        }
        if (chunksize as u64) > (size as u64) + 32 {
            write32(&mut self.mem, a, 1);
            write32(&mut self.mem, a + 4, size as u32);
            write32(&mut self.mem, a + 8 + size, chunkflags & 2);
            write32(&mut self.mem, a + 12 + size, chunksize - size as u32 - 8);
        } else {
            write32(&mut self.mem, a, (chunkflags & 2) | 1);
        }
    }

    /// The offset of the region in memory.
    pub open spec fn base(&self) -> int {
        self.region_off as int
    }

    /// The length of the region.
    pub open spec fn end(&self) -> int {
        self.region_size as int
    }

    /// The region lies inside memory and within 32-bit addresses, and is
    /// carved into a well-formed chain of chunks.
    pub open spec fn wf(&self) -> bool {
        &&& self.base() + self.end() <= self.mem.len()
        &&& self.base() + self.end() <= u32::MAX
        &&& chain_from(self.mem@, self.base(), self.end(), 0)
    }

    /// Sets the region that the heap carves its chunks from. Addresses and
    /// sizes are 32-bit, as in the memory they describe.
    pub fn heap_region(&mut self, addr: usize, size: usize)
        ensures
            final(self).region_off == addr as u32,
            final(self).region_size == size as u32,
            final(self).mem@ == old(self).mem@,
    {
        self.region_off = addr as u32;
        self.region_size = size as u32;
    }

    /// Returns the address of the payload of a chunk of at least `size`
    /// bytes, or 0 when no free chunk is large enough.
    ///
    /// The request is rounded up to a multiple of four. The first free chunk
    /// that holds it is taken: whole when it is at most 32 bytes larger than
    /// the request, else split in a used chunk of the rounded size and a free
    /// rest. Chunks are never merged again; `align` is not used.
    pub fn allocate(&mut self, size: usize, align: usize) -> (r: usize)
        requires
            old(self).wf(),
            size <= 0xffff_fffc,
        ensures
            final(self).region_off == old(self).region_off,
            final(self).region_size == old(self).region_size,
            match first_fit(old(self).mem@, old(self).base(), old(self).end(), 0, round4(size as int)) {
                None => r == 0 && final(self).mem@ == old(self).mem@,
                Some(l) => r == old(self).base() + l + 8 && final(self).mem@ == alloc_at(
                    old(self).mem@,
                    old(self).base() + l,
                    round4(size as int),
                ),
            },
            final(self).wf(),
            r != 0 ==> {
                &&& in_chain(final(self).mem@, final(self).base(), final(self).end(), 0, r - 8 - final(self).base())
                &&& is_used(flags_at(final(self).mem@, final(self).base(), r - 8 - final(self).base()))
                &&& size_at(final(self).mem@, final(self).base(), r - 8 - final(self).base()) >= size
            },
            final(self).mem@.len() == old(self).mem@.len(),
            r != 0 ==> {
                let t = r - 8 - old(self).base();
                &&& in_chain(old(self).mem@, old(self).base(), old(self).end(), 0, t)
                &&& !is_used(flags_at(old(self).mem@, old(self).base(), t))
                &&& size_at(old(self).mem@, old(self).base(), t) >= round4(size as int)
                &&& forall|c: int|
                    in_chain(old(self).mem@, old(self).base(), old(self).end(), 0, c) && c < t ==> is_used(
                        #[trigger] flags_at(old(self).mem@, old(self).base(), c),
                    ) || size_at(old(self).mem@, old(self).base(), c) < round4(size as int)
                &&& forall|i: int|
                    0 <= i < old(self).mem@.len() && (i < r - 8 || r + size_at(
                        old(self).mem@,
                        old(self).base(),
                        t,
                    ) <= i) ==> #[trigger] final(self).mem@[i] == old(self).mem@[i]
            },
            r == 0 ==> forall|c: int|
                in_chain(old(self).mem@, old(self).base(), old(self).end(), 0, c) ==> is_used(
                    #[trigger] flags_at(old(self).mem@, old(self).base(), c),
                ) || size_at(old(self).mem@, old(self).base(), c) < round4(size as int),
    {
        let ghost rs = round4(size as int);
        proof {
            lemma_round4(size);
            lemma_round4_bounds(size as int);
            lemma_first_fit_first(old(self).mem@, old(self).base(), old(self).end(), 0, rs);
            if first_fit(old(self).mem@, old(self).base(), old(self).end(), 0, rs) is Some {
                let l = first_fit(old(self).mem@, old(self).base(), old(self).end(), 0, rs)->0;
                lemma_in_chain_bounds(old(self).mem@, old(self).base(), old(self).end(), 0, l);
                lemma_alloc_at(old(self).mem@, old(self).base() + l, rs);
            }
        }
        let rsize = if size & 3 > 0 {
            ((size >> 2) << 2) + 4
        } else {
            size
        };
        assert(rsize == rs);
        let size32 = rsize as u32;
        let base = self.region_off;
        let end = self.region_size;
        let ghost mem0 = self.mem@;
        let mut loff: u32 = 0;
        loop
            invariant_except_break
                chain_from(mem0, base as int, end as int, loff as int),
                first_fit(mem0, base as int, end as int, 0, rs) == first_fit(
                    mem0,
                    base as int,
                    end as int,
                    loff as int,
                    rs,
                ),
            invariant
                self.mem@ == mem0,
                mem0 == old(self).mem@,
                self.region_off == base,
                self.region_size == end,
                old(self).wf(),
                base == old(self).region_off,
                end == old(self).region_size,
                size32 == rs,
                rsize == rs,
                rs == round4(size as int),
                0 <= rs <= 0xffff_fffc,
            ensures
                self.mem@ == mem0,
                first_fit(mem0, base as int, end as int, 0, rs) == None::<int>,
            decreases end - loff,
        {
            let a = (base + loff) as usize;
            let chunkflags = read32(&self.mem, a);
            let chunksize = read32(&self.mem, a + 4);
            proof {
                lemma_first_fit_step(mem0, base as int, end as int, loff as int, rs);
                lemma_flag_bits(chunkflags);
            }
            if chunkflags & 1 == 0 && chunksize >= size32 {
                proof {
                    lemma_alloc_chain(mem0, base as int, end as int, 0, loff as int, rs);
                }
                self.take_chunk(a, rsize, chunkflags, chunksize);
                proof {
                    lemma_alloc_at(mem0, a as int, rs);
                    lemma_first_fit_first(mem0, base as int, end as int, 0, rs);
                }
                return (base + 8 + loff) as usize;
            }
            if chunkflags & 2 == 2 {
                break ;
            }
            loff = loff + 8 + chunksize;
        }
        0
    }

    /// Releases the chunk whose payload starts at `ptr`: its flags keep only
    /// the last flag. Chunks are not merged. `old_size` and `align` are not
    /// used.
    pub fn deallocate(&mut self, ptr: usize, old_size: usize, align: usize)
        requires
            8 <= ptr,
            ptr - 4 <= old(self).mem.len(),
        ensures
            final(self).mem@ == free_at(old(self).mem@, ptr - 8),
            final(self).mem@.len() == old(self).mem@.len(),
            word_at(final(self).mem@, ptr - 8) == word_at(old(self).mem@, ptr - 8) & 2,
            forall|i: int|
                0 <= i < old(self).mem@.len() && (i < ptr - 8 || ptr - 4 <= i)
                    ==> #[trigger] final(self).mem@[i] == old(self).mem@[i],
            final(self).region_off == old(self).region_off,
            final(self).region_size == old(self).region_size,
            old(self).wf() && old(self).base() + 8 <= ptr && in_chain(
                old(self).mem@,
                old(self).base(),
                old(self).end(),
                0,
                ptr - 8 - old(self).base(),
            ) ==> {
                &&& final(self).wf()
                &&& in_chain(
                    final(self).mem@,
                    final(self).base(),
                    final(self).end(),
                    0,
                    ptr - 8 - old(self).base(),
                )
                &&& !is_used(flags_at(final(self).mem@, final(self).base(), ptr - 8 - old(self).base()))
                &&& size_at(final(self).mem@, final(self).base(), ptr - 8 - old(self).base())
                    == size_at(old(self).mem@, old(self).base(), ptr - 8 - old(self).base())
                &&& chain_end(final(self).mem@, final(self).base(), final(self).end(), 0)
                    == chain_end(old(self).mem@, old(self).base(), old(self).end(), 0)
            },
    {
        let hdr = ptr - 8;
        let flags = read32(&self.mem, hdr);
        write32(&mut self.mem, hdr, flags & 2);
        proof {
            lemma_write_word(old(self).mem@, hdr as int, flags & 2);
            if old(self).wf() && old(self).base() + 8 <= ptr && in_chain(
                old(self).mem@,
                old(self).base(),
                old(self).end(),
                0,
                ptr - 8 - old(self).base(),
            ) {
                lemma_free_chain(
                    old(self).mem@,
                    old(self).base(),
                    old(self).end(),
                    0,
                    ptr - 8 - old(self).base(),
                );
            }
        }
    }

    /// Copies `size` bytes from `src` to `dst`, four at a time and then the
    /// remaining ones singly.
    fn memcpy(&mut self, dst: usize, src: usize, size: usize)
        requires
            dst + size <= old(self).mem.len(),
            src + size <= old(self).mem.len(),
            dst == src || dst + size <= src || src + size <= dst,
        ensures
            final(self).mem@ == copy_bytes(old(self).mem@, dst as int, src as int, size as int),
            final(self).region_off == old(self).region_off,
            final(self).region_size == old(self).region_size,
    {
        let chunks = size / 4;
        let slack = size - chunks * 4;
        let ghost m0 = self.mem@;
        assert(chunks * 4 <= size);
        assert(self.mem@ =~= copy_bytes(m0, dst as int, src as int, 0));
        for q in 0..chunks
            invariant
                self.mem@ == copy_bytes(m0, dst as int, src as int, 4 * q),
                self.region_off == old(self).region_off,
                self.region_size == old(self).region_size,
                m0 == old(self).mem@,
                self.mem.len() == m0.len(),
                chunks * 4 <= size,
                dst + size <= m0.len(),
                src + size <= m0.len(),
                dst == src || dst + size <= src || src + size <= dst,
        {
            assert(4 * q + 4 <= 4 * chunks);
            let ghost m = self.mem@;
            let w = read32(&self.mem, src + q * 4);
            write32(&mut self.mem, dst + q * 4, w);
            proof {
                let d = dst + 4 * q;
                let s = src + 4 * q;
                lemma_copy_word(m, d, s);
                lemma_write_word(m, d, w);
                assert(self.mem@ =~= copy_bytes(m0, dst as int, src as int, 4 * (q + 1)));
            }
        }
        let off = chunks * 4;
        for q in 0..slack
            invariant
                self.mem@ == copy_bytes(m0, dst as int, src as int, off + q),
                self.region_off == old(self).region_off,
                self.region_size == old(self).region_size,
                m0 == old(self).mem@,
                self.mem.len() == m0.len(),
                off + slack == size,
                dst + size <= m0.len(),
                src + size <= m0.len(),
                dst == src || dst + size <= src || src + size <= dst,
        {
            let b = self.mem[src + off + q];
            self.mem.set(dst + off + q, b);
            assert(self.mem@ =~= copy_bytes(m0, dst as int, src as int, off + q + 1));
        }
    }

    /// Moves the allocation whose payload starts at `ptr` to a chunk of at
    /// least `size` bytes: releases it, takes a chunk for `size` bytes as
    /// `allocate` does and copies the smaller of `old_size` and `size` bytes
    /// over. Returns the new payload address, or 0 when no chunk is large
    /// enough; the old chunk stays released then.
    pub fn reallocate(&mut self, ptr: usize, old_size: usize, size: usize, align: usize) -> (r: usize)
        requires
            old(self).wf(),
            size <= 0xffff_fffc,
            old(self).base() + 8 <= ptr,
            in_chain(old(self).mem@, old(self).base(), old(self).end(), 0, ptr - 8 - old(self).base()),
            old_size <= size_at(old(self).mem@, old(self).base(), ptr - 8 - old(self).base()),
        ensures
            final(self).region_off == old(self).region_off,
            final(self).region_size == old(self).region_size,
            ({
                let freed = free_at(old(self).mem@, ptr - 8);
                let n = if size > old_size { old_size } else { size };
                match first_fit(freed, old(self).base(), old(self).end(), 0, round4(size as int)) {
                    None => r == 0 && final(self).mem@ == freed,
                    Some(l) => r == old(self).base() + l + 8 && final(self).mem@ == copy_bytes(
                        alloc_at(freed, old(self).base() + l, round4(size as int)),
                        r as int,
                        ptr as int,
                        n as int,
                    ),
                }
            }),
            final(self).wf(),
            r != 0 ==> forall|i: int|
                0 <= i < (if size > old_size { old_size } else { size }) ==> #[trigger] final(self).mem@[r
                    + i] == old(self).mem@[ptr + i],
    {
        let ghost m0 = self.mem@;
        let ghost t = ptr - 8 - self.region_off;
        let ghost n = if size > old_size { old_size } else { size };
        proof {
            lemma_in_chain_bounds(m0, self.base(), self.end(), 0, t);
        }
        self.deallocate(ptr, old_size, align);
        let nptr = self.allocate(size, align);
        proof {
            let freed = free_at(m0, ptr - 8);
            if first_fit(freed, self.base(), self.end(), 0, round4(size as int)) is Some {
                lemma_first_fit_in_chain(freed, self.base(), self.end(), 0, round4(size as int));
                lemma_in_chain_bounds(
                    freed,
                    self.base(),
                    self.end(),
                    0,
                    first_fit(freed, self.base(), self.end(), 0, round4(size as int))->0,
                );
            }
        }
        if nptr == 0 {
            0
        } else {
            let ghost rs = round4(size as int);
            let ghost freed = free_at(m0, ptr - 8);
            let ghost l = first_fit(freed, self.base(), self.end(), 0, rs)->0;
            let ghost m1 = self.mem@;
            proof {
                lemma_realloc(m0, self.base(), self.end(), t, rs, n as int);
                lemma_alloc_chain(freed, self.base(), self.end(), 0, l, rs);
            }
            if size > old_size {
                self.memcpy(nptr, ptr, old_size);
            } else {
                self.memcpy(nptr, ptr, size);
            }
            proof {
                lemma_payload_frame(
                    m1,
                    self.mem@,
                    self.base(),
                    self.end(),
                    0,
                    l,
                    nptr as int,
                    nptr + n,
                );
                assert forall|i: int| 0 <= i < n implies #[trigger] self.mem@[nptr + i]
                    == m0[ptr + i] by {
                    assert(self.mem@[nptr + i] == m1[ptr + i]);
                    assert(m1[self.base() + t + 8 + i] == m0[self.base() + t + 8 + i]);
                }
            }
            nptr
        }
    }
}

/// With the region and every chunk size a multiple of four, the chunk that
/// a request of a multiple of four bytes takes starts at a multiple of four,
/// and all chunk sizes stay multiples of four.
proof fn lemma_alloc_aligned(mem: Seq<u8>, base: int, end: int, loff: int, l: int, rsize: int)
    requires
        0 <= base,
        base + end <= mem.len(),
        0 <= rsize,
        rsize % 4 == 0,
        loff % 4 == 0,
        chain_from(mem, base, end, loff),
        sizes_aligned(mem, base, end, loff),
        first_fit(mem, base, end, loff, rsize) == Some(l),
    ensures
        l % 4 == 0,
        sizes_aligned(alloc_at(mem, base + l, rsize), base, end, loff),
    decreases end - loff,
{
    let m2 = alloc_at(mem, base + l, rsize);
    let f = flags_at(mem, base, loff);
    let s = size_at(mem, base, loff);
    lemma_flag_bits(f);
    lemma_alloc_chain(mem, base, end, loff, l, rsize);
    if !is_used(f) && s >= rsize {
        let a = base + l;
        lemma_alloc_at(mem, a, rsize);
        let n = l + 8 + s;
        if !is_last(f) {
            lemma_chain_frame(mem, m2, base, end, n, rsize, 0);
        }
        if s > rsize + 32 {
            let mid = l + 8 + rsize;
            assert(size_at(m2, base, l) == rsize);
            assert(next_off(m2, base, l) == mid);
            assert(flags_at(m2, base, mid) == f & 2);
            assert(size_at(m2, base, mid) == s - rsize - 8);
            assert(next_off(m2, base, mid) == n);
            assert(sizes_aligned(m2, base, end, mid));
        } else {
            assert(flags_at(m2, base, l) == (f & 2) | 1);
            assert(size_at(m2, base, l) == s);
        }
    } else {
        let n = next_off(mem, base, loff);
        lemma_alloc_aligned(mem, base, end, n, l, rsize);
        lemma_alloc_chain(mem, base, end, n, l, rsize);
        lemma_alloc_at(mem, base + l, rsize);
        let a = base + loff;
        lemma_header_eq(m2, mem, a);
        assert(next_off(m2, base, loff) == n);
    }
}

/// Law: in a heap whose region offset and chunk sizes are multiples of four,
/// every address that `allocate` hands out is a multiple of four, and the
/// chunk sizes stay multiples of four.
pub proof fn lemma_allocate_aligned(h: Heap, size: usize)
    requires
        h.wf(),
        size <= 0xffff_fffc,
        h.base() % 4 == 0,
        sizes_aligned(h.mem@, h.base(), h.end(), 0),
    ensures
        first_fit(h.mem@, h.base(), h.end(), 0, round4(size as int)) matches Some(l) ==> {
            &&& (h.base() + l + 8) % 4 == 0
            &&& sizes_aligned(alloc_at(h.mem@, h.base() + l, round4(size as int)), h.base(), h.end(), 0)
        },
{
    let rs = round4(size as int);
    if first_fit(h.mem@, h.base(), h.end(), 0, rs) is Some {
        let l = first_fit(h.mem@, h.base(), h.end(), 0, rs)->0;
        lemma_alloc_aligned(h.mem@, h.base(), h.end(), 0, l, rs);
    }
}

/// Law: taking a chunk keeps the chunks tiling the same bytes. The chunk
/// taken either becomes a used chunk of the rounded request followed by a
/// free chunk that holds the rest and keeps the last flag (when it was more
/// than 32 bytes larger than the request), or becomes used whole, keeping its
/// size and last flag; every other header stays as it was.
pub proof fn lemma_allocate_tiles(h: Heap, size: usize)
    requires
        h.wf(),
        size <= 0xffff_fffc,
    ensures
        first_fit(h.mem@, h.base(), h.end(), 0, round4(size as int)) matches Some(l) ==> {
            let rs = round4(size as int);
            let m2 = alloc_at(h.mem@, h.base() + l, rs);
            let f = flags_at(h.mem@, h.base(), l);
            let s = size_at(h.mem@, h.base(), l);
            &&& chain_end(m2, h.base(), h.end(), 0) == chain_end(h.mem@, h.base(), h.end(), 0)
            &&& s > rs + 32 ==> {
                &&& flags_at(m2, h.base(), l) == 1
                &&& size_at(m2, h.base(), l) == rs
                &&& flags_at(m2, h.base(), l + 8 + rs) == f & 2
                &&& size_at(m2, h.base(), l + 8 + rs) == s - rs - 8
            }
            &&& s <= rs + 32 ==> {
                &&& flags_at(m2, h.base(), l) == (f & 2) | 1
                &&& size_at(m2, h.base(), l) == s
            }
            &&& forall|i: int|
                0 <= i < h.mem@.len() && (i < h.base() + l || h.base() + l + 8 + s <= i)
                    ==> #[trigger] m2[i] == h.mem@[i]
        },
{
    let rs = round4(size as int);
    if first_fit(h.mem@, h.base(), h.end(), 0, rs) is Some {
        let l = first_fit(h.mem@, h.base(), h.end(), 0, rs)->0;
        lemma_alloc_chain(h.mem@, h.base(), h.end(), 0, l, rs);
        lemma_first_fit_in_chain(h.mem@, h.base(), h.end(), 0, rs);
        lemma_in_chain_bounds(h.mem@, h.base(), h.end(), 0, l);
        lemma_alloc_at(h.mem@, h.base() + l, rs);
    }
}

/// Law: releasing the chunk whose header is at `h` keeps only the last flag
/// of its flags word and changes no other byte of memory.
pub proof fn lemma_free_only_flags(mem: Seq<u8>, h: int)
    requires
        0 <= h,
        h + 4 <= mem.len(),
    ensures
        free_at(mem, h).len() == mem.len(),
        word_at(free_at(mem, h), h) == word_at(mem, h) & 2,
        forall|i: int| 0 <= i < mem.len() && (i < h || h + 4 <= i) ==> #[trigger] free_at(mem, h)[i] == mem[i],
{
    lemma_write_word(mem, h, word_at(mem, h) & 2);
}

/// Law: releasing a chunk of the chain keeps every chunk size, so a heap
/// whose chunk sizes are multiples of four keeps them so.
pub proof fn lemma_deallocate_aligned(h: Heap, ptr: usize)
    requires
        h.wf(),
        h.base() + 8 <= ptr,
        in_chain(h.mem@, h.base(), h.end(), 0, ptr - 8 - h.base()),
        sizes_aligned(h.mem@, h.base(), h.end(), 0),
    ensures
        sizes_aligned(free_at(h.mem@, ptr - 8), h.base(), h.end(), 0),
{
    lemma_free_chain(h.mem@, h.base(), h.end(), 0, ptr - 8 - h.base());
}

/// Law: releasing the chunk that `allocate` has just handed out and asking
/// for the same size again gives back the same address.
pub proof fn lemma_free_then_reuse(h: Heap, size: usize)
    requires
        h.wf(),
        size <= 0xffff_fffc,
    ensures
        first_fit(h.mem@, h.base(), h.end(), 0, round4(size as int)) matches Some(l) ==> first_fit(
            free_at(alloc_at(h.mem@, h.base() + l, round4(size as int)), h.base() + l),
            h.base(),
            h.end(),
            0,
            round4(size as int),
        ) == Some(l),
{
    let rs = round4(size as int);
    if first_fit(h.mem@, h.base(), h.end(), 0, rs) is Some {
        let l = first_fit(h.mem@, h.base(), h.end(), 0, rs)->0;
        lemma_reuse(h.mem@, h.base(), h.end(), 0, l, rs);
    }
}

/// Law: taking a chunk for a request leaves the payload of every chunk that
/// was in use before as it was.
pub proof fn lemma_allocate_keeps_used(h: Heap, size: usize, c: int, i: int)
    requires
        h.wf(),
        size <= 0xffff_fffc,
        in_chain(h.mem@, h.base(), h.end(), 0, c),
        is_used(flags_at(h.mem@, h.base(), c)),
        h.base() + c + 8 <= i < h.base() + next_off(h.mem@, h.base(), c),
    ensures
        first_fit(h.mem@, h.base(), h.end(), 0, round4(size as int)) matches Some(l) ==> alloc_at(
            h.mem@,
            h.base() + l,
            round4(size as int),
        )[i] == h.mem@[i],
{
    let rs = round4(size as int);
    let mem = h.mem@;
    if first_fit(mem, h.base(), h.end(), 0, rs) is Some {
        let l = first_fit(mem, h.base(), h.end(), 0, rs)->0;
        lemma_alloc_chain(mem, h.base(), h.end(), 0, l, rs);
        lemma_first_fit_in_chain(mem, h.base(), h.end(), 0, rs);
        lemma_in_chain_bounds(mem, h.base(), h.end(), 0, c);
        lemma_alloc_at(mem, h.base() + l, rs);
        if l < c {
            lemma_in_chain_disjoint(mem, h.base(), h.end(), 0, l, c);
        } else if c < l {
            lemma_in_chain_disjoint(mem, h.base(), h.end(), 0, c, l);
        }
    }
}

} // verus!
