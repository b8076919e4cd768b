//! A small key-value store. Integer keys are looked up; string keys are
//! stored but never match a lookup. The whole store can be written out as
//! bytes and read back.
use vstd::prelude::*;
use crate::rc::Rc;
use crate::vec::Vec;

verus! {

pub struct LightString {
    chars: Vec<u8>,
}

pub enum MemoryKey {
    Integer(u32),
    String(Rc<LightString>),
}

pub enum MemoryValue {
    Integer(u32),
    String(Rc<LightString>),
    Segment(Rc<FastMemorySegment>),
    Nothing,
}

impl Clone for MemoryKey {
    fn clone(&self) -> (r: Self)
        ensures
            r == *self,
    {
        match self {
            MemoryKey::Integer(v) => MemoryKey::Integer(*v),
            MemoryKey::String(s) => MemoryKey::String(s.clone()),
        }
    }
}

impl Clone for MemoryValue {
    fn clone(&self) -> (r: Self)
        ensures
            r == *self,
    {
        match self {
            MemoryValue::Integer(v) => MemoryValue::Integer(*v),
            MemoryValue::String(s) => MemoryValue::String(s.clone()),
            MemoryValue::Segment(s) => MemoryValue::Segment(s.clone()),
            MemoryValue::Nothing => MemoryValue::Nothing,
        }
    }
}

impl MemoryValue {
    /// The integer held, or `d` when the value is not an integer.
    pub fn unwrap_integer_or(&self, d: u32) -> (r: u32)
        ensures
            r == (match *self {
                MemoryValue::Integer(v) => v,
                _ => d,
            }),
    {
        match self {
            MemoryValue::Integer(v) => *v,
            _ => d,
        }
    }
}

/// A stored key matches a probe when both are integers and they are equal.
pub open spec fn key_matches(stored: MemoryKey, probe: MemoryKey) -> bool {
    match (stored, probe) {
        (MemoryKey::Integer(a), MemoryKey::Integer(b)) => a == b,
        _ => false,
    }
}

/// The first index, from `q` on, whose key matches `k`, or -1.
pub open spec fn find_from(items: Seq<(MemoryKey, MemoryValue)>, k: MemoryKey, q: int) -> int
    decreases items.len() - q,
{
    if q < 0 || q >= items.len() {
        -1
    } else if key_matches(items[q].0, k) {
        q
    } else {
        find_from(items, k, q + 1)
    }
}

/// The value stored under `k`.
pub open spec fn lookup(items: Seq<(MemoryKey, MemoryValue)>, k: MemoryKey) -> Option<MemoryValue> {
    let i = find_from(items, k, 0);
    if i < 0 {
        None
    } else {
        Some(items[i].1)
    }
}

/// The entries after `k` is set to `v`: the first entry whose key matches
/// is replaced, else the pair is appended.
pub open spec fn set_entries(items: Seq<(MemoryKey, MemoryValue)>, k: MemoryKey, v: MemoryValue) -> Seq<
    (MemoryKey, MemoryValue),
> {
    let i = find_from(items, k, 0);
    if i < 0 {
        items.push((k, v))
    } else {
        items.update(i, (k, v))
    }
}

pub struct FastMemorySegment {
    items: std::vec::Vec<(MemoryKey, MemoryValue)>,
}

impl View for FastMemorySegment {
    type V = Seq<(MemoryKey, MemoryValue)>;

    closed spec fn view(&self) -> Seq<(MemoryKey, MemoryValue)> {
        self.items@
    }
}

impl MemoryKey {
    fn type_as_integer(&self) -> (r: i8)
        ensures
            r == (if self is Integer {
                0i8
            } else {
                1i8
            }),
    {
        match self {
            MemoryKey::Integer(_) => 0i8,
            MemoryKey::String(_) => 1i8,
        }
    }

    fn equal_to(&self, k: &MemoryKey) -> (r: bool)
        ensures
            r == key_matches(*self, *k),
    {
        match self {
            MemoryKey::Integer(v0) => match k {
                MemoryKey::Integer(v1) => *v0 == *v1,
                MemoryKey::String(_) => false,
            },
            _ => false,
        }
    }
}

proof fn lemma_find_range(items: Seq<(MemoryKey, MemoryValue)>, k: MemoryKey, q: int)
    ensures
        find_from(items, k, q) == -1 || (q <= find_from(items, k, q) < items.len() && key_matches(
            items[find_from(items, k, q)].0,
            k,
        )),
        forall|j: int|
            0 <= q <= j < find_from(items, k, q) ==> !key_matches(#[trigger] items[j].0, k),
    decreases items.len() - q,
{
    if 0 <= q < items.len() && !key_matches(items[q].0, k) {
        lemma_find_range(items, k, q + 1);
        assert forall|j: int| q <= j < find_from(items, k, q) implies !key_matches(
            #[trigger] items[j].0,
            k,
        ) by {
            if j > q {
                assert(q + 1 <= j < find_from(items, k, q + 1));
            }
        }
    }
}

impl FastMemorySegment {
    /// An empty store.
    pub fn new() -> (r: FastMemorySegment)
        ensures
            r@ == Seq::<(MemoryKey, MemoryValue)>::empty(),
    {
        FastMemorySegment { items: std::vec::Vec::new() }
    }

    fn index_of_key(&self, k: &MemoryKey) -> (r: isize)
        requires
            self@.len() <= isize::MAX,
        ensures
            r == find_from(self@, *k, 0),
    {
        let n = self.items.len();
        let mut q: usize = 0;
        while q < n
            invariant
                n == self@.len(),
                n <= isize::MAX,
                q <= n,
                find_from(self@, *k, 0) == find_from(self@, *k, q as int),
            decreases n - q,
        {
            if self.items[q].0.equal_to(k) {
                return q as isize;
            }
            q = q + 1;
        }
        -1
    }

    /// Stores `v` under `k`: replaces the first entry whose key matches `k`,
    /// else appends the pair.
    pub fn set(&mut self, k: MemoryKey, v: MemoryValue)
        requires
            old(self)@.len() < isize::MAX,
        ensures
            final(self)@ == set_entries(old(self)@, k, v),
    {
        let ndx = self.index_of_key(&k);
        proof {
            lemma_find_range(self@, k, 0);
        }
        if ndx < 0 {
            self.items.push((k, v));
        } else {
            self.items.set(ndx as usize, (k, v));
        }
    }

    /// A copy of the value stored under `k`, if any.
    pub fn get(&mut self, k: MemoryKey) -> (r: Option<MemoryValue>)
        requires
            old(self)@.len() <= isize::MAX,
        ensures
            r == lookup(old(self)@, k),
            final(self)@ == old(self)@,
    {
        let ndx = self.index_of_key(&k);
        proof {
            lemma_find_range(self@, k, 0);
        }
        if ndx < 0 {
            None
        } else {
            Some(self.items[ndx as usize].1.clone())
        }
    }

    /// The entire store written out as bytes: ten bytes per entry, as
    /// `encode` gives them.
    pub fn dump(&self) -> (r: Vec<u8>)
        requires
            self@.len() * 10 <= usize::MAX,
        ensures
            r@ == encode(self@),
    {
        let n = self.items.len();
        let mut out: Vec<u8> = Vec::with_capacity(n * 10);
        for q in 0..n
            invariant
                n == self@.len(),
                n * 10 <= usize::MAX,
                out.cap() == n * 10,
                out@ == encode(self@.subrange(0, q as int)),
                out@.len() == q * 10,
        {
            push_entry(&mut out, &self.items[q]);
            proof {
                assert(self@.subrange(0, q + 1).drop_last() =~= self@.subrange(0, q as int));
            }
        }
        assert(self@.subrange(0, n as int) =~= self@);
        out
    }

    /// Replaces the entries with those that `data` holds, read ten bytes at a
    /// time as `decode` reads them; bytes past the last whole entry are not
    /// read.
    pub fn load(&mut self, data: Vec<u8>)
        ensures
            final(self)@ == decode(data@),
    {
        let len = data.len();
        let n = len / 10;
        let mut items: std::vec::Vec<(MemoryKey, MemoryValue)> = std::vec::Vec::new();
        for q in 0..n
            invariant
                len == data@.len(),
                n == data@.len() / 10,
                items@ =~= decode(data@).subrange(0, q as int),
        {
            let e = decode_entry(&data, q * 10);
            items.push(e);
        }
        assert(items@ =~= decode(data@));
        self.items = items;
    }
}

/// The four little-endian bytes of `v`.
pub open spec fn word_bytes(v: u32) -> Seq<u8> {
    seq![(v % 256) as u8, ((v / 256) % 256) as u8, ((v / 65536) % 256) as u8, (v / 16777216) as u8]
}

/// The little-endian word of the four bytes of `d` from `i` on.
pub open spec fn bytes_word(d: Seq<u8>, i: int) -> u32 {
    (d[i] + 256 * d[i + 1] + 65536 * d[i + 2] + 16777216 * d[i + 3]) as u32
}

/// The tag and the number that stand for a key.
pub open spec fn key_code(k: MemoryKey) -> (u8, u32) {
    match k {
        MemoryKey::Integer(x) => (0u8, x),
        MemoryKey::String(_) => (1u8, 0u32),
    }
}

/// The tag and the number that stand for a value.
pub open spec fn value_code(v: MemoryValue) -> (u8, u32) {
    match v {
        MemoryValue::Integer(x) => (0u8, x),
        MemoryValue::String(_) => (1u8, 0u32),
        MemoryValue::Segment(_) => (2u8, 0u32),
        MemoryValue::Nothing => (3u8, 0u32),
    }
}

/// The ten bytes of an entry: the key's tag and number, then the value's.
pub open spec fn encode_entry(e: (MemoryKey, MemoryValue)) -> Seq<u8> {
    seq![key_code(e.0).0] + word_bytes(key_code(e.0).1) + seq![value_code(e.1).0] + word_bytes(
        value_code(e.1).1,
    )
}

/// The bytes of all entries, in order.
pub open spec fn encode(items: Seq<(MemoryKey, MemoryValue)>) -> Seq<u8>
    decreases items.len(),
{
    if items.len() == 0 {
        Seq::empty()
    } else {
        encode(items.drop_last()) + encode_entry(items.last())
    }
}

/// The entry that the ten bytes of `d` from `i` on stand for; an unknown
/// key tag reads as a string key and an unknown value tag as no value.
pub open spec fn decode_entry_at(d: Seq<u8>, i: int) -> (MemoryKey, MemoryValue) {
    let k = if d[i] == 0 {
        MemoryKey::Integer(bytes_word(d, i + 1))
    } else {
        MemoryKey::String(crate::rc::handle())
    };
    let v = if d[i + 5] == 0 {
        MemoryValue::Integer(bytes_word(d, i + 6))
    } else if d[i + 5] == 1 {
        MemoryValue::String(crate::rc::handle())
    } else if d[i + 5] == 2 {
        MemoryValue::Segment(crate::rc::handle())
    } else {
        MemoryValue::Nothing
    };
    (k, v)
}

/// The entries of every whole ten bytes of `d`.
pub open spec fn decode(d: Seq<u8>) -> Seq<(MemoryKey, MemoryValue)> {
    Seq::new((d.len() / 10) as nat, |i: int| decode_entry_at(d, 10 * i))
}

/// Appends the ten bytes of `e`.
fn push_entry(out: &mut Vec<u8>, e: &(MemoryKey, MemoryValue))
    requires
        old(out)@.len() + 10 <= old(out).cap(),
    ensures
        final(out)@ == old(out)@ + encode_entry(*e),
        final(out).cap() == old(out).cap(),
{
    let (kt, kw): (u8, u32) = match &e.0 {
        MemoryKey::Integer(x) => (0, *x),
        MemoryKey::String(_) => (1, 0),
    };
    let (vt, vw): (u8, u32) = match &e.1 {
        MemoryValue::Integer(x) => (0, *x),
        MemoryValue::String(_) => (1, 0),
        MemoryValue::Segment(_) => (2, 0),
        MemoryValue::Nothing => (3, 0),
    };
    let ghost o = out@;
    out.push(kt);
    push_word(out, kw);
    out.push(vt);
    push_word(out, vw);
    assert(out@ =~= o + encode_entry(*e));
}

/// Appends the four little-endian bytes of `v`.
fn push_word(out: &mut Vec<u8>, v: u32)
    requires
        old(out)@.len() + 4 <= old(out).cap(),
    ensures
        final(out)@ == old(out)@ + word_bytes(v),
        final(out).cap() == old(out).cap(),
{
    let ghost o = out@;
    out.push((v % 256) as u8);
    out.push(((v / 256) % 256) as u8);
    out.push(((v / 65536) % 256) as u8);
    out.push((v / 16777216) as u8);
    assert(out@ =~= o + word_bytes(v));
}

/// Reads the entry whose ten bytes start at `i`.
fn decode_entry(data: &Vec<u8>, i: usize) -> (r: (MemoryKey, MemoryValue))
    requires
        i + 10 <= data@.len(),
    ensures
        r == decode_entry_at(data@, i as int),
{
    let len = data.len();
    assert(i + 10 <= len);
    let k = if *data.index(i) == 0 {
        MemoryKey::Integer(read_word(data, i + 1))
    } else {
        MemoryKey::String(Rc::new())
    };
    let vt = *data.index(i + 5);
    let v = if vt == 0 {
        MemoryValue::Integer(read_word(data, i + 6))
    } else if vt == 1 {
        MemoryValue::String(Rc::new())
    } else if vt == 2 {
        MemoryValue::Segment(Rc::new())
    } else {
        MemoryValue::Nothing
    };
    (k, v)
}

/// Reads the little-endian word whose four bytes start at `i`.
fn read_word(data: &Vec<u8>, i: usize) -> (r: u32)
    requires
        i + 4 <= data@.len(),
    ensures
        r == bytes_word(data@, i as int),
{
    let len = data.len();
    assert(i + 4 <= len);
    *data.index(i) as u32 + (*data.index(i + 1) as u32) * 256 + (*data.index(i + 2) as u32) * 65536
        + (*data.index(i + 3) as u32) * 16777216
}

/// The bytes of a word read back give the word.
proof fn lemma_word_round_trip(v: u32, d: Seq<u8>, i: int)
    requires
        0 <= i,
        i + 4 <= d.len(),
        d.subrange(i, i + 4) == word_bytes(v),
    ensures
        bytes_word(d, i) == v,
{
    assert(d[i] == word_bytes(v)[0] && d[i + 1] == word_bytes(v)[1] && d[i + 2] == word_bytes(v)[2]
        && d[i + 3] == word_bytes(v)[3]);
    assert((v % 256) + 256 * ((v / 256) % 256) + 65536 * ((v / 65536) % 256) + 16777216 * (v
        / 16777216) == v) by (bit_vector);
    assert(v / 16777216 < 256) by (bit_vector);
}

/// The entry at position `q` occupies bytes `10 * q` to `10 * q + 10` of the
/// encoding.
proof fn lemma_encode_layout(items: Seq<(MemoryKey, MemoryValue)>)
    ensures
        encode(items).len() == 10 * items.len(),
        forall|q: int|
            0 <= q < items.len() ==> encode(items).subrange(10 * q, 10 * q + 10) == encode_entry(
                #[trigger] items[q],
            ),
    decreases items.len(),
{
    if items.len() > 0 {
        let init = items.drop_last();
        lemma_encode_layout(init);
        let e = encode(items);
        assert forall|q: int| 0 <= q < items.len() implies e.subrange(10 * q, 10 * q + 10)
            == encode_entry(#[trigger] items[q]) by {
            if q < init.len() {
                assert(e.subrange(10 * q, 10 * q + 10) =~= encode(init).subrange(10 * q, 10 * q + 10));
                assert(init[q] == items[q]);
            } else {
                assert(e.subrange(10 * q, 10 * q + 10) =~= encode_entry(items.last()));
            }
        }
    }
}

/// Reading back the bytes of an entry gives the entry.
proof fn lemma_entry_round_trip(e: (MemoryKey, MemoryValue), d: Seq<u8>, i: int)
    requires
        0 <= i,
        i + 10 <= d.len(),
        d.subrange(i, i + 10) == encode_entry(e),
    ensures
        decode_entry_at(d, i) == e,
{
    let b = encode_entry(e);
    assert(d[i] == b[0]);
    assert(d[i + 5] == b[5]);
    assert(d.subrange(i + 1, i + 5) =~= b.subrange(1, 5));
    assert(d.subrange(i + 6, i + 10) =~= b.subrange(6, 10));
    assert(b.subrange(1, 5) =~= word_bytes(key_code(e.0).1));
    assert(b.subrange(6, 10) =~= word_bytes(value_code(e.1).1));
    lemma_word_round_trip(key_code(e.0).1, d, i + 1);
    lemma_word_round_trip(value_code(e.1).1, d, i + 6);
    match e.0 {
        MemoryKey::String(r) => crate::rc::lemma_rc_all_equal(r, crate::rc::handle()),
        _ => {},
    }
    match e.1 {
        MemoryValue::String(r) => crate::rc::lemma_rc_all_equal(r, crate::rc::handle()),
        MemoryValue::Segment(r) => crate::rc::lemma_rc_all_equal(r, crate::rc::handle()),
        _ => {},
    }
}

/// Law: loading what `dump` wrote gives back the same entries, so every
/// lookup is as it was; in particular two stores with the same dump hold the
/// same entries.
pub proof fn lemma_load_dump(items: Seq<(MemoryKey, MemoryValue)>, other: Seq<(MemoryKey, MemoryValue)>)
    ensures
        decode(encode(items)) == items,
        forall|k: MemoryKey| lookup(decode(encode(items)), k) == #[trigger] lookup(items, k),
        encode(items) == encode(other) ==> items == other,
{
    lemma_encode_layout(items);
    let d = encode(items);
    assert forall|q: int| 0 <= q < items.len() implies #[trigger] decode(d)[q] == items[q] by {
        lemma_entry_round_trip(items[q], d, 10 * q);
    }
    assert(decode(d) =~= items);
    if encode(items) == encode(other) {
        lemma_encode_layout(other);
        assert forall|q: int| 0 <= q < other.len() implies #[trigger] decode(d)[q] == other[q] by {
            lemma_entry_round_trip(other[q], d, 10 * q);
        }
        assert(decode(d) =~= other);
    }
}

/// `find_from` is -1 exactly when no key from `q` on matches.
proof fn lemma_find_none(items: Seq<(MemoryKey, MemoryValue)>, k: MemoryKey, q: int)
    requires
        0 <= q,
    ensures
        find_from(items, k, q) == -1 <==> forall|j: int|
            q <= j < items.len() ==> !key_matches(#[trigger] items[j].0, k),
    decreases items.len() - q,
{
    if q < items.len() {
        lemma_find_none(items, k, q + 1);
        if find_from(items, k, q) == -1 {
            assert forall|j: int| q <= j < items.len() implies !key_matches(
                #[trigger] items[j].0,
                k,
            ) by {
                if j > q {
                    assert(find_from(items, k, q + 1) == -1);
                }
            }
        }
    }
}

/// `find_from` gives the first matching index.
proof fn lemma_find_first(items: Seq<(MemoryKey, MemoryValue)>, k: MemoryKey, q: int, i: int)
    requires
        0 <= q <= i < items.len(),
        key_matches(items[i].0, k),
        forall|j: int| q <= j < i ==> !key_matches(#[trigger] items[j].0, k),
    ensures
        find_from(items, k, q) == i,
    decreases i - q,
{
    if q < i {
        lemma_find_first(items, k, q + 1, i);
    }
}

/// Two entry lists whose keys match `k` at the same places give the same
/// `find_from`.
proof fn lemma_find_same(
    s1: Seq<(MemoryKey, MemoryValue)>,
    s2: Seq<(MemoryKey, MemoryValue)>,
    k: MemoryKey,
    q: int,
)
    requires
        s1.len() <= s2.len(),
        forall|j: int| q <= j < s1.len() ==> key_matches(#[trigger] s1[j].0, k) == key_matches(s2[j].0, k),
        forall|j: int| s1.len() <= j < s2.len() ==> !key_matches(#[trigger] s2[j].0, k),
    ensures
        find_from(s1, k, q) == find_from(s2, k, q),
    decreases s2.len() - q,
{
    if 0 <= q < s2.len() {
        lemma_find_same(s1, s2, k, q + 1);
    }
}

/// Law: after an integer key `k` is set to `v`, looking `k` up gives `v`.
pub proof fn lemma_get_after_set(items: Seq<(MemoryKey, MemoryValue)>, k: MemoryKey, v: MemoryValue)
    requires
        k is Integer,
    ensures
        lookup(set_entries(items, k, v), k) == Some(v),
{
    let i = find_from(items, k, 0);
    let s2 = set_entries(items, k, v);
    lemma_find_range(items, k, 0);
    assert(key_matches(k, k));
    if i < 0 {
        lemma_find_none(items, k, 0);
        lemma_find_first(s2, k, 0, items.len() as int);
    } else {
        lemma_find_none(items, k, 0);
        assert forall|j: int| 0 <= j < i implies !key_matches(#[trigger] s2[j].0, k) by {
            assert(s2[j] == items[j]);
        }
        lemma_find_first(s2, k, 0, i);
    }
}

/// Law: setting a key leaves the lookup of every key that it does not match
/// as it was; in particular setting a string key changes no lookup.
pub proof fn lemma_set_other(
    items: Seq<(MemoryKey, MemoryValue)>,
    k: MemoryKey,
    v: MemoryValue,
    other: MemoryKey,
)
    requires
        !key_matches(k, other),
    ensures
        lookup(set_entries(items, k, v), other) == lookup(items, other),
{
    let i = find_from(items, k, 0);
    let s2 = set_entries(items, k, v);
    lemma_find_range(items, k, 0);
    if i >= 0 {
        assert(!key_matches(items[i].0, other));
    }
    lemma_find_same(items, s2, other, 0);
    let j = find_from(items, other, 0);
    lemma_find_range(items, other, 0);
}

/// No two entries have integer keys that match.
pub open spec fn int_keys_distinct(items: Seq<(MemoryKey, MemoryValue)>) -> bool {
    forall|i: int, j: int| 0 <= i < j < items.len() ==> !key_matches(#[trigger] items[i].0, #[trigger] items[j].0)
}

/// Law: setting a key keeps integer keys distinct, and adds an entry exactly
/// when no entry's key matched.
pub proof fn lemma_set_keeps_keys_distinct(items: Seq<(MemoryKey, MemoryValue)>, k: MemoryKey, v: MemoryValue)
    requires
        int_keys_distinct(items),
    ensures
        int_keys_distinct(set_entries(items, k, v)),
        set_entries(items, k, v).len() == items.len() + (if find_from(items, k, 0) < 0 {
            1int
        } else {
            0int
        }),
{
    let i = find_from(items, k, 0);
    let s2 = set_entries(items, k, v);
    lemma_find_range(items, k, 0);
    lemma_find_none(items, k, 0);
    if i >= 0 {
        assert(items[i].0 == k);
        assert forall|a: int, b: int| 0 <= a < b < s2.len() implies !key_matches(
            #[trigger] s2[a].0,
            #[trigger] s2[b].0,
        ) by {
            assert(s2[a].0 == items[a].0);
            assert(s2[b].0 == items[b].0);
        }
    } else {
        assert forall|a: int, b: int| 0 <= a < b < s2.len() implies !key_matches(
            #[trigger] s2[a].0,
            #[trigger] s2[b].0,
        ) by {
            if b < items.len() {
                assert(s2[a] == items[a] && s2[b] == items[b]);
            } else {
                assert(s2[a] == items[a]);
                assert(!key_matches(items[a].0, k));
            }
        }
    }
}

/// Law: a string key is never found.
pub proof fn lemma_string_key_not_found(items: Seq<(MemoryKey, MemoryValue)>, k: MemoryKey)
    requires
        k is String,
    ensures
        lookup(items, k) == None::<MemoryValue>,
{
    lemma_find_none(items, k, 0);
}

} // verus!
