//! A vector with a capacity fixed when it is made. It never grows: pushing
//! onto a full vector, popping from an empty one and reading past its length
//! are refused by the contracts.
use vstd::prelude::*;

verus! {

pub struct Vec<T> {
    items: std::vec::Vec<T>,
    capacity: usize,
}

impl<T> View for Vec<T> {
    type V = Seq<T>;

    closed spec fn view(&self) -> Seq<T> {
        self.items@
    }
}

impl<T> Vec<T> {
    /// The number of items the vector can hold.
    pub closed spec fn cap(&self) -> nat {
        self.capacity as nat
    }

    #[verifier::type_invariant]
    spec fn inv(&self) -> bool {
        self.items.len() <= self.capacity
    }

    /// Moves the items and the capacity out, leaving an empty vector of no
    /// capacity behind.
    fn into_parts(&mut self) -> (parts: (std::vec::Vec<T>, usize))
        ensures
            parts.0@ == old(self)@,
            parts.1 == old(self).cap(),
            parts.0.len() <= parts.1,
            final(self)@ == Seq::<T>::empty(),
            final(self).cap() == 0,
    {
        let mut tmp = Vec { items: std::vec::Vec::new(), capacity: 0 };
        std::mem::swap(self, &mut tmp);
        proof {
            use_type_invariant(&tmp);
        }
        let Vec { items, capacity } = tmp;
        (items, capacity)
    }

    /// An empty vector that can hold `count` items.
    pub fn with_capacity(count: usize) -> (v: Vec<T>)
        ensures
            v@ == Seq::<T>::empty(),
            v.cap() == count,
    {
        Vec { items: std::vec::Vec::new(), capacity: count }
    }

    /// The number of items held, which never exceeds the capacity.
    pub fn len(&self) -> (n: usize)
        ensures
            n == self@.len(),
            n <= self.cap(),
    {
        proof {
            use_type_invariant(self);
        }
        self.items.len()
    }

    /// Appends `v`; the vector must not be full.
    pub fn push(&mut self, v: T)
        requires
            old(self)@.len() < old(self).cap(),
        ensures
            final(self)@ == old(self)@.push(v),
            final(self).cap() == old(self).cap(),
    {
        let (mut items, capacity) = self.into_parts();
        items.push(v);
        *self = Vec { items, capacity };
    }

    /// Removes and returns the last item; the vector must not be empty.
    pub fn pop(&mut self) -> (r: T)
        requires
            old(self)@.len() > 0,
        ensures
            r == old(self)@.last(),
            final(self)@ == old(self)@.drop_last(),
            final(self).cap() == old(self).cap(),
    {
        let (mut items, capacity) = self.into_parts();
        let r = items.pop();
        *self = Vec { items, capacity };
        r.unwrap()
    }

    /// Places `v` at `ndx`, which must be below the capacity. A slot at or
    /// past the length holds no item, so writing there leaves the items as
    /// they are.
    pub fn stuff(&mut self, ndx: usize, v: T)
        requires
            ndx < old(self).cap(),
        ensures
            final(self)@ == (if ndx < old(self)@.len() {
                old(self)@.update(ndx as int, v)
            } else {
                old(self)@
            }),
            final(self).cap() == old(self).cap(),
    {
        let (mut items, capacity) = self.into_parts();
        if ndx < items.len() {
            items.set(ndx, v);
        }
        *self = Vec { items, capacity };
    }

    /// The place of the item at `ndx`, which must be below the length.
    pub fn index_mut(&mut self, ndx: usize) -> (element: &mut T)
        requires
            ndx < old(self)@.len(),
        ensures
            *element == old(self)@[ndx as int],
            final(self)@ == old(self)@.update(ndx as int, *final(element)),
            final(self).cap() == old(self).cap(),
        no_unwind
    {
        proof {
            use_type_invariant(&*self);
        }
        &mut self.items[ndx]
    }

    /// The item at `ndx`, which must be below the length.
    pub fn index(&self, ndx: usize) -> (r: &T)
        requires
            ndx < self@.len(),
        ensures
            *r == self@[ndx as int],
    {
        &self.items[ndx]
    }
}

impl<T: Clone> Vec<T> {
    /// A vector of the same capacity holding a clone of each item.
    pub fn clone(&self) -> (out: Vec<T>)
        ensures
            out.cap() == self.cap(),
            out@.len() == self@.len(),
            forall|i: int| 0 <= i < self@.len() ==> cloned::<T>(self@[i], #[trigger] out@[i]),
    {
        proof {
            use_type_invariant(self);
        }
        let mut out: Vec<T> = Vec::with_capacity(self.capacity);
        let n = self.len();
        for q in 0..n
            invariant
                n == self@.len(),
                n <= self.cap(),
                out.cap() == self.cap(),
                out@.len() == q,
                forall|i: int| 0 <= i < q ==> cloned::<T>(self@[i], #[trigger] out@[i]),
        {
            let c = self.index(q).clone();
            out.push(c);
        }
        out
    }
}

/// The items are in ascending order.
pub open spec fn sorted(s: Seq<u32>) -> bool {
    forall|i: int, j: int| 0 <= i <= j < s.len() ==> s[i] <= s[j]
}

/// Law: popping right after pushing `v` gives back `v` and the items as
/// they were.
pub proof fn lemma_pop_after_push<T>(s: Seq<T>, v: T)
    ensures
        s.push(v).last() == v,
        s.push(v).drop_last() == s,
{
    assert(s.push(v).drop_last() =~= s);
}

/// A call that changes a vector's items: `push` of a value, or `pop`.
pub enum VecOp<T> {
    Push(T),
    Pop,
}

/// The items after the calls `ops`, made in order on items `s`, as the
/// contracts of `push` and `pop` give them.
pub open spec fn apply_ops<T>(s: Seq<T>, ops: Seq<VecOp<T>>) -> Seq<T>
    decreases ops.len(),
{
    if ops.len() == 0 {
        s
    } else {
        let before = apply_ops(s, ops.drop_last());
        match ops.last() {
            VecOp::Push(v) => before.push(v),
            VecOp::Pop => before.drop_last(),
        }
    }
}

/// Every call of `ops` meets its `requires` on a vector of capacity `cap`
/// that starts empty: no push onto a full vector, no pop from an empty one.
pub open spec fn ops_allowed<T>(cap: nat, ops: Seq<VecOp<T>>) -> bool
    decreases ops.len(),
{
    if ops.len() == 0 {
        true
    } else {
        let len = apply_ops(Seq::<T>::empty(), ops.drop_last()).len();
        &&& ops_allowed(cap, ops.drop_last())
        &&& match ops.last() {
            VecOp::Push(_) => len < cap,
            VecOp::Pop => len > 0,
        }
    }
}

/// The number of pushes in `ops`.
pub open spec fn push_count<T>(ops: Seq<VecOp<T>>) -> int
    decreases ops.len(),
{
    if ops.len() == 0 {
        0
    } else {
        push_count(ops.drop_last()) + (if ops.last() is Push {
            1int
        } else {
            0int
        })
    }
}

/// The number of pops in `ops`.
pub open spec fn pop_count<T>(ops: Seq<VecOp<T>>) -> int
    decreases ops.len(),
{
    if ops.len() == 0 {
        0
    } else {
        pop_count(ops.drop_last()) + (if ops.last() is Pop {
            1int
        } else {
            0int
        })
    }
}

/// Law: a vector made by `with_capacity(cap)` and then changed by pushes and
/// pops that meet their `requires` holds as many items as there were pushes
/// less pops, and never more than `cap`.
pub proof fn lemma_len_after_ops<T>(cap: nat, ops: Seq<VecOp<T>>)
    requires
        ops_allowed(cap, ops),
    ensures
        apply_ops(Seq::<T>::empty(), ops).len() == push_count(ops) - pop_count(ops),
        apply_ops(Seq::<T>::empty(), ops).len() <= cap,
    decreases ops.len(),
{
    if ops.len() > 0 {
        lemma_len_after_ops(cap, ops.drop_last());
    }
}

/// The ascending order on `u32`.
pub open spec fn le_u32() -> spec_fn(u32, u32) -> bool {
    |a: u32, b: u32| a <= b
}

/// A sorted rearrangement of a sequence is the one that `sort_by` describes.
proof fn lemma_sorted_is_sort_by(s: Seq<u32>, t: Seq<u32>)
    requires
        sorted(t),
        t.to_multiset() == s.to_multiset(),
    ensures
        t == s.sort_by(le_u32()),
{
    let leq = le_u32();
    assert(vstd::relations::total_ordering(leq));
    s.lemma_sort_by_ensures(leq);
    vstd::seq_lib::lemma_sorted_unique(t, s.sort_by(leq), leq);
}

/// Swapping two items keeps the multiset of items.
proof fn lemma_swap_multiset<A>(s: Seq<A>, i: int, j: int)
    requires
        0 <= i < s.len(),
        0 <= j < s.len(),
        i != j,
    ensures
        s.update(i, s[j]).update(j, s[i]).to_multiset() == s.to_multiset(),
{
    broadcast use vstd::multiset::group_multiset_axioms;
    broadcast use vstd::seq_lib::group_to_multiset_ensures;

    let s1 = s.update(i, s[j]);
    vstd::seq_lib::to_multiset_update(s, i, s[j]);
    vstd::seq_lib::to_multiset_update(s1, j, s[i]);
    assert(s1[j] == s[j]);
    assert(s.to_multiset().count(s[i]) > 0);
    assert(s.to_multiset().count(s[j]) > 0);
    assert(s1.update(j, s[i]).to_multiset() =~= s.to_multiset());
}

impl Vec<u32> {
    /// Takes out the item at `ndx`, which must be below the length, and
    /// leaves 0 in its place.
    pub fn yank(&mut self, ndx: usize) -> (r: u32)
        requires
            ndx < old(self)@.len(),
        ensures
            r == old(self)@[ndx as int],
            final(self)@ == old(self)@.update(ndx as int, 0),
            final(self).cap() == old(self).cap(),
    {
        proof {
            use_type_invariant(&*self);
        }
        let r = *self.index(ndx);
        self.stuff(ndx, 0);
        r
    }

    /// Sorts the items in ascending order: each item in turn is inserted
    /// into the sorted items before it.
    pub fn sort(&mut self)
        ensures
            sorted(final(self)@),
            final(self)@.to_multiset() == old(self)@.to_multiset(),
            final(self)@ == old(self)@.sort_by(le_u32()),
            final(self).cap() == old(self).cap(),
    {
        proof {
            use_type_invariant(&*self);
        }
        let ghost orig = self@;
        let n = self.len();
        let mut q: usize = 1;
        while q < n
            invariant
                1 <= q,
                q <= n || n == 0,
                self@.len() == n,
                n <= self.cap(),
                self.cap() == old(self).cap(),
                orig == old(self)@,
                self@.to_multiset() == orig.to_multiset(),
                forall|i: int, j: int| 0 <= i <= j < q && j < n ==> self@[i] <= self@[j],
            decreases n - q,
        {
            let mut a = *self.index(q);
            let ghost g0 = self@;
            assert(self@.update(q as int, a) =~= self@);
            for w in 0..q
                invariant
                    1 <= q < n,
                    self@.len() == n,
                    n <= self.cap(),
                    self.cap() == old(self).cap(),
                    self@.update(q as int, a).to_multiset() == orig.to_multiset(),
                    forall|i: int| w <= i < n ==> self@[i] == g0[i],
                    forall|i: int, j: int| 0 <= i <= j < q ==> g0[i] <= g0[j],
                    forall|i: int, j: int| 0 <= i <= j < w ==> self@[i] <= self@[j],
                    forall|i: int| 0 <= i < w ==> self@[i] <= a,
                    forall|i: int, j: int| 0 <= i < w <= j < q ==> self@[i] <= self@[j],
            {
                let b = *self.index(w);
                assert(b == g0[w as int]);
                if a < b {
                    proof {
                        lemma_swap_multiset(self@.update(q as int, a), w as int, q as int);
                        assert(self@.update(q as int, a).update(w as int, a).update(q as int, b)
                            =~= self@.update(w as int, a).update(q as int, b));
                    }
                    self.stuff(w, a);
                    a = b;
                }
                assert forall|i: int, j: int| 0 <= i < w + 1 <= j < q implies self@[i] <= self@[j] by {
                    assert(self@[j] == g0[j]);
                    assert(g0[w as int] <= g0[j]);
                }
            }
            self.stuff(q, a);
            q = q + 1;
        }
        assert(self@.to_multiset() == old(self)@.to_multiset());
        proof {
            lemma_sorted_is_sort_by(old(self)@, self@);
        }
    }
}

} // verus!
