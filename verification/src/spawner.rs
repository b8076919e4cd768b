//! The integer side of spawn planning: body sizes, costs and build times,
//! the energy a room holds for spawning, which existing creep serves a
//! request, and the ticks to live that new build orders inherit.
use vstd::prelude::*;
use crate::creep::Creep;
use crate::room::Enumeration;
use crate::room::RoomGUID;
use crate::structure::Spawn;
use crate::vec::Vec;
use crate::vec::le_u32;
use crate::Role;
use crate::SubRole;

verus! {

/// The body parts wanted for a creep, apart from its move parts.
#[derive(Copy, Clone)]
pub struct BodyPartSpec {
    pub work: u8,
    pub carry: u8,
    pub claim: u8,
    pub attack: u8,
    pub rattack: u8,
    /// The desired number of heal bodyparts.
    pub heal: u8,
    /// The desired number of tough bodyparts.
    pub tough: u8,
    /// If the creep can be off-road.
    pub offroad: bool,
    /// The maximum number to build for this order.
    pub num: u8,
}

/// The smaller of `a` and `b`, where a `b` of 0 does not count.
pub open spec fn min_nonzero(a: int, b: int) -> int {
    if b > 0 && b < a {
        b
    } else {
        a
    }
}

impl BodyPartSpec {
    /// The number of parts other than move parts.
    pub open spec fn parts(self) -> int {
        self.work + self.carry + self.claim + self.attack + self.rattack + self.heal + self.tough
    }

    /// The number of move parts: one per part off-road, else one per two
    /// parts, rounded up.
    pub open spec fn moves(self) -> int {
        if self.offroad {
            self.parts()
        } else {
            (self.parts() + 1) / 2
        }
    }

    /// Every part other than a move part is not below `a`, unless it is 0.
    pub open spec fn nonzero_parts_at_least(self, a: int) -> bool {
        &&& (self.work > 0 ==> a <= self.work)
        &&& (self.carry > 0 ==> a <= self.carry)
        &&& (self.attack > 0 ==> a <= self.attack)
        &&& (self.rattack > 0 ==> a <= self.rattack)
        &&& (self.heal > 0 ==> a <= self.heal)
        &&& (self.claim > 0 ==> a <= self.claim)
        &&& (self.tough > 0 ==> a <= self.tough)
    }

    /// The smallest part count that is not 0, or 255 when there is none below
    /// 255.
    pub open spec fn least_nonzero(self) -> int {
        min_nonzero(
            min_nonzero(
                min_nonzero(
                    min_nonzero(
                        min_nonzero(min_nonzero(min_nonzero(255, self.work as int), self.carry as int), self.attack as int),
                        self.rattack as int,
                    ),
                    self.heal as int,
                ),
                self.claim as int,
            ),
            self.tough as int,
        )
    }

    /// `a` is one of the parts other than move parts.
    pub open spec fn is_some_part(self, a: int) -> bool {
        a == self.work || a == self.carry || a == self.attack || a == self.rattack || a
            == self.heal || a == self.claim || a == self.tough
    }

    pub fn total_parts_without_move(&self) -> (r: u32)
        ensures
            r == self.parts(),
    {
        self.work as u32 + self.carry as u32 + self.claim as u32 + self.attack as u32
            + self.rattack as u32 + self.heal as u32 + self.tough as u32
    }

    /// The move parts that the body needs.
    pub fn move_parts(&self) -> (r: u32)
        ensures
            r == self.moves(),
            self.offroad ==> r == (self.work + self.carry + self.claim + self.attack + self.rattack + self.heal + self.tough),
            !self.offroad ==> (self.work + self.carry + self.claim + self.attack + self.rattack + self.heal + self.tough) <= 2 * r <= (self.work + self.carry + self.claim + self.attack + self.rattack + self.heal + self.tough) + 1,
    {
        let tparts = self.total_parts_without_move();
        if self.offroad {
            tparts
        } else {
            (tparts + 1) / 2
        }
    }

    /// All parts, move parts included. Off-road the count is doubled.
    pub fn total_parts(&self) -> (r: u32)
        ensures
            self.offroad ==> r == 2 * (self.work + self.carry + self.claim + self.attack + self.rattack + self.heal + self.tough),
            !self.offroad ==> 3 * (self.work + self.carry + self.claim + self.attack + self.rattack + self.heal + self.tough) <= 2 * r <= 3 * (self.work + self.carry + self.claim + self.attack + self.rattack + self.heal + self.tough) + 1,
            r == (if self.offroad {
                self.parts() * 2
            } else {
                (self.parts() + 1) / 2 + self.parts()
            }),
    {
        let tparts = self.total_parts_without_move();
        if self.offroad == true {
            tparts * 2
        } else {
            (tparts + 1) / 2 + tparts
        }
    }

    /// Ticks to build the creep: three per part.
    pub fn build_time(&self) -> (r: u32)
        ensures
            r == 3 * (if self.offroad {
                self.parts() * 2
            } else {
                (self.parts() + 1) / 2 + self.parts()
            }),
    {
        self.total_parts() * 3
    }

    /// The energy the body costs.
    pub fn cost(&self) -> (r: u32)
        ensures
            ({
                let body = self.work * 100 + self.carry * 50 + self.attack * 80 + self.rattack * 150
                    + self.heal * 250 + self.claim * 600 + self.tough * 10;
                &&& (r - body) % 50 == 0
                &&& self.offroad ==> r - body == 50 * (self.work + self.carry + self.claim + self.attack + self.rattack + self.heal + self.tough)
                &&& !self.offroad ==> 25 * (self.work + self.carry + self.claim + self.attack + self.rattack + self.heal + self.tough) <= r - body <= 25 * (self.work + self.carry + self.claim + self.attack + self.rattack + self.heal + self.tough) + 25
            }),
            r == self.work * 100 + self.carry * 50 + self.attack * 80 + self.rattack * 150
                + self.heal * 250 + self.claim * 600 + self.tough * 10 + self.moves() * 50,
    {
        let mparts = self.move_parts();
        let bcost = self.work as u32 * 100 + self.carry as u32 * 50 + self.attack as u32 * 80
            + self.rattack as u32 * 150 + self.heal as u32 * 250 + self.claim as u32 * 600
            + self.tough as u32 * 10;
        bcost + mparts * 50
    }

    /// The smallest part count that is not 0, or 255 when all are 0.
    pub fn least_but_not_zero(&self) -> (r: u8)
        ensures
            r == self.least_nonzero(),
            self.nonzero_parts_at_least(r as int),
            r == 255 || (r > 0 && self.is_some_part(r as int)),
    {
        let mut a: u8 = 255;
        if self.work > 0 && self.work < a {
            a = self.work;
        }
        if self.carry > 0 && self.carry < a {
            a = self.carry;
        }
        if self.attack > 0 && self.attack < a {
            a = self.attack;
        }
        if self.rattack > 0 && self.rattack < a {
            a = self.rattack;
        }
        if self.heal > 0 && self.heal < a {
            a = self.heal
        }
        if self.claim > 0 && self.claim < a {
            a = self.claim
        }
        if self.tough > 0 && self.tough < a {
            a = self.tough
        }
        a
    }

    /// The first step of limiting a body by energy: one less than the
    /// smallest part count is taken from every part count that is not 0, so
    /// that the smallest becomes 1.
    pub fn shrink_by_least(&self) -> (n: BodyPartSpec)
        ensures
            ({
                let m = self.least_nonzero() - 1;
                &&& n.work == (if self.work > 0 { self.work - m } else { 0 })
                &&& n.carry == (if self.carry > 0 { self.carry - m } else { 0 })
                &&& n.attack == (if self.attack > 0 { self.attack - m } else { 0 })
                &&& n.rattack == (if self.rattack > 0 { self.rattack - m } else { 0 })
                &&& n.heal == (if self.heal > 0 { self.heal - m } else { 0 })
                &&& n.claim == (if self.claim > 0 { self.claim - m } else { 0 })
                &&& n.tough == (if self.tough > 0 { self.tough - m } else { 0 })
                &&& n.offroad == self.offroad
                &&& n.num == self.num
            }),
    {
        let mut n = *self;
        let min = n.least_but_not_zero() - 1;
        if n.work > 0 {
            n.work = n.work - min;
        }
        if n.carry > 0 {
            n.carry = n.carry - min;
        }
        if n.attack > 0 {
            n.attack = n.attack - min;
        }
        if n.rattack > 0 {
            n.rattack = n.rattack - min;
        }
        if n.heal > 0 {
            n.heal = n.heal - min;
        }
        if n.claim > 0 {
            n.claim = n.claim - min;
        }
        if n.tough > 0 {
            n.tough = n.tough - min;
        }
        n
    }
}

/// The sum of a sequence of counts.
pub open spec fn sum_u32(s: Seq<u32>) -> int
    decreases s.len(),
{
    if s.len() == 0 {
        0
    } else {
        sum_u32(s.drop_last()) + s.last()
    }
}

proof fn lemma_sum_prefix(s: Seq<u32>, q: int)
    requires
        0 <= q < s.len(),
    ensures
        sum_u32(s.subrange(0, q + 1)) == sum_u32(s.subrange(0, q)) + s[q],
        sum_u32(s.subrange(0, q + 1)) <= sum_u32(s),
    decreases s.len() - q,
{
    assert(s.subrange(0, q + 1).drop_last() =~= s.subrange(0, q));
    if q + 1 < s.len() {
        lemma_sum_prefix(s, q + 1);
    } else {
        assert(s.subrange(0, q + 1) =~= s);
    }
}

pub open spec fn spawn_capacities(s: Seq<Spawn>) -> Seq<u32> {
    s.map_values(|sp: Spawn| sp.energy_capacity)
}

pub open spec fn spawn_energies(s: Seq<Spawn>) -> Seq<u32> {
    s.map_values(|sp: Spawn| sp.energy)
}

pub open spec fn extension_capacities(s: Seq<crate::structure::Extension>) -> Seq<u32> {
    s.map_values(|e: crate::structure::Extension| e.energy_capacity)
}

pub open spec fn extension_energies(s: Seq<crate::structure::Extension>) -> Seq<u32> {
    s.map_values(|e: crate::structure::Extension| e.energy)
}

/// The last spawn that is not busy spawning.
pub open spec fn last_free_spawn(s: Seq<Spawn>) -> Option<Spawn>
    decreases s.len(),
{
    if s.len() == 0 {
        None
    } else if !s.last().spawning {
        Some(s.last())
    } else {
        last_free_spawn(s.drop_last())
    }
}

/// Law: a body that travels by road needs one move part per two other
/// parts, rounded up, so that twice its move parts is its other parts or one
/// more; off-road it needs one per part.
pub proof fn lemma_move_parts_round_up(b: BodyPartSpec)
    ensures
        ({
            let n = b.work + b.carry + b.claim + b.attack + b.rattack + b.heal + b.tough;
            &&& !b.offroad ==> n <= 2 * b.moves() <= n + 1
            &&& b.offroad ==> b.moves() == n
            &&& b.moves() >= 0
        }),
{
}

/// Law: there is no free spawn exactly when every spawn is busy spawning;
/// otherwise the spawn found is one of the spawns, is not spawning, and every
/// spawn after it is busy.
pub proof fn lemma_last_free_spawn(s: Seq<Spawn>)
    ensures
        last_free_spawn(s) is None <==> forall|i: int| 0 <= i < s.len() ==> #[trigger] s[i].spawning,
        last_free_spawn(s) matches Some(x) ==> exists|i: int|
            0 <= i < s.len() && s[i] == x && !x.spawning && forall|j: int|
                i < j < s.len() ==> #[trigger] s[j].spawning,
    decreases s.len(),
{
    if s.len() > 0 {
        let init = s.drop_last();
        lemma_last_free_spawn(init);
        if s.last().spawning {
            if last_free_spawn(init) is None {
                assert forall|i: int| 0 <= i < s.len() implies #[trigger] s[i].spawning by {
                    if i < init.len() {
                        assert(init[i] == s[i]);
                    }
                }
            } else {
                let x = last_free_spawn(init)->0;
                let i = choose|i: int|
                    0 <= i < init.len() && init[i] == x && !x.spawning && forall|j: int|
                        i < j < init.len() ==> #[trigger] init[j].spawning;
                assert(s[i] == x);
                assert forall|j: int| i < j < s.len() implies #[trigger] s[j].spawning by {
                    if j < init.len() {
                        assert(init[j] == s[j]);
                    }
                }
                assert(!s[i].spawning);
            }
        } else {
            assert(s[s.len() - 1] == s.last());
        }
    }
}

/// A count wrapped around to 32 bits, as a 32-bit sum that overflows is.
pub open spec fn wrap32(x: int) -> int {
    x % 0x1_0000_0000
}

proof fn lemma_wrap_step(acc: u32, total: int, x: u32)
    requires
        acc == wrap32(total),
    ensures
        acc.wrapping_add(x) == wrap32(total + x),
{
    vstd::arithmetic::div_mod::lemma_add_mod_noop(total, x as int, 0x1_0000_0000);
}

/// The energy capacity and the energy of the room's spawns and extensions
/// together, counted in 32 bits that wrap around, and the last of its spawns
/// that is not busy spawning.
pub fn spawn_energy_and_free_spawn(renum: &Enumeration) -> (r: (u32, u32, Option<Spawn>))
    ensures
        r.0 == wrap32(
            sum_u32(spawn_capacities(renum.spawns@)) + sum_u32(extension_capacities(renum.extensions@)),
        ),
        r.1 == wrap32(
            sum_u32(spawn_energies(renum.spawns@)) + sum_u32(extension_energies(renum.extensions@)),
        ),
        r.2 == last_free_spawn(renum.spawns@),
        r.2 is None <==> forall|i: int| 0 <= i < renum.spawns@.len() ==> #[trigger] renum.spawns@[i].spawning,
        r.2 matches Some(x) ==> exists|i: int|
            0 <= i < renum.spawns@.len() && renum.spawns@[i] == x && !x.spawning && forall|j: int|
                i < j < renum.spawns@.len() ==> #[trigger] renum.spawns@[j].spawning,
{
    let ghost sp = renum.spawns@;
    let ghost ex = renum.extensions@;
    let mut spawn: Option<Spawn> = None;
    let mut energy_capacity: u32 = 0;
    let mut energy_ava: u32 = 0;
    let ns = renum.spawns.len();
    for q in 0..ns
        invariant
            ns == sp.len(),
            sp == renum.spawns@,
            energy_capacity == wrap32(sum_u32(spawn_capacities(sp).subrange(0, q as int))),
            energy_ava == wrap32(sum_u32(spawn_energies(sp).subrange(0, q as int))),
            spawn == last_free_spawn(sp.subrange(0, q as int)),
    {
        let spawn_ref = renum.spawns.index(q);
        proof {
            lemma_sum_prefix(spawn_capacities(sp), q as int);
            lemma_sum_prefix(spawn_energies(sp), q as int);
            assert(sp.subrange(0, q + 1).drop_last() =~= sp.subrange(0, q as int));
            assert(spawn_capacities(sp)[q as int] == spawn_ref.energy_capacity);
            assert(spawn_energies(sp)[q as int] == spawn_ref.energy);
            lemma_wrap_step(
                energy_capacity,
                sum_u32(spawn_capacities(sp).subrange(0, q as int)),
                spawn_ref.energy_capacity,
            );
            lemma_wrap_step(
                energy_ava,
                sum_u32(spawn_energies(sp).subrange(0, q as int)),
                spawn_ref.energy,
            );
        }
        energy_capacity = energy_capacity.wrapping_add(spawn_ref.energy_capacity);
        energy_ava = energy_ava.wrapping_add(spawn_ref.energy);
        if spawn_ref.spawning == false {
            spawn = Some(*spawn_ref);
        }
    }
    proof {
        assert(spawn_capacities(sp).subrange(0, ns as int) =~= spawn_capacities(sp));
        assert(spawn_energies(sp).subrange(0, ns as int) =~= spawn_energies(sp));
        assert(sp.subrange(0, ns as int) =~= sp);
        lemma_last_free_spawn(sp);
    }
    let ghost cap0 = sum_u32(spawn_capacities(sp));
    let ghost ava0 = sum_u32(spawn_energies(sp));
    let ne = renum.extensions.len();
    for q in 0..ne
        invariant
            ne == ex.len(),
            ex == renum.extensions@,
            cap0 == sum_u32(spawn_capacities(sp)),
            ava0 == sum_u32(spawn_energies(sp)),
            energy_capacity == wrap32(cap0 + sum_u32(extension_capacities(ex).subrange(0, q as int))),
            energy_ava == wrap32(ava0 + sum_u32(extension_energies(ex).subrange(0, q as int))),
    {
        let ext_ref = renum.extensions.index(q);
        proof {
            lemma_sum_prefix(extension_capacities(ex), q as int);
            lemma_sum_prefix(extension_energies(ex), q as int);
            assert(extension_capacities(ex)[q as int] == ext_ref.energy_capacity);
            assert(extension_energies(ex)[q as int] == ext_ref.energy);
            lemma_wrap_step(
                energy_capacity,
                cap0 + sum_u32(extension_capacities(ex).subrange(0, q as int)),
                ext_ref.energy_capacity,
            );
            lemma_wrap_step(
                energy_ava,
                ava0 + sum_u32(extension_energies(ex).subrange(0, q as int)),
                ext_ref.energy,
            );
        }
        energy_capacity = energy_capacity.wrapping_add(ext_ref.energy_capacity);
        energy_ava = energy_ava.wrapping_add(ext_ref.energy);
    }
    proof {
        assert(extension_capacities(ex).subrange(0, ne as int) =~= extension_capacities(ex));
        assert(extension_energies(ex).subrange(0, ne as int) =~= extension_energies(ex));
    }
    (energy_capacity, energy_ava, spawn)
}

/// The key by which an existing creep is ordered: its ticks to live, with
/// bit 16 set while it is still being spawned.
pub open spec fn ttl_key(c: Creep) -> u32 {
    if c.spawning {
        c.ticks_to_live | 0x10000
    } else {
        c.ticks_to_live
    }
}

/// The keys of the existing creeps, in the order given.
pub open spec fn ttl_keys(existing: Seq<usize>, creeps: Seq<Option<Creep>>) -> Seq<u32> {
    Seq::new(existing.len(), |q: int| ttl_key(creeps[existing[q] as int]->0))
}

/// The ticks to live of the `q`-th new order: the `q`-th largest key with
/// bit 16 cleared, or 0 once the keys are used up.
pub open spec fn order_ttl(sorted_keys: Seq<u32>, q: int) -> u32 {
    if q < sorted_keys.len() {
        sorted_keys[sorted_keys.len() - 1 - q] & 0xFFFF
    } else {
        0
    }
}

/// The ticks to live that `num` new build orders inherit from the existing
/// creeps `existing` (indices into `creeps`): creeps being spawned first,
/// then the others by descending ticks to live.
pub fn build_order_ttls(existing: &Vec<usize>, creeps: &Vec<Option<Creep>>, num: u8) -> (r: Vec<u32>)
    requires
        forall|q: int|
            0 <= q < existing@.len() ==> #[trigger] existing@[q] < creeps@.len() && creeps@[existing@[q] as int] is Some,
    ensures
        r@.len() == num,
        r.cap() == num,
        forall|q: int|
            0 <= q < num ==> #[trigger] r@[q] == order_ttl(
                ttl_keys(existing@, creeps@).sort_by(le_u32()),
                q,
            ),
{
    let n = existing.len();
    let mut ndx: Vec<u32> = Vec::with_capacity(n);
    for q in 0..n
        invariant
            n == existing@.len(),
            ndx.cap() == n,
            ndx@ == ttl_keys(existing@, creeps@).subrange(0, q as int),
            forall|q: int|
                0 <= q < existing@.len() ==> #[trigger] existing@[q] < creeps@.len() && creeps@[existing@[q] as int] is Some,
    {
        let c = creeps.index(*existing.index(q)).as_ref().unwrap();
        if c.spawning {
            ndx.push(c.ticks_to_live | 0x10000);
        } else {
            ndx.push(c.ticks_to_live);
        }
        assert(ndx@ =~= ttl_keys(existing@, creeps@).subrange(0, q + 1));
    }
    assert(ndx@ =~= ttl_keys(existing@, creeps@));
    ndx.sort();
    let ghost sk = ndx@;
    let mut out: Vec<u32> = Vec::with_capacity(num as usize);
    for q in 0..num as usize
        invariant
            sk == ndx@,
            sk == ttl_keys(existing@, creeps@).sort_by(le_u32()),
            out.cap() == num,
            out@.len() == q,
            forall|i: int| 0 <= i < q ==> #[trigger] out@[i] == order_ttl(sk, i),
    {
        let ttl = if q >= ndx.len() {
            0
        } else {
            *ndx.index(ndx.len() - 1 - q) & 0xFFFF
        };
        out.push(ttl);
    }
    out
}

/// Law: new orders take the keys of the existing creeps from the largest
/// down, so creeps being spawned come first and, among the others, those
/// with more ticks to live.
pub proof fn lemma_orders_take_largest_first(existing: Seq<usize>, creeps: Seq<Option<Creep>>, q1: int, q2: int)
    requires
        0 <= q1 < q2 < existing.len(),
    ensures
        ({
            let sk = ttl_keys(existing, creeps).sort_by(le_u32());
            sk[sk.len() - 1 - q1] >= sk[sk.len() - 1 - q2]
        }),
{
    let keys = ttl_keys(existing, creeps);
    assert(vstd::relations::total_ordering(le_u32()));
    keys.lemma_sort_by_ensures(le_u32());
    let sk = keys.sort_by(le_u32());
    assert(sk.len() == keys.len()) by {
        broadcast use vstd::seq_lib::group_to_multiset_ensures;

        assert(sk.to_multiset().len() == keys.to_multiset().len());
    }
    assert(le_u32()(sk[sk.len() - 1 - q2], sk[sk.len() - 1 - q1]));
}

/// What a creep's memory says of its home room, role and subrole; `None`
/// where the key is not set.
pub struct CreepTags {
    pub room: Option<RoomGUID>,
    pub role: Option<Role>,
    pub subrole: Option<SubRole>,
}

/// A creep serves a request when it exists and its memory names the room,
/// the role and the subrole asked for; a key that is not set reads as
/// unassigned.
pub open spec fn serves(c: Option<Creep>, t: CreepTags, guid: RoomGUID, role: Role, subrole: SubRole) -> bool {
    &&& c is Some
    &&& (match t.room {
        Some(g) => g,
        None => RoomGUID::Unassigned,
    }) == guid
    &&& (match t.role {
        Some(r) => r,
        None => Role::Unassigned,
    }) == role
    &&& (match t.subrole {
        Some(r) => r,
        None => SubRole::Unassigned,
    }) == subrole
}

/// The indices below `q` of the creeps that serve the request, in
/// increasing order.
pub open spec fn serving_below(
    creeps: Seq<Option<Creep>>,
    tags: Seq<CreepTags>,
    guid: RoomGUID,
    role: Role,
    subrole: SubRole,
    q: int,
) -> Seq<usize>
    decreases q,
{
    if q <= 0 {
        Seq::empty()
    } else if serves(creeps[q - 1], tags[q - 1], guid, role, subrole) {
        serving_below(creeps, tags, guid, role, subrole, q - 1).push((q - 1) as usize)
    } else {
        serving_below(creeps, tags, guid, role, subrole, q - 1)
    }
}

/// Law: the indices that `serving_below` gives are the indices below `q` of
/// creeps that exist and whose memory names the room, the role and the
/// subrole asked for, a missing key read as unassigned.
pub proof fn lemma_serving_below(
    creeps: Seq<Option<Creep>>,
    tags: Seq<CreepTags>,
    guid: RoomGUID,
    role: Role,
    subrole: SubRole,
    q: int,
)
    requires
        0 <= q <= creeps.len(),
        creeps.len() <= usize::MAX,
        tags.len() == creeps.len(),
    ensures
        ({
            let r = serving_below(creeps, tags, guid, role, subrole, q);
            &&& r.len() <= q
            &&& forall|i: int|
                0 <= i < r.len() ==> #[trigger] r[i] < q && creeps[r[i] as int] is Some && (match tags[r[i] as int].room {
                    Some(g) => g,
                    None => RoomGUID::Unassigned,
                }) == guid && (match tags[r[i] as int].role {
                    Some(x) => x,
                    None => Role::Unassigned,
                }) == role && (match tags[r[i] as int].subrole {
                    Some(x) => x,
                    None => SubRole::Unassigned,
                }) == subrole
            &&& forall|p: int|
                0 <= p < q && creeps[p] is Some && (match tags[p].room {
                    Some(g) => g,
                    None => RoomGUID::Unassigned,
                }) == guid && (match tags[p].role {
                    Some(x) => x,
                    None => Role::Unassigned,
                }) == role && (match tags[p].subrole {
                    Some(x) => x,
                    None => SubRole::Unassigned,
                }) == subrole ==> exists|i: int| 0 <= i < r.len() && #[trigger] r[i] == p
        }),
    decreases q,
{
    if q > 0 {
        lemma_serving_below(creeps, tags, guid, role, subrole, q - 1);
        let prev = serving_below(creeps, tags, guid, role, subrole, q - 1);
        let r = serving_below(creeps, tags, guid, role, subrole, q);
        assert forall|p: int|
            0 <= p < q && creeps[p] is Some && (match tags[p].room {
                Some(g) => g,
                None => RoomGUID::Unassigned,
            }) == guid && (match tags[p].role {
                Some(x) => x,
                None => Role::Unassigned,
            }) == role && (match tags[p].subrole {
                Some(x) => x,
                None => SubRole::Unassigned,
            }) == subrole implies exists|i: int| 0 <= i < r.len() && #[trigger] r[i] == p by {
            if p < q - 1 {
                let i = choose|i: int| 0 <= i < prev.len() && #[trigger] prev[i] == p;
                assert(r[i] == p);
            } else {
                assert(serves(creeps[p], tags[p], guid, role, subrole));
                assert(r[r.len() - 1] == p);
            }
        }
    }
}

/// The first `num` items of `s`, or all of them when there are fewer.
pub open spec fn at_most(s: Seq<usize>, num: int) -> Seq<usize> {
    if s.len() <= num {
        s
    } else {
        s.subrange(0, num)
    }
}

/// The creeps that serve the request of the room `guid` for creeps of
/// `role` and `subrole`, at most `num` of them, by increasing index;
/// `tags[q]` is what creep `q`'s memory holds.
pub fn select_creep(
    creeps: &Vec<Option<Creep>>,
    tags: &Vec<CreepTags>,
    guid: RoomGUID,
    role: Role,
    subrole: SubRole,
    num: u8,
) -> (r: Vec<usize>)
    requires
        tags@.len() == creeps@.len(),
    ensures
        r@ == at_most(serving_below(creeps@, tags@, guid, role, subrole, creeps@.len() as int), num as int),
        r.cap() == num,
        forall|i: int, j: int| 0 <= i < j < r@.len() ==> r@[i] < r@[j],
        r@.len() <= num,
        forall|i: int|
            0 <= i < r@.len() ==> #[trigger] r@[i] < creeps@.len() && creeps@[r@[i] as int] is Some && (match tags@[r@[i] as int].room {
                Some(g) => g,
                None => RoomGUID::Unassigned,
            }) == guid && (match tags@[r@[i] as int].role {
                Some(x) => x,
                None => Role::Unassigned,
            }) == role && (match tags@[r@[i] as int].subrole {
                Some(x) => x,
                None => SubRole::Unassigned,
            }) == subrole,
        forall|q: int|
            0 <= q < creeps@.len() && r@.len() < num && creeps@[q as int] is Some && (match tags@[q as int].room {
                Some(g) => g,
                None => RoomGUID::Unassigned,
            }) == guid && (match tags@[q as int].role {
                Some(x) => x,
                None => Role::Unassigned,
            }) == role && (match tags@[q as int].subrole {
                Some(x) => x,
                None => SubRole::Unassigned,
            }) == subrole ==> exists|i: int|
                0 <= i < r@.len() && #[trigger] r@[i] == q,
{
    let n = creeps.len();
    let mut out: Vec<usize> = Vec::with_capacity(num as usize);
    for q in 0..n
        invariant
            n == creeps@.len(),
            tags@.len() == n,
            out.cap() == num,
            out@ == at_most(serving_below(creeps@, tags@, guid, role, subrole, q as int), num as int),
            forall|i: int| 0 <= i < out@.len() ==> out@[i] < q,
            forall|i: int, j: int| 0 <= i < j < out@.len() ==> out@[i] < out@[j],
    {
        let ghost before = serving_below(creeps@, tags@, guid, role, subrole, q as int);
        let mut serving = false;
        if creeps.index(q).is_some() {
            let t = tags.index(q);
            let room = match t.room {
                Some(g) => g,
                None => RoomGUID::Unassigned,
            };
            let r = match t.role {
                Some(r) => r,
                None => Role::Unassigned,
            };
            let s = match t.subrole {
                Some(s) => s,
                None => SubRole::Unassigned,
            };
            serving = room == guid && r == role && s == subrole;
        }
        assert(serving == serves(creeps@[q as int], tags@[q as int], guid, role, subrole));
        if serving && out.len() < num as usize {
            out.push(q);
        }
        proof {
            if serving {
                let after = before.push(q);
                if before.len() >= num {
                    assert(after.subrange(0, num as int) =~= before.subrange(0, num as int));
                }
            }
        }
    }
    proof {
        lemma_serving_below(creeps@, tags@, guid, role, subrole, n as int);
        let all = serving_below(creeps@, tags@, guid, role, subrole, n as int);
        if all.len() > num {
            assert forall|i: int| 0 <= i < out@.len() implies out@[i] == all[i] by {}
        }
    }
    out
}

} // verus!
