//! The mathematical model of a ring.
//!
//! A ring state is a sorted sequence of entries (a hash each owned by one
//! host slot) together with an arena of host slots.  Every operation of the
//! executable [`crate::ring::Ring`] is specified as a function over this
//! model.

use crate::hashing::position_hash;
use vstd::prelude::*;

verus! {

/// One virtual node: a point on the hash circle and the arena slot of the
/// host that owns it.
pub ghost struct EntryV {
    pub hash: u64,
    pub owner: int,
}

/// One registered host: its name and its current load.
pub ghost struct HostV {
    pub name: Seq<char>,
    pub load: u64,
}

/// The abstract state of a ring.
pub ghost struct RingV {
    /// Virtual nodes in strictly ascending hash order.
    pub entries: Seq<EntryV>,
    /// The host arena; a `None` slot is free.
    pub slots: Seq<Option<HostV>>,
    /// Virtual nodes placed per host.
    pub replication_factor: u64,
    /// Load-factor ratio applied to the mean load by the bounded-load lookup.
    pub load_factor_num: u64,
    pub load_factor_den: u64,
}

/// Slot `s` holds a registered host.
pub open spec fn alive(v: RingV, s: int) -> bool {
    0 <= s < v.slots.len() && v.slots[s] is Some
}

/// Entry hashes are strictly ascending: sorted, with no duplicates.
pub open spec fn sorted(es: Seq<EntryV>) -> bool {
    forall|i: int, j: int| 0 <= i < j < es.len() ==> es[i].hash < es[j].hash
}

/// Every entry is owned by a live slot.
pub open spec fn owners_ok(v: RingV) -> bool {
    forall|i: int| 0 <= i < v.entries.len() ==> alive(v, #[trigger] v.entries[i].owner)
}

/// No two registered hosts share a name.
pub open spec fn names_unique(v: RingV) -> bool {
    forall|i: int, j: int|
        0 <= i < j < v.slots.len() && v.slots[i] is Some && v.slots[j] is Some
            ==> v.slots[i]->0.name != v.slots[j]->0.name
}

/// Every entry sits at one of the derived positions of the host that owns
/// it: hosts never hold ring positions other than their own virtual nodes.
pub open spec fn placed(v: RingV) -> bool {
    forall|i: int|
        0 <= i < v.entries.len() ==> exists|r: nat|
            r < v.replication_factor && (#[trigger] v.entries[i]).hash == position_hash(
                v.slots[v.entries[i].owner]->0.name,
                r,
            )
}

/// A well-formed ring state.
pub open spec fn wf(v: RingV) -> bool {
    &&& sorted(v.entries)
    &&& owners_ok(v)
    &&& names_unique(v)
    &&& placed(v)
    &&& v.replication_factor >= 1
    &&& v.load_factor_den >= 1
    &&& v.load_factor_num >= v.load_factor_den
}

/// The first slot at or after `i` that holds a host named `name`, or -1.
pub open spec fn find_from(slots: Seq<Option<HostV>>, name: Seq<char>, i: int) -> int
    decreases slots.len() - i,
    when 0 <= i <= slots.len()
{
    if i >= slots.len() {
        -1
    } else if slots[i] is Some && slots[i]->0.name == name {
        i
    } else {
        find_from(slots, name, i + 1)
    }
}

/// The slot of the host named `name`, or -1 if none is registered.
pub open spec fn find_name(slots: Seq<Option<HostV>>, name: Seq<char>) -> int {
    find_from(slots, name, 0)
}

/// A host named `name` is registered.
pub open spec fn registered(v: RingV, name: Seq<char>) -> bool {
    find_name(v.slots, name) >= 0
}

/// The first free slot at or after `i`, or `slots.len()` if all are taken.
pub open spec fn free_from(slots: Seq<Option<HostV>>, i: int) -> int
    decreases slots.len() - i,
    when 0 <= i <= slots.len()
{
    if i >= slots.len() {
        i
    } else if slots[i] is None {
        i
    } else {
        free_from(slots, i + 1)
    }
}

/// The slot a newly added host takes: the first free one, or a fresh one at
/// the end of the arena.
pub open spec fn free_slot(slots: Seq<Option<HostV>>) -> int {
    free_from(slots, 0)
}

/// One if the slot is taken, zero if it is free.
pub open spec fn slot_count(o: Option<HostV>) -> int {
    if o is Some {
        1
    } else {
        0
    }
}

/// The load held in a slot; zero for a free slot.
pub open spec fn slot_load(o: Option<HostV>) -> int {
    if o is Some {
        o->0.load as int
    } else {
        0
    }
}

/// How many hosts are registered.
pub open spec fn count_hosts(slots: Seq<Option<HostV>>) -> int
    decreases slots.len(),
{
    if slots.len() == 0 {
        0
    } else {
        count_hosts(slots.drop_last()) + slot_count(slots.last())
    }
}

/// The aggregate load: the sum of every registered host's load.
pub open spec fn total_load(slots: Seq<Option<HostV>>) -> int
    decreases slots.len(),
{
    if slots.len() == 0 {
        0
    } else {
        total_load(slots.drop_last()) + slot_load(slots.last())
    }
}

/// Inserts one virtual node into a sorted entry sequence, keeping the order;
/// on an exact hash collision the new owner takes the bucket (last writer).
pub open spec fn insert_entry(es: Seq<EntryV>, e: EntryV) -> Seq<EntryV>
    decreases es.len(),
{
    if es.len() == 0 {
        seq![e]
    } else if e.hash < es[0].hash {
        seq![e] + es
    } else if e.hash == es[0].hash {
        seq![e] + es.drop_first()
    } else {
        seq![es[0]] + insert_entry(es.drop_first(), e)
    }
}

/// Inserts virtual nodes `i..rf` of a host, in ascending replica order.
pub open spec fn place_nodes(
    es: Seq<EntryV>,
    name: Seq<char>,
    owner: int,
    i: nat,
    rf: nat,
) -> Seq<EntryV>
    decreases rf - i,
    when i <= rf
{
    if i >= rf {
        es
    } else {
        place_nodes(
            insert_entry(es, EntryV { hash: position_hash(name, i), owner }),
            name,
            owner,
            i + 1,
            rf,
        )
    }
}

/// Adding a host: a no-op when the name is already registered; otherwise the
/// host takes the first free slot with load zero and its `replication_factor`
/// virtual nodes are placed on the circle.
pub open spec fn spec_add(v: RingV, name: Seq<char>) -> RingV {
    if registered(v, name) {
        v
    } else {
        let s = free_slot(v.slots);
        let h = Some(HostV { name, load: 0 });
        RingV {
            entries: place_nodes(v.entries, name, s, 0, v.replication_factor as nat),
            slots: if s < v.slots.len() {
                v.slots.update(s, h)
            } else {
                v.slots.push(h)
            },
            ..v
        }
    }
}

/// Deletes the entry at hash `h`, if one is there.
pub open spec fn remove_hash(es: Seq<EntryV>, h: u64) -> Seq<EntryV>
    decreases es.len(),
{
    if es.len() == 0 {
        es
    } else if es[0].hash == h {
        es.drop_first()
    } else {
        seq![es[0]] + remove_hash(es.drop_first(), h)
    }
}

/// Deletes the derived positions `i..rf` of a host name, in ascending
/// replica order; a position already absent is skipped.
pub open spec fn clear_nodes(es: Seq<EntryV>, name: Seq<char>, i: nat, rf: nat) -> Seq<EntryV>
    decreases rf - i,
    when i <= rf
{
    if i >= rf {
        es
    } else {
        clear_nodes(remove_hash(es, position_hash(name, i)), name, i + 1, rf)
    }
}

/// Removing a host: a no-op when the name is not registered; otherwise all
/// of its derived ring positions are deleted and its slot is freed.
pub open spec fn spec_remove(v: RingV, name: Seq<char>) -> RingV {
    if !registered(v, name) {
        v
    } else {
        let s = find_name(v.slots, name);
        RingV {
            entries: clear_nodes(v.entries, name, 0, v.replication_factor as nat),
            slots: v.slots.update(s, None),
            ..v
        }
    }
}

/// The first entry at or after index `i` whose hash is at least `h`; 0 when
/// none is, realizing the wrap-around of the circle.
pub open spec fn succ_from(es: Seq<EntryV>, h: u64, i: int) -> int
    decreases es.len() - i,
    when 0 <= i <= es.len()
{
    if i >= es.len() {
        0
    } else if es[i].hash >= h {
        i
    } else {
        succ_from(es, h, i + 1)
    }
}

/// The successor entry of a query hash: the first entry at or clockwise
/// after it on the circle.
pub open spec fn succ_idx(es: Seq<EntryV>, h: u64) -> int {
    succ_from(es, h, 0)
}

/// The name a query hash routes to under plain consistent hashing.
pub open spec fn route(v: RingV, h: u64) -> Option<Seq<char>> {
    if v.entries.len() == 0 {
        None
    } else {
        Some(v.slots[v.entries[succ_idx(v.entries, h)].owner]->0.name)
    }
}

/// The load of the host owning entry `e`.
pub open spec fn load_at(v: RingV, e: int) -> u64 {
    v.slots[v.entries[e].owner]->0.load
}

/// The index `j` positions clockwise of `start`, on a circle of
/// `v.entries.len()` entries.
pub open spec fn wrap(v: RingV, start: int, j: int) -> int {
    if start + j < v.entries.len() {
        start + j
    } else {
        start + j - v.entries.len()
    }
}

/// Rounds the quotient `x / d` up.
pub open spec fn ceil_div(x: int, d: int) -> int {
    if x % d == 0 {
        x / d
    } else {
        x / d + 1
    }
}

/// The bounded-load cap: the mean load biased by the one unit the pending
/// placement would add, scaled by the load factor and rounded up.  An empty
/// arena divides by one instead of zero.
pub open spec fn cap_of(v: RingV) -> int {
    let hc = if count_hosts(v.slots) >= 1 {
        count_hosts(v.slots)
    } else {
        1
    };
    ceil_div((total_load(v.slots) + 1) * v.load_factor_num, hc * v.load_factor_den)
}

/// The first entry, scanning clockwise from `start` at offset `j` on, whose
/// host could take one more unit of load under the cap; -1 after a full
/// sweep without one.
pub open spec fn scan_from(v: RingV, start: int, j: int) -> int
    decreases v.entries.len() - j,
    when 0 <= j <= v.entries.len()
{
    if j >= v.entries.len() {
        -1
    } else {
        let k = wrap(v, start, j);
        if load_at(v, k) + 1 <= cap_of(v) {
            k
        } else {
            scan_from(v, start, j + 1)
        }
    }
}

/// The name a query hash routes to under bounded-load lookup: the first
/// successor whose incremented load stays under the cap, or the plain
/// successor as the fallback after a fruitless full sweep.
pub open spec fn route_least(v: RingV, h: u64) -> Option<Seq<char>> {
    if v.entries.len() == 0 {
        None
    } else {
        let start = succ_idx(v.entries, h);
        let found = scan_from(v, start, 0);
        let chosen = if found >= 0 {
            found
        } else {
            start
        };
        Some(v.slots[v.entries[chosen].owner]->0.name)
    }
}

/// Replacing a host's load: a no-op when the name is not registered or the
/// new aggregate would not fit in a machine word.
pub open spec fn spec_set_load(v: RingV, name: Seq<char>, load: u64) -> RingV {
    let s = find_name(v.slots, name);
    if s < 0 {
        v
    } else if total_load(v.slots) - v.slots[s]->0.load + load > u64::MAX {
        v
    } else {
        RingV { slots: v.slots.update(s, Some(HostV { name, load })), ..v }
    }
}

/// Incrementing a host's load by one: a no-op when the name is not
/// registered or the aggregate is already at the machine-word limit.
pub open spec fn spec_inc_load(v: RingV, name: Seq<char>) -> RingV {
    let s = find_name(v.slots, name);
    if s < 0 || total_load(v.slots) >= u64::MAX {
        v
    } else {
        RingV {
            slots: v.slots.update(
                s,
                Some(HostV { name, load: (v.slots[s]->0.load + 1) as u64 }),
            ),
            ..v
        }
    }
}

/// Decrementing a host's load by one: a no-op when the name is not
/// registered or its load is already zero, so the load never underflows.
pub open spec fn spec_decr_load(v: RingV, name: Seq<char>) -> RingV {
    let s = find_name(v.slots, name);
    if s < 0 || v.slots[s]->0.load == 0 {
        v
    } else {
        RingV {
            slots: v.slots.update(
                s,
                Some(HostV { name, load: (v.slots[s]->0.load - 1) as u64 }),
            ),
            ..v
        }
    }
}

/// The names of the registered hosts, in slot order.
pub open spec fn names_of(slots: Seq<Option<HostV>>) -> Seq<Seq<char>>
    decreases slots.len(),
{
    if slots.len() == 0 {
        Seq::empty()
    } else {
        names_of(slots.drop_last()) + if slots.last() is Some {
            seq![slots.last()->0.name]
        } else {
            Seq::empty()
        }
    }
}

} // verus!
