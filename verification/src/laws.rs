//! The ring's laws: properties that relate several operations, stated over
//! the model and proved once and for all.

use crate::hashing::position_hash;
use crate::lemmas::{
    lemma_alive_load, lemma_counts_bounds, lemma_find_from_exists, lemma_find_from_found,
    lemma_find_from_none, lemma_free_from, lemma_insert_entry_props, lemma_remove_hash_at,
    lemma_remove_hash_props, lemma_succ_from_char,
};
use crate::model::{
    alive, cap_of, ceil_div, clear_nodes, count_hosts, find_name, free_slot, insert_entry,
    load_at, place_nodes, registered, remove_hash, route, route_least, scan_from, sorted,
    spec_add, spec_remove, succ_from, succ_idx, total_load, wf, wrap, EntryV, HostV, RingV,
};
use vstd::arithmetic::div_mod::{
    lemma_div_pos_is_pos, lemma_fundamental_div_mod, lemma_mod_bound,
};
use vstd::prelude::*;

verus! {

/// Adding the same host twice leaves exactly the state one add produces:
/// the second add finds the name registered and changes nothing.
pub proof fn lemma_add_idempotent(v: RingV, name: Seq<char>)
    requires
        wf(v),
    ensures
        spec_add(spec_add(v, name), name) == spec_add(v, name),
{
    if !registered(v, name) {
        let v1 = spec_add(v, name);
        let s = free_slot(v.slots);
        lemma_free_from(v.slots, 0);
        assert(v1.slots[s] is Some && v1.slots[s]->0.name == name);
        lemma_find_from_exists(v1.slots, name, 0, s);
        assert(registered(v1, name));
    }
}

/// While no host is registered the circle is empty, and both lookups
/// resolve to nothing, whatever the query.
pub proof fn lemma_empty_ring(v: RingV, h: u64)
    requires
        wf(v),
        count_hosts(v.slots) == 0,
    ensures
        v.entries.len() == 0,
        route(v, h) is None,
        route_least(v, h) is None,
{
    if v.entries.len() > 0 {
        assert(alive(v, v.entries[0].owner));
        lemma_alive_load(v.slots, v.entries[0].owner);
        assert(false);
    }
}

/// The successor index is a real index, everything before it hashes below
/// the query, and it either reaches the query hash or is the wrap to zero
/// with the whole circle below the query.
pub proof fn lemma_succ_cases(es: Seq<EntryV>, h: u64)
    requires
        es.len() >= 1,
    ensures
        ({
            let i = succ_idx(es, h);
            &&& 0 <= i < es.len()
            &&& forall|j: int| 0 <= j < i ==> (#[trigger] es[j]).hash < h
            &&& (es[i].hash >= h || (i == 0 && forall|j: int|
                0 <= j < es.len() ==> (#[trigger] es[j]).hash < h))
        }),
{
    lemma_succ_cases_from(es, h, 0);
}

proof fn lemma_succ_cases_from(es: Seq<EntryV>, h: u64, i: int)
    requires
        es.len() >= 1,
        0 <= i <= es.len(),
    ensures
        ({
            let r = succ_from(es, h, i);
            &&& 0 <= r < es.len()
            &&& forall|j: int| i <= j < r ==> (#[trigger] es[j]).hash < h
            &&& ((r >= i && es[r].hash >= h) || (r == 0 && forall|j: int|
                i <= j < es.len() ==> (#[trigger] es[j]).hash < h))
        }),
    decreases es.len() - i,
{
    if i < es.len() && es[i].hash < h {
        lemma_succ_cases_from(es, h, i + 1);
    }
}

/// A fruitless scan really visited every offset: each one is over the cap.
proof fn lemma_scan_miss(v: RingV, start: int, j: int)
    requires
        0 <= start < v.entries.len(),
        0 <= j <= v.entries.len(),
        scan_from(v, start, j) == -1,
    ensures
        forall|jj: int|
            j <= jj < v.entries.len() ==> load_at(v, #[trigger] wrap(v, start, jj)) + 1 > cap_of(
                v,
            ),
    decreases v.entries.len() - j,
{
    if j < v.entries.len() {
        lemma_scan_miss(v, start, j + 1);
    }
}

/// A successful scan returns an index under the cap.
proof fn lemma_scan_found(v: RingV, start: int, j: int)
    requires
        0 <= start < v.entries.len(),
        0 <= j <= v.entries.len(),
        scan_from(v, start, j) != -1,
    ensures
        0 <= scan_from(v, start, j) < v.entries.len(),
        load_at(v, scan_from(v, start, j)) + 1 <= cap_of(v),
    decreases v.entries.len() - j,
{
    if j < v.entries.len() && !(load_at(v, wrap(v, start, j)) + 1 <= cap_of(v)) {
        lemma_scan_found(v, start, j + 1);
    }
}

/// When every registered host carries at least `b`, the aggregate carries
/// at least `b` per host.
proof fn lemma_sum_lower(s: Seq<Option<HostV>>, b: int)
    requires
        b >= 0,
        forall|i: int|
            0 <= i < s.len() && s[i] is Some ==> (#[trigger] s[i])->0.load >= b,
    ensures
        total_load(s) >= count_hosts(s) * b,
    decreases s.len(),
{
    if s.len() == 0 {
        assert(count_hosts(s) * b == 0) by (nonlinear_arith)
            requires
                count_hosts(s) == 0,
        ;
    } else {
        lemma_sum_lower(s.drop_last(), b);
        lemma_counts_bounds(s.drop_last());
        let c = count_hosts(s.drop_last());
        if s.last() is Some {
            assert((c + 1) * b == c * b + b) by (nonlinear_arith);
        }
    }
}

/// Rounding a quotient up never loses: the cap times the divisor covers
/// the scaled biased load.
proof fn lemma_ceil_div_lower(x: int, d: int)
    requires
        x >= 0,
        d >= 1,
    ensures
        ceil_div(x, d) * d >= x,
        ceil_div(x, d) >= 0,
{
    lemma_fundamental_div_mod(x, d);
    lemma_mod_bound(x, d);
    lemma_div_pos_is_pos(x, d);
    if x % d == 0 {
        assert((x / d) * d == d * (x / d)) by (nonlinear_arith);
    } else {
        assert((x / d + 1) * d == d * (x / d) + d) by (nonlinear_arith);
    }
}

/// The cap always admits someone: some registered host's incremented load
/// stays within it.  This is what the one-unit bias in the cap buys.
pub proof fn lemma_cap_admits(v: RingV)
    requires
        wf(v),
        count_hosts(v.slots) >= 1,
    ensures
        exists|s: int| #[trigger] alive(v, s) && v.slots[s]->0.load + 1 <= cap_of(v),
{
    let n = count_hosts(v.slots);
    let t = total_load(v.slots);
    let num = v.load_factor_num as int;
    let den = v.load_factor_den as int;
    let cap = cap_of(v);
    let x = (t + 1) * num;
    let d = n * den;
    lemma_counts_bounds(v.slots);
    assert(x >= 0 && d >= 1) by (nonlinear_arith)
        requires
            x == (t + 1) * num,
            d == n * den,
            t >= 0,
            num >= 1,
            n >= 1,
            den >= 1,
    ;
    lemma_ceil_div_lower(x, d);
    if !(exists|s: int| #[trigger] alive(v, s) && v.slots[s]->0.load + 1 <= cap) {
        assert forall|i: int|
            0 <= i < v.slots.len() && v.slots[i] is Some implies (#[trigger] v.slots[i])->0.load
                >= cap by {
            assert(!(alive(v, i) && v.slots[i]->0.load + 1 <= cap));
        }
        lemma_sum_lower(v.slots, cap);
        assert(t >= n * cap);
        // cap * (n * den) >= (t + 1) * num >= (t + 1) * den, so cap * n >= t + 1
        assert((t + 1) * num >= (t + 1) * den) by (nonlinear_arith)
            requires
                num >= den,
                t >= 0,
        ;
        assert(cap * d >= (t + 1) * den);
        assert(cap * n >= t + 1) by (nonlinear_arith)
            requires
                d == n * den,
                cap * d >= (t + 1) * den,
                den >= 1,
                n >= 1,
                cap >= 0,
                t >= 0,
        ;
        assert(t >= n * cap && cap * n >= t + 1);
        assert(false) by (nonlinear_arith)
            requires
                t >= n * cap,
                cap * n >= t + 1,
        ;
    }
}

/// How many ring positions slot `o` owns.
pub open spec fn owned_count(es: Seq<EntryV>, o: int) -> int
    decreases es.len(),
{
    if es.len() == 0 {
        0
    } else {
        (if es[0].owner == o {
            1int
        } else {
            0int
        }) + owned_count(es.drop_first(), o)
    }
}

proof fn lemma_owned_count_zero(es: Seq<EntryV>, o: int)
    requires
        forall|k: int| 0 <= k < es.len() ==> (#[trigger] es[k]).owner != o,
    ensures
        owned_count(es, o) == 0,
    decreases es.len(),
{
    if es.len() > 0 {
        assert(forall|k: int|
            0 <= k < es.drop_first().len() ==> (#[trigger] es.drop_first()[k]) == es[k + 1]);
        lemma_owned_count_zero(es.drop_first(), o);
    }
}

proof fn lemma_owned_count_insert(es: Seq<EntryV>, e: EntryV, o: int)
    requires
        forall|k: int| 0 <= k < es.len() ==> (#[trigger] es[k]).hash != e.hash,
    ensures
        owned_count(insert_entry(es, e), o) == owned_count(es, o) + if e.owner == o {
            1int
        } else {
            0int
        },
    decreases es.len(),
{
    let r = insert_entry(es, e);
    if es.len() == 0 {
        assert(r =~= seq![e]);
        assert(r[0] == e);
        assert(r.drop_first() =~= Seq::<EntryV>::empty());
        assert(owned_count(r.drop_first(), o) == 0);
        assert(owned_count(es, o) == 0);
    } else if e.hash < es[0].hash {
        assert(r =~= seq![e] + es);
        assert(r[0] == e);
        assert(r.drop_first() =~= es);
        assert(owned_count(r, o) == (if e.owner == o {
            1int
        } else {
            0int
        }) + owned_count(es, o));
    } else if e.hash == es[0].hash {
        assert(false);
    } else {
        let tail = es.drop_first();
        assert(forall|k: int| 0 <= k < tail.len() ==> (#[trigger] tail[k]) == es[k + 1]);
        lemma_owned_count_insert(tail, e, o);
        assert(r == seq![es[0]] + insert_entry(tail, e));
        assert(r.drop_first() =~= insert_entry(tail, e));
        assert(r[0] == es[0]);
        assert(owned_count(r, o) == (if es[0].owner == o {
            1int
        } else {
            0int
        }) + owned_count(insert_entry(tail, e), o));
        assert(owned_count(es, o) == (if es[0].owner == o {
            1int
        } else {
            0int
        }) + owned_count(tail, o));
    }
}

proof fn lemma_place_nodes_count(es: Seq<EntryV>, name: Seq<char>, o: int, i: nat, rf: nat)
    requires
        sorted(es),
        i <= rf,
        forall|a: nat, b: nat|
            a < b < rf ==> #[trigger] position_hash(name, a) != #[trigger] position_hash(name, b),
        forall|k: int, a: nat|
            0 <= k < es.len() && i <= a < rf ==> (#[trigger] es[k]).hash != #[trigger] position_hash(
                name,
                a,
            ),
    ensures
        sorted(place_nodes(es, name, o, i, rf)),
        place_nodes(es, name, o, i, rf).len() == es.len() + (rf - i),
        owned_count(place_nodes(es, name, o, i, rf), o) == owned_count(es, o) + (rf - i),
    decreases rf - i,
{
    if i < rf {
        let e = EntryV { hash: position_hash(name, i), owner: o };
        lemma_insert_entry_props(es, e);
        lemma_owned_count_insert(es, e, o);
        let es1 = insert_entry(es, e);
        assert(!exists|k: int| 0 <= k < es.len() && (#[trigger] es[k]).hash == e.hash);
        assert forall|k: int, a: nat|
            0 <= k < es1.len() && i + 1 <= a < rf implies (#[trigger] es1[k]).hash
            != #[trigger] position_hash(name, a) by {
            if es1[k] == e {
                assert(position_hash(name, i) != position_hash(name, a));
            } else {
                assert(es.contains(es1[k]));
                let m = choose|m: int| 0 <= m < es.len() && es[m] == es1[k];
                assert(es[m].hash != position_hash(name, a));
            }
        }
        lemma_place_nodes_count(es1, name, o, (i + 1) as nat, rf);
    }
}

/// Completeness of adding: a fresh host whose derived positions collide
/// with nothing gains exactly `replication_factor` ring positions, all its
/// own, and the circle grows by exactly that many entries.
pub proof fn lemma_add_completeness(v: RingV, name: Seq<char>)
    requires
        wf(v),
        !registered(v, name),
        forall|a: nat, b: nat|
            a < b < v.replication_factor ==> #[trigger] position_hash(name, a)
                != #[trigger] position_hash(name, b),
        forall|k: int, a: nat|
            0 <= k < v.entries.len() && a < v.replication_factor ==> (#[trigger] v.entries[k]).hash
                != #[trigger] position_hash(name, a),
    ensures
        spec_add(v, name).entries.len() == v.entries.len() + v.replication_factor,
        owned_count(spec_add(v, name).entries, free_slot(v.slots)) == v.replication_factor,
{
    let s = free_slot(v.slots);
    lemma_free_from(v.slots, 0);
    assert forall|k: int| 0 <= k < v.entries.len() implies (#[trigger] v.entries[k]).owner
        != s by {
        assert(alive(v, v.entries[k].owner));
    }
    lemma_owned_count_zero(v.entries, s);
    lemma_place_nodes_count(v.entries, name, s, 0, v.replication_factor as nat);
}

proof fn lemma_clear_nodes_props(es: Seq<EntryV>, name: Seq<char>, i: nat, rf: nat)
    requires
        sorted(es),
        i <= rf,
    ensures
        ({
            let r = clear_nodes(es, name, i, rf);
            &&& sorted(r)
            &&& forall|k: int| 0 <= k < r.len() ==> es.contains(#[trigger] r[k])
            &&& forall|k: int, a: nat|
                0 <= k < r.len() && i <= a < rf ==> (#[trigger] r[k]).hash
                    != #[trigger] position_hash(name, a)
        }),
    decreases rf - i,
{
    if i < rf {
        let x = position_hash(name, i);
        let es1 = remove_hash(es, x);
        lemma_remove_hash_props(es, x);
        lemma_clear_nodes_props(es1, name, (i + 1) as nat, rf);
        let r = clear_nodes(es, name, i, rf);
        assert forall|k: int| 0 <= k < r.len() implies es.contains(#[trigger] r[k]) by {
            assert(es1.contains(r[k]));
            let m = choose|m: int| 0 <= m < es1.len() && es1[m] == r[k];
            assert(es.contains(es1[m]));
        }
        assert forall|k: int, a: nat|
            0 <= k < r.len() && i <= a < rf implies (#[trigger] r[k]).hash
            != #[trigger] position_hash(name, a) by {
            if a == i {
                assert(es1.contains(r[k]));
                let m = choose|m: int| 0 <= m < es1.len() && es1[m] == r[k];
                assert(es1[m].hash != x);
            }
        }
    }
}

/// Completeness of removing: afterwards no ring position resolves to the
/// removed name, and the name is no longer registered.
pub proof fn lemma_remove_completeness(v: RingV, name: Seq<char>)
    requires
        wf(v),
    ensures
        !registered(spec_remove(v, name), name),
        forall|k: int|
            0 <= k < spec_remove(v, name).entries.len() ==> spec_remove(v, name).slots[(
            #[trigger] spec_remove(v, name).entries[k]).owner]->0.name != name,
{
    let w = spec_remove(v, name);
    if !registered(v, name) {
        assert forall|k: int| 0 <= k < w.entries.len() implies w.slots[(
        #[trigger] w.entries[k]).owner]->0.name != name by {
            assert(alive(v, v.entries[k].owner));
            if v.slots[v.entries[k].owner]->0.name == name {
                lemma_find_from_exists(v.slots, name, 0, v.entries[k].owner);
            }
        }
    } else {
        let idx = find_name(v.slots, name);
        lemma_find_from_found(v.slots, name, 0);
        lemma_clear_nodes_props(v.entries, name, 0, v.replication_factor as nat);
        assert forall|k: int| 0 <= k < w.entries.len() implies w.slots[(
        #[trigger] w.entries[k]).owner]->0.name != name by {
            let e = w.entries[k];
            assert(v.entries.contains(e));
            let m = choose|m: int| 0 <= m < v.entries.len() && v.entries[m] == e;
            assert(alive(v, v.entries[m].owner));
            if e.owner == idx {
                let r = choose|r: nat|
                    r < v.replication_factor && (#[trigger] v.entries[m]).hash == position_hash(
                        v.slots[v.entries[m].owner]->0.name,
                        r,
                    );
                assert(e.hash == position_hash(name, r));
                assert(false);
            }
            assert(w.slots[e.owner] == v.slots[e.owner]);
            if v.slots[e.owner] is Some && v.slots[e.owner]->0.name == name {
                if e.owner < idx {
                    assert(v.slots[e.owner]->0.name != v.slots[idx]->0.name);
                } else {
                    assert(v.slots[idx]->0.name != v.slots[e.owner]->0.name);
                }
                assert(false);
            }
        }
        assert forall|j: int| 0 <= j < w.slots.len() implies !(w.slots[j] is Some && (
        #[trigger] w.slots[j])->0.name == name) by {
            if j != idx && v.slots[j] is Some && v.slots[j]->0.name == name {
                if j < idx {
                    assert(v.slots[j]->0.name != v.slots[idx]->0.name);
                } else {
                    assert(v.slots[idx]->0.name != v.slots[j]->0.name);
                }
            }
        }
        lemma_find_from_none(w.slots, name, 0);
    }
}

proof fn lemma_succ_preserved_remove(es: Seq<EntryV>, x: u64, h: u64)
    requires
        sorted(es),
        es.len() >= 1,
        es[succ_idx(es, h)].hash != x,
    ensures
        remove_hash(es, x).len() >= 1,
        remove_hash(es, x)[succ_idx(remove_hash(es, x), h)] == es[succ_idx(es, h)],
{
    let i0 = succ_idx(es, h);
    lemma_succ_cases(es, h);
    let r = remove_hash(es, x);
    if exists|k: int| 0 <= k < es.len() && (#[trigger] es[k]).hash == x {
        let k = choose|k: int| 0 <= k < es.len() && (#[trigger] es[k]).hash == x;
        lemma_remove_hash_at(es, x, k);
        assert(r == es.remove(k));
        assert(k != i0);
        if es[i0].hash >= h {
            let p = if k < i0 {
                i0 - 1
            } else {
                i0
            };
            assert(r[p] == es[i0]);
            assert forall|j: int| 0 <= j < p implies (#[trigger] r[j]).hash < h by {
                if j < k {
                    assert(r[j] == es[j]);
                } else {
                    assert(r[j] == es[j + 1]);
                }
            }
            lemma_succ_from_char(r, h, 0, p);
        } else {
            assert(i0 == 0);
            assert(k != 0);
            assert forall|j: int| 0 <= j < r.len() implies (#[trigger] r[j]).hash < h by {
                if j < k {
                    assert(r[j] == es[j]);
                } else {
                    assert(r[j] == es[j + 1]);
                }
            }
            lemma_succ_from_char(r, h, 0, r.len() as int);
            assert(r[0] == es[0]);
        }
    } else {
        let px = succ_idx(es, x);
        lemma_succ_cases(es, x);
        if es[px].hash >= x {
            lemma_remove_hash_at(es, x, px);
        } else {
            lemma_remove_hash_at(es, x, es.len() as int);
        }
        assert(r == es);
    }
}

proof fn lemma_succ_preserved_clear(es: Seq<EntryV>, name: Seq<char>, i: nat, rf: nat, h: u64)
    requires
        sorted(es),
        i <= rf,
        es.len() >= 1,
        forall|a: nat|
            a < rf ==> #[trigger] position_hash(name, a) != es[succ_idx(es, h)].hash,
    ensures
        clear_nodes(es, name, i, rf).len() >= 1,
        sorted(clear_nodes(es, name, i, rf)),
        clear_nodes(es, name, i, rf)[succ_idx(clear_nodes(es, name, i, rf), h)] == es[succ_idx(
            es,
            h,
        )],
    decreases rf - i,
{
    if i >= rf {
    } else {
        let x = position_hash(name, i);
        let es1 = remove_hash(es, x);
        lemma_remove_hash_props(es, x);
        lemma_succ_preserved_remove(es, x, h);
        lemma_succ_preserved_clear(es1, name, (i + 1) as nat, rf, h);
    }
}

/// Minimal disruption: removing a host leaves the plain lookup of any key
/// unchanged, as long as the key's successor position is not one of the
/// removed host's derived positions.
pub proof fn lemma_minimal_disruption(v: RingV, name: Seq<char>, h: u64)
    requires
        wf(v),
        v.entries.len() >= 1,
        forall|a: nat|
            a < v.replication_factor ==> #[trigger] position_hash(name, a) != v.entries[succ_idx(
                v.entries,
                h,
            )].hash,
    ensures
        route(spec_remove(v, name), h) == route(v, h),
{
    let w = spec_remove(v, name);
    if registered(v, name) {
        let idx = find_name(v.slots, name);
        lemma_find_from_found(v.slots, name, 0);
        let i0 = succ_idx(v.entries, h);
        let e0 = v.entries[i0];
        lemma_succ_cases(v.entries, h);
        lemma_succ_preserved_clear(v.entries, name, 0, v.replication_factor as nat, h);
        assert(w.entries[succ_idx(w.entries, h)] == e0);
        assert(alive(v, e0.owner));
        if e0.owner == idx {
            let r = choose|r: nat|
                r < v.replication_factor && (#[trigger] v.entries[i0]).hash == position_hash(
                    v.slots[v.entries[i0].owner]->0.name,
                    r,
                );
            assert(e0.hash == position_hash(name, r));
            assert(false);
        }
        assert(w.slots[e0.owner] == v.slots[e0.owner]);
        assert(route(w, h) == Some(w.slots[e0.owner]->0.name));
    }
}

/// Bounded load: whenever every registered host owns at least one ring
/// position, the bounded-load lookup never falls back — it lands on an
/// entry whose host's incremented load stays within the cap.
pub proof fn lemma_bounded_load(v: RingV, h: u64)
    requires
        wf(v),
        v.entries.len() >= 1,
        count_hosts(v.slots) >= 1,
        forall|s: int|
            #[trigger] alive(v, s) ==> exists|k: int|
                0 <= k < v.entries.len() && (#[trigger] v.entries[k]).owner == s,
    ensures
        ({
            let r = scan_from(v, succ_idx(v.entries, h), 0);
            &&& r >= 0
            &&& load_at(v, r) + 1 <= cap_of(v)
            &&& route_least(v, h) == Some(v.slots[v.entries[r].owner]->0.name)
        }),
{
    let len = v.entries.len() as int;
    let start = succ_idx(v.entries, h);
    lemma_succ_cases(v.entries, h);
    let r = scan_from(v, start, 0);
    if r == -1 {
        lemma_scan_miss(v, start, 0);
        lemma_cap_admits(v);
        let s = choose|s: int| #[trigger] alive(v, s) && v.slots[s]->0.load + 1 <= cap_of(v);
        let k = choose|k: int| 0 <= k < v.entries.len() && (#[trigger] v.entries[k]).owner == s;
        let j = if k >= start {
            k - start
        } else {
            k - start + len
        };
        assert(wrap(v, start, j) == k);
        assert(load_at(v, k) + 1 > cap_of(v));
        assert(load_at(v, k) == v.slots[s]->0.load);
        assert(false);
    } else {
        lemma_scan_found(v, start, 0);
    }
}

} // verus!
