//! Supporting lemmas about the ring model: how counting, searching and the
//! entry edits behave on sequences.

use crate::hashing::position_hash;
use crate::model::{
    alive, count_hosts, find_from, free_from, insert_entry, remove_hash, slot_count, slot_load,
    sorted, succ_from, total_load, wf, EntryV, HostV, RingV,
};
use vstd::prelude::*;

verus! {

/// Changing only the load of one registered host leaves the ring state
/// well-formed: names, ownership and order are untouched.
pub proof fn lemma_wf_reload(v: RingV, s: int, load: u64)
    requires
        wf(v),
        alive(v, s),
    ensures
        wf(
            RingV {
                slots: v.slots.update(s, Some(HostV { name: v.slots[s]->0.name, load })),
                ..v
            },
        ),
{
    let w = RingV {
        slots: v.slots.update(s, Some(HostV { name: v.slots[s]->0.name, load })),
        ..v
    };
    assert(forall|i: int|
        0 <= i < w.slots.len() ==> (#[trigger] w.slots[i]) is Some == v.slots[i] is Some);
    assert(forall|i: int|
        0 <= i < w.slots.len() && w.slots[i] is Some ==> (#[trigger] w.slots[i])->0.name
            == v.slots[i]->0.name);
    assert forall|i: int| 0 <= i < w.entries.len() implies exists|r: nat|
        r < w.replication_factor && (#[trigger] w.entries[i]).hash == position_hash(
            w.slots[w.entries[i].owner]->0.name,
            r,
        ) by {
        let r = choose|r: nat|
            r < v.replication_factor && v.entries[i].hash == position_hash(
                v.slots[v.entries[i].owner]->0.name,
                r,
            );
        assert(r < w.replication_factor && w.entries[i].hash == position_hash(
            w.slots[w.entries[i].owner]->0.name,
            r,
        ));
    }
}

/// Updating one slot shifts the host count and the aggregate load by
/// exactly the difference the slot contributes.
pub proof fn lemma_counts_update(s: Seq<Option<HostV>>, i: int, o: Option<HostV>)
    requires
        0 <= i < s.len(),
    ensures
        count_hosts(s.update(i, o)) == count_hosts(s) - slot_count(s[i]) + slot_count(o),
        total_load(s.update(i, o)) == total_load(s) - slot_load(s[i]) + slot_load(o),
    decreases s.len(),
{
    let t = s.update(i, o);
    if i == s.len() - 1 {
        assert(t.drop_last() =~= s.drop_last());
    } else {
        assert(t.drop_last() =~= s.drop_last().update(i, o));
        lemma_counts_update(s.drop_last(), i, o);
    }
}

/// Appending a slot adds exactly its contribution.
pub proof fn lemma_counts_push(s: Seq<Option<HostV>>, o: Option<HostV>)
    ensures
        count_hosts(s.push(o)) == count_hosts(s) + slot_count(o),
        total_load(s.push(o)) == total_load(s) + slot_load(o),
{
    assert(s.push(o).drop_last() =~= s);
}

/// The host count and the aggregate load are non-negative and bounded by
/// the arena size.
pub proof fn lemma_counts_bounds(s: Seq<Option<HostV>>)
    ensures
        0 <= count_hosts(s) <= s.len(),
        0 <= total_load(s) <= s.len() * (u64::MAX as int),
    decreases s.len(),
{
    if s.len() > 0 {
        lemma_counts_bounds(s.drop_last());
        assert(s.drop_last().len() * (u64::MAX as int) + (u64::MAX as int) == s.len() * (
        u64::MAX as int)) by (nonlinear_arith)
            requires
                s.drop_last().len() == s.len() - 1,
        ;
    }
}

/// A registered host's load is part of the aggregate, and a taken slot
/// makes the host count positive.
pub proof fn lemma_alive_load(s: Seq<Option<HostV>>, i: int)
    requires
        0 <= i < s.len(),
        s[i] is Some,
    ensures
        slot_load(s[i]) <= total_load(s),
        count_hosts(s) >= 1,
    decreases s.len(),
{
    lemma_counts_bounds(s.drop_last());
    if i == s.len() - 1 {
    } else {
        lemma_alive_load(s.drop_last(), i);
    }
}

/// What a successful name search returns: a live slot with that name, and
/// every earlier slot misses.
pub proof fn lemma_find_from_found(s: Seq<Option<HostV>>, name: Seq<char>, i: int)
    requires
        0 <= i <= s.len(),
        find_from(s, name, i) >= 0,
    ensures
        i <= find_from(s, name, i) < s.len(),
        s[find_from(s, name, i)] is Some,
        s[find_from(s, name, i)]->0.name == name,
        forall|j: int|
            i <= j < find_from(s, name, i) ==> !(s[j] is Some && (#[trigger] s[j])->0.name
                == name),
    decreases s.len() - i,
{
    if i < s.len() {
        if s[i] is Some && s[i]->0.name == name {
        } else {
            lemma_find_from_found(s, name, i + 1);
        }
    }
}

/// A slot that holds the name makes the search succeed.
pub proof fn lemma_find_from_exists(s: Seq<Option<HostV>>, name: Seq<char>, i: int, j: int)
    requires
        0 <= i <= j < s.len(),
        s[j] is Some,
        s[j]->0.name == name,
    ensures
        find_from(s, name, i) >= 0,
    decreases j - i,
{
    if !(s[i] is Some && s[i]->0.name == name) && i < j {
        lemma_find_from_exists(s, name, i + 1, j);
    }
}

/// When no slot from `i` on holds the name, the search fails.
pub proof fn lemma_find_from_none(s: Seq<Option<HostV>>, name: Seq<char>, i: int)
    requires
        0 <= i <= s.len(),
        forall|j: int| i <= j < s.len() ==> !(s[j] is Some && (#[trigger] s[j])->0.name == name),
    ensures
        find_from(s, name, i) == -1,
    decreases s.len() - i,
{
    if i < s.len() {
        lemma_find_from_none(s, name, i + 1);
    }
}

/// What the free-slot search returns: everything before it is taken, and it
/// is free unless it is the arena's end.
pub proof fn lemma_free_from(s: Seq<Option<HostV>>, i: int)
    requires
        0 <= i <= s.len(),
    ensures
        i <= free_from(s, i) <= s.len(),
        free_from(s, i) < s.len() ==> s[free_from(s, i)] is None,
        forall|j: int| i <= j < free_from(s, i) ==> (#[trigger] s[j]) is Some,
    decreases s.len() - i,
{
    if i < s.len() && !(s[i] is None) {
        lemma_free_from(s, i + 1);
    }
}

/// What inserting one entry does to a sorted sequence: the order is kept,
/// the new entry is present and owns its hash, every other entry is kept,
/// and nothing else appears.
pub proof fn lemma_insert_entry_props(es: Seq<EntryV>, e: EntryV)
    requires
        sorted(es),
    ensures
        ({
            let r = insert_entry(es, e);
            &&& sorted(r)
            &&& r.contains(e)
            &&& forall|k: int| 0 <= k < r.len() ==> r[k] == e || es.contains(#[trigger] r[k])
            &&& forall|k: int|
                0 <= k < es.len() && (#[trigger] es[k]).hash != e.hash ==> r.contains(es[k])
            &&& forall|k: int| 0 <= k < r.len() && (#[trigger] r[k]).hash == e.hash ==> r[k] == e
            &&& r.len() == es.len() + if exists|k: int|
                0 <= k < es.len() && (#[trigger] es[k]).hash == e.hash {
                0int
            } else {
                1int
            }
        }),
    decreases es.len(),
{
    let r = insert_entry(es, e);
    if es.len() == 0 {
        assert(r =~= seq![e]);
        assert(r[0] == e);
    } else if e.hash < es[0].hash {
        assert(r =~= seq![e] + es);
        assert(r[0] == e);
        assert forall|k: int| 0 <= k < es.len() implies r.contains(es[k]) by {
            assert(r[k + 1] == es[k]);
        }
    } else if e.hash == es[0].hash {
        assert(r =~= seq![e] + es.drop_first());
        assert(r[0] == e);
        assert forall|k: int|
            0 <= k < es.len() && (#[trigger] es[k]).hash != e.hash implies r.contains(es[k]) by {
            assert(k != 0);
            assert(r[k] == es[k]);
        }
        assert(es[0].hash == e.hash);
    } else {
        let tail = es.drop_first();
        let rt = insert_entry(tail, e);
        lemma_insert_entry_props(tail, e);
        assert(r =~= seq![es[0]] + rt);
        assert(rt.contains(e));
        let w = choose|w: int| 0 <= w < rt.len() && rt[w] == e;
        assert(r[w + 1] == e);
        assert(r.contains(e));
        assert forall|k: int| 0 <= k < r.len() implies r[k] == e || es.contains(#[trigger] r[k]) by {
            if k == 0 {
                assert(es.contains(es[0]));
            } else {
                assert(r[k] == rt[k - 1]);
                if rt[k - 1] == e {
                } else {
                    let m = choose|m: int| 0 <= m < tail.len() && tail[m] == rt[k - 1];
                    assert(es[m + 1] == tail[m]);
                }
            }
        }
        assert forall|k: int|
            0 <= k < es.len() && (#[trigger] es[k]).hash != e.hash implies r.contains(es[k]) by {
            if k == 0 {
                assert(r[0] == es[0]);
            } else {
                assert(tail[k - 1] == es[k]);
                assert(rt.contains(es[k]));
                let m = choose|m: int| 0 <= m < rt.len() && rt[m] == es[k];
                assert(r[m + 1] == es[k]);
            }
        }
        // order: head is below everything that follows it
        assert forall|k: int| 0 <= k < rt.len() implies es[0].hash < (#[trigger] rt[k]).hash by {
            if rt[k] == e {
            } else {
                let m = choose|m: int| 0 <= m < tail.len() && tail[m] == rt[k];
                assert(es[m + 1] == tail[m]);
            }
        }
        assert(sorted(r));
        if exists|k: int| 0 <= k < es.len() && (#[trigger] es[k]).hash == e.hash {
            let k = choose|k: int| 0 <= k < es.len() && (#[trigger] es[k]).hash == e.hash;
            assert(k != 0);
            assert(tail[k - 1] == es[k]);
            assert(r.len() == es.len());
        } else {
            assert(forall|k: int| 0 <= k < tail.len() ==> (#[trigger] tail[k]) == es[k + 1]);
            assert(r.len() == es.len() + 1);
        }
    }
}

/// What deleting one hash does to a sorted sequence: the order is kept, the
/// hash is gone, and every other entry is kept.
pub proof fn lemma_remove_hash_props(es: Seq<EntryV>, h: u64)
    requires
        sorted(es),
    ensures
        ({
            let r = remove_hash(es, h);
            &&& sorted(r)
            &&& forall|k: int| 0 <= k < r.len() ==> es.contains(#[trigger] r[k])
            &&& forall|k: int| 0 <= k < r.len() ==> (#[trigger] r[k]).hash != h
            &&& forall|k: int|
                0 <= k < es.len() && (#[trigger] es[k]).hash != h ==> r.contains(es[k])
            &&& es.len() - 1 <= r.len() <= es.len()
        }),
    decreases es.len(),
{
    let r = remove_hash(es, h);
    if es.len() == 0 {
    } else if es[0].hash == h {
        assert(r =~= es.drop_first());
        assert forall|k: int| 0 <= k < r.len() implies es.contains(#[trigger] r[k]) by {
            assert(es[k + 1] == r[k]);
        }
        assert forall|k: int| 0 <= k < r.len() implies (#[trigger] r[k]).hash != h by {
            assert(es[k + 1] == r[k]);
            assert(es[0].hash < es[k + 1].hash);
        }
        assert forall|k: int|
            0 <= k < es.len() && (#[trigger] es[k]).hash != h implies r.contains(es[k]) by {
            assert(k != 0);
            assert(r[k - 1] == es[k]);
        }
    } else {
        let tail = es.drop_first();
        let rt = remove_hash(tail, h);
        lemma_remove_hash_props(tail, h);
        assert(r =~= seq![es[0]] + rt);
        assert forall|k: int| 0 <= k < r.len() implies es.contains(#[trigger] r[k]) by {
            if k == 0 {
                assert(es[0] == r[0]);
            } else {
                assert(rt[k - 1] == r[k]);
                let m = choose|m: int| 0 <= m < tail.len() && tail[m] == rt[k - 1];
                assert(es[m + 1] == tail[m]);
            }
        }
        assert forall|k: int| 0 <= k < r.len() implies (#[trigger] r[k]).hash != h by {
            if k > 0 {
                assert(rt[k - 1] == r[k]);
            }
        }
        assert forall|k: int|
            0 <= k < es.len() && (#[trigger] es[k]).hash != h implies r.contains(es[k]) by {
            if k == 0 {
                assert(r[0] == es[0]);
            } else {
                assert(tail[k - 1] == es[k]);
                assert(rt.contains(es[k]));
                let m = choose|m: int| 0 <= m < rt.len() && rt[m] == es[k];
                assert(r[m + 1] == es[k]);
            }
        }
        assert forall|k: int| 0 <= k < rt.len() implies es[0].hash < (#[trigger] rt[k]).hash by {
            let m = choose|m: int| 0 <= m < tail.len() && tail[m] == rt[k];
            assert(es[m + 1] == tail[m]);
        }
        assert(sorted(r));
    }
}

/// Where the first entry at or above `e.hash` sits at `p`, inserting is an
/// in-place overwrite (on an exact hit) or a splice at `p`.
pub proof fn lemma_insert_entry_at(es: Seq<EntryV>, e: EntryV, p: int)
    requires
        sorted(es),
        0 <= p <= es.len(),
        forall|j: int| 0 <= j < p ==> (#[trigger] es[j]).hash < e.hash,
        p < es.len() ==> es[p].hash >= e.hash,
    ensures
        p < es.len() && es[p].hash == e.hash ==> insert_entry(es, e) == es.update(p, e),
        p == es.len() || es[p].hash > e.hash ==> insert_entry(es, e) == es.take(p) + seq![e]
            + es.skip(p),
    decreases es.len(),
{
    let r = insert_entry(es, e);
    if es.len() == 0 {
        assert(r =~= es.take(0) + seq![e] + es.skip(0));
    } else if p == 0 {
        if es[0].hash == e.hash {
            assert(r =~= es.update(0, e));
        } else {
            assert(r =~= es.take(0) + seq![e] + es.skip(0));
        }
    } else {
        let tail = es.drop_first();
        lemma_insert_entry_at(tail, e, p - 1);
        assert(es[0].hash < e.hash);
        assert(r == seq![es[0]] + insert_entry(tail, e));
        if p < es.len() && es[p].hash == e.hash {
            assert(tail[p - 1] == es[p]);
            assert(insert_entry(tail, e) == tail.update(p - 1, e));
            assert(seq![es[0]] + tail.update(p - 1, e) =~= es.update(p, e));
        } else {
            assert(insert_entry(tail, e) == tail.take(p - 1) + seq![e] + tail.skip(p - 1));
            assert(seq![es[0]] + (tail.take(p - 1) + seq![e] + tail.skip(p - 1)) =~= es.take(p)
                + seq![e] + es.skip(p));
        }
    }
}

/// Where the first entry at or above `h` sits at `p`, deleting `h` removes
/// exactly that entry (on an exact hit) or nothing.
pub proof fn lemma_remove_hash_at(es: Seq<EntryV>, h: u64, p: int)
    requires
        sorted(es),
        0 <= p <= es.len(),
        forall|j: int| 0 <= j < p ==> (#[trigger] es[j]).hash < h,
        p < es.len() ==> es[p].hash >= h,
    ensures
        p < es.len() && es[p].hash == h ==> remove_hash(es, h) == es.remove(p),
        p == es.len() || es[p].hash > h ==> remove_hash(es, h) == es,
    decreases es.len(),
{
    let r = remove_hash(es, h);
    if es.len() == 0 {
    } else if p == 0 {
        if es[0].hash == h {
            assert(r =~= es.remove(0));
        } else {
            let tail = es.drop_first();
            lemma_remove_hash_at(tail, h, 0);
            assert(remove_hash(tail, h) == tail);
            assert(seq![es[0]] + tail =~= es);
        }
    } else {
        let tail = es.drop_first();
        lemma_remove_hash_at(tail, h, p - 1);
        assert(es[0].hash < h);
        assert(r == seq![es[0]] + remove_hash(tail, h));
        if p < es.len() && es[p].hash == h {
            assert(tail[p - 1] == es[p]);
            assert(remove_hash(tail, h) == tail.remove(p - 1));
            assert(seq![es[0]] + tail.remove(p - 1) =~= es.remove(p));
        } else {
            assert(remove_hash(tail, h) == tail);
            assert(seq![es[0]] + tail =~= es);
        }
    }
}

/// The successor search lands on `p`, the first index whose hash reaches
/// `h`, or wraps to zero when no hash does.
pub proof fn lemma_succ_from_char(es: Seq<EntryV>, h: u64, i: int, p: int)
    requires
        0 <= i <= p <= es.len(),
        forall|j: int| i <= j < p ==> (#[trigger] es[j]).hash < h,
        p < es.len() ==> es[p].hash >= h,
    ensures
        succ_from(es, h, i) == if p < es.len() {
            p
        } else {
            0
        },
    decreases p - i,
{
    if i < p {
        lemma_succ_from_char(es, h, i + 1, p);
    }
}

} // verus!
