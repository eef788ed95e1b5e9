//! The executable consistent-hashing ring.

use crate::hashing::{hash_of, hash_str, position_hash, position_of};
use crate::lemmas::{
    lemma_alive_load, lemma_counts_bounds, lemma_counts_push, lemma_counts_update,
    lemma_find_from_exists, lemma_free_from, lemma_insert_entry_at, lemma_insert_entry_props,
    lemma_remove_hash_at, lemma_remove_hash_props, lemma_succ_from_char, lemma_wf_reload,
};
use crate::model::{
    alive, cap_of, clear_nodes, count_hosts, find_from, find_name, free_from, free_slot,
    insert_entry, load_at, names_of, names_unique, owners_ok, place_nodes, placed, registered,
    remove_hash, route, route_least, scan_from, slot_load, sorted, spec_add, spec_decr_load,
    spec_inc_load, spec_remove, spec_set_load, succ_idx, total_load, wf, wrap, EntryV,
    HostV, RingV,
};
use crate::Config;
use vstd::prelude::*;

verus! {

/// One virtual node: a point on the hash circle and the arena slot of the
/// host that owns it.
struct Entry {
    hash: u64,
    owner: usize,
}

/// A registered host: a unique name and a load counter.
pub struct Host {
    name: String,
    load: u64,
}

/// A consistent-hashing ring over a dynamic set of named hosts.
///
/// Hosts live in an indexed arena; the sorted entry table maps each virtual
/// node's hash to the arena slot of its owner.
pub struct Ring {
    config: Config,
    /// Virtual nodes in strictly ascending hash order.
    entries: Vec<Entry>,
    /// The host arena; freed slots are reused by later adds.
    slots: Vec<Option<Host>>,
    /// How many slots are taken.
    n_hosts: usize,
    /// The aggregate load, kept in sync with every per-host mutation.
    total: u64,
}

impl View for Ring {
    type V = RingV;

    closed spec fn view(&self) -> RingV {
        RingV {
            entries: self.entries@.map_values(
                |e: Entry| EntryV { hash: e.hash, owner: e.owner as int },
            ),
            slots: self.slots@.map_values(
                |o: Option<Host>| match o {
                    Some(h) => Some(HostV { name: h.name@, load: h.load }),
                    None => None,
                },
            ),
            replication_factor: self.config.replication_factor,
            load_factor_num: self.config.load_factor_num,
            load_factor_den: self.config.load_factor_den,
        }
    }
}

impl Ring {
    /// The ring's internal invariant: a well-formed model state whose
    /// cached host count and aggregate load agree with the arena.
    pub closed spec fn inv(self) -> bool {
        &&& wf(self@)
        &&& self.n_hosts as int == count_hosts(self@.slots)
        &&& self.total as int == total_load(self@.slots)
    }

    /// Creates an empty ring with the given configuration.
    pub fn new(config: Config) -> (r: Ring)
        requires
            config.wf(),
        ensures
            r.inv(),
            r@.entries.len() == 0,
            r@.slots.len() == 0,
            r@.replication_factor == config.replication_factor,
            r@.load_factor_num == config.load_factor_num,
            r@.load_factor_den == config.load_factor_den,
    {
        let r = Ring {
            config,
            entries: Vec::new(),
            slots: Vec::new(),
            n_hosts: 0,
            total: 0,
        };
        proof {
            assert(r@.entries =~= Seq::<EntryV>::empty());
            assert(r@.slots =~= Seq::<Option<HostV>>::empty());
        }
        r
    }

    /// How many virtual nodes each host gets.
    pub fn replication_factor(&self) -> (rf: u64)
        ensures
            rf == self@.replication_factor,
    {
        self.config.replication_factor
    }

    /// How many virtual nodes stand on the circle.
    pub fn position_count(&self) -> (n: usize)
        ensures
            n == self@.entries.len(),
    {
        self.entries.len()
    }

    /// The arena slot of the host named `name`, if one is registered.
    fn find_host(&self, name: &str) -> (r: Option<usize>)
        ensures
            match r {
                Some(i) => {
                    &&& find_name(self@.slots, name@) == i as int
                    &&& alive(self@, i as int)
                    &&& self@.slots[i as int]->0.name == name@
                },
                None => find_name(self@.slots, name@) < 0,
            },
    {
        let key: String = name.to_owned();
        let n = self.slots.len();
        let mut i: usize = 0;
        while i < n
            invariant
                n == self.slots.len(),
                0 <= i <= n,
                key@ == name@,
                find_from(self@.slots, name@, 0) == find_from(self@.slots, name@, i as int),
            decreases n - i,
        {
            match &self.slots[i] {
                Some(h) => {
                    if h.name == key {
                        return Some(i);
                    }
                },
                None => {},
            }
            i = i + 1;
        }
        None
    }

    /// The first index whose entry hash is at least `h`, or the entry count
    /// when every hash is below `h`, found by binary search over the sorted
    /// table.
    fn lower_bound(&self, h: u64) -> (p: usize)
        requires
            sorted(self@.entries),
        ensures
            0 <= p <= self@.entries.len(),
            forall|j: int| 0 <= j < p ==> (#[trigger] self@.entries[j]).hash < h,
            p < self@.entries.len() ==> self@.entries[p as int].hash >= h,
    {
        let mut lo: usize = 0;
        let mut hi: usize = self.entries.len();
        while lo < hi
            invariant
                0 <= lo <= hi <= self@.entries.len(),
                sorted(self@.entries),
                forall|j: int| 0 <= j < lo ==> (#[trigger] self@.entries[j]).hash < h,
                forall|j: int|
                    hi <= j < self@.entries.len() ==> (#[trigger] self@.entries[j]).hash >= h,
            decreases hi - lo,
        {
            let mid = lo + (hi - lo) / 2;
            if self.entries[mid].hash < h {
                proof {
                    assert forall|j: int| 0 <= j < mid + 1 implies (
                    #[trigger] self@.entries[j]).hash < h by {
                        if j < mid {
                            assert(self@.entries[j].hash < self@.entries[mid as int].hash);
                        }
                    }
                }
                lo = mid + 1;
            } else {
                proof {
                    assert forall|j: int|
                        mid <= j < self@.entries.len() implies (
                    #[trigger] self@.entries[j]).hash >= h by {
                        if j > mid {
                            assert(self@.entries[mid as int].hash < self@.entries[j].hash);
                        }
                    }
                }
                hi = mid;
            }
        }
        lo
    }

    /// Splices one virtual node into the sorted entry table; an exact hash
    /// hit hands the bucket to the new owner (last writer wins).
    fn insert_position(&mut self, h: u64, owner: usize)
        requires
            sorted(old(self)@.entries),
        ensures
            final(self)@.entries == insert_entry(
                old(self)@.entries,
                EntryV { hash: h, owner: owner as int },
            ),
            final(self)@.slots == old(self)@.slots,
            final(self)@.replication_factor == old(self)@.replication_factor,
            final(self)@.load_factor_num == old(self)@.load_factor_num,
            final(self)@.load_factor_den == old(self)@.load_factor_den,
            final(self).n_hosts == old(self).n_hosts,
            final(self).total == old(self).total,
    {
        let ghost e = EntryV { hash: h, owner: owner as int };
        let p = self.lower_bound(h);
        proof {
            lemma_insert_entry_at(old(self)@.entries, e, p as int);
        }
        let hit = p < self.entries.len() && self.entries[p].hash == h;
        if hit {
            self.entries[p] = Entry { hash: h, owner };
            proof {
                assert(self@.entries =~= old(self)@.entries.update(p as int, e));
            }
        } else {
            self.entries.insert(p, Entry { hash: h, owner });
            proof {
                assert(self@.entries =~= old(self)@.entries.take(p as int) + seq![e] + old(
                    self,
                )@.entries.skip(p as int));
            }
        }
    }

    /// Deletes the virtual node at hash `h` from the entry table; a hash
    /// that is not there (a position already absent) is skipped quietly.
    fn remove_position(&mut self, h: u64)
        requires
            sorted(old(self)@.entries),
        ensures
            final(self)@.entries == remove_hash(old(self)@.entries, h),
            final(self)@.slots == old(self)@.slots,
            final(self)@.replication_factor == old(self)@.replication_factor,
            final(self)@.load_factor_num == old(self)@.load_factor_num,
            final(self)@.load_factor_den == old(self)@.load_factor_den,
            final(self).n_hosts == old(self).n_hosts,
            final(self).total == old(self).total,
    {
        let p = self.lower_bound(h);
        proof {
            lemma_remove_hash_at(old(self)@.entries, h, p as int);
        }
        let hit = p < self.entries.len() && self.entries[p].hash == h;
        if hit {
            self.entries.remove(p);
            proof {
                assert(self@.entries =~= old(self)@.entries.remove(p as int));
            }
        } else {
            proof {
                assert(self@.entries =~= old(self)@.entries);
            }
        }
    }

    /// The slot a new host takes: the first free one, or the arena's end.
    fn free_slot_index(&self) -> (s: usize)
        ensures
            s as int == free_slot(self@.slots),
            s <= self@.slots.len(),
    {
        let n = self.slots.len();
        let mut i: usize = 0;
        while i < n
            invariant
                n == self.slots.len(),
                0 <= i <= n,
                free_from(self@.slots, 0) == free_from(self@.slots, i as int),
            decreases n - i,
        {
            match &self.slots[i] {
                None => {
                    return i;
                },
                Some(_) => {},
            }
            i = i + 1;
        }
        n
    }

    /// Adds a host: registers it under the first free arena slot with load
    /// zero and places its `replication_factor` virtual nodes on the
    /// circle.  Adding a name that is already registered changes nothing.
    pub fn add(&mut self, hostname: &str)
        requires
            old(self).inv(),
        ensures
            final(self).inv(),
            final(self)@ == spec_add(old(self)@, hostname@),
    {
        let ghost v0 = self@;
        if self.find_host(hostname).is_some() {
            return;
        }
        let s = self.free_slot_index();
        let ghost hv: Option<HostV> = Some(HostV { name: hostname@, load: 0 });
        proof {
            lemma_free_from(v0.slots, 0);
            lemma_counts_bounds(v0.slots);
        }
        let host = Host { name: hostname.to_owned(), load: 0 };
        if s < self.slots.len() {
            self.slots[s] = Some(host);
            proof {
                assert(self@.slots =~= v0.slots.update(s as int, hv));
                lemma_counts_update(v0.slots, s as int, hv);
            }
        } else {
            self.slots.push(Some(host));
            proof {
                assert(self@.slots =~= v0.slots.push(hv));
                lemma_counts_push(v0.slots, hv);
            }
        }
        proof {
            lemma_counts_bounds(self@.slots);
            // the taken slot bears the new name; no live slot did before
            assert forall|a: int, b: int|
                0 <= a < b < self@.slots.len() && self@.slots[a] is Some && self@.slots[b] is Some
                    implies self@.slots[a]->0.name != self@.slots[b]->0.name by {
                if a == s as int {
                    if v0.slots[b] is Some && v0.slots[b]->0.name == hostname@ {
                        lemma_find_from_exists(v0.slots, hostname@, 0, b);
                    }
                } else if b == s as int {
                    if v0.slots[a] is Some && v0.slots[a]->0.name == hostname@ {
                        lemma_find_from_exists(v0.slots, hostname@, 0, a);
                    }
                }
            }
            assert(owners_ok(self@));
            assert(placed(self@));
        }
        let arena = self.slots.len();
        proof {
            assert(self@.slots.len() == arena as int);
            assert(self.n_hosts as int + 1 == count_hosts(self@.slots));
            assert(count_hosts(self@.slots) <= self@.slots.len());
        }
        self.n_hosts = self.n_hosts + 1;
        let rf = self.config.replication_factor;
        let ghost v1 = self@;
        let mut i: u64 = 0;
        while i < rf
            invariant
                0 <= i <= rf,
                self.inv(),
                rf == self@.replication_factor,
                self@.slots == v1.slots,
                self@.replication_factor == v1.replication_factor,
                self@.load_factor_num == v1.load_factor_num,
                self@.load_factor_den == v1.load_factor_den,
                0 <= s < self@.slots.len(),
                self@.slots[s as int] is Some,
                self@.slots[s as int]->0.name == hostname@,
                place_nodes(self@.entries, hostname@, s as int, i as nat, rf as nat)
                    == place_nodes(v1.entries, hostname@, s as int, 0, rf as nat),
            decreases rf - i,
        {
            let ghost pre = self@;
            let h = position_of(hostname, i);
            let ghost e = EntryV { hash: h, owner: s as int };
            proof {
                lemma_insert_entry_props(pre.entries, e);
            }
            self.insert_position(h, s);
            proof {
                let cur = self@;
                assert forall|k: int| 0 <= k < cur.entries.len() implies alive(
                    cur,
                    (#[trigger] cur.entries[k]).owner,
                ) by {
                    if cur.entries[k] == e {
                    } else {
                        assert(pre.entries.contains(cur.entries[k]));
                        let m = choose|m: int|
                            0 <= m < pre.entries.len() && pre.entries[m] == cur.entries[k];
                        assert(alive(pre, pre.entries[m].owner));
                    }
                }
                assert forall|k: int| 0 <= k < cur.entries.len() implies exists|r: nat|
                    r < cur.replication_factor && (#[trigger] cur.entries[k]).hash
                        == position_hash(cur.slots[cur.entries[k].owner]->0.name, r) by {
                    if cur.entries[k] == e {
                        assert(e.hash == position_hash(hostname@, i as nat));
                        assert((i as nat) < cur.replication_factor);
                    } else {
                        assert(pre.entries.contains(cur.entries[k]));
                        let m = choose|m: int|
                            0 <= m < pre.entries.len() && pre.entries[m] == cur.entries[k];
                        let r = choose|r: nat|
                            r < pre.replication_factor && pre.entries[m].hash == position_hash(
                                pre.slots[pre.entries[m].owner]->0.name,
                                r,
                            );
                        assert(r < cur.replication_factor && cur.entries[k].hash == position_hash(
                            cur.slots[cur.entries[k].owner]->0.name,
                            r,
                        ));
                    }
                }
                assert(place_nodes(pre.entries, hostname@, s as int, i as nat, rf as nat)
                    == place_nodes(cur.entries, hostname@, s as int, (i + 1) as nat, rf as nat));
            }
            i = i + 1;
        }
        proof {
            assert(self@.entries == place_nodes(v1.entries, hostname@, s as int, 0, rf as nat));
            assert(v1.entries == v0.entries);
            assert(self@ == spec_add(v0, hostname@));
        }
    }

    /// Removes a host: deletes its derived ring positions (skipping any
    /// already absent, as after a hash collision) and frees its slot.
    /// Removing a name that is not registered changes nothing.
    pub fn remove(&mut self, hostname: &str)
        requires
            old(self).inv(),
        ensures
            final(self).inv(),
            final(self)@ == spec_remove(old(self)@, hostname@),
    {
        let ghost v0 = self@;
        let idx = match self.find_host(hostname) {
            None => {
                return;
            },
            Some(i) => i,
        };
        let rf = self.config.replication_factor;
        let mut i: u64 = 0;
        while i < rf
            invariant
                0 <= i <= rf,
                self.inv(),
                rf == self@.replication_factor,
                self@.slots == v0.slots,
                self@.replication_factor == v0.replication_factor,
                self@.load_factor_num == v0.load_factor_num,
                self@.load_factor_den == v0.load_factor_den,
                self.n_hosts as int == count_hosts(v0.slots),
                self.total as int == total_load(v0.slots),
                clear_nodes(self@.entries, hostname@, i as nat, rf as nat) == clear_nodes(
                    v0.entries,
                    hostname@,
                    0,
                    rf as nat,
                ),
                forall|j: nat, k: int|
                    j < i && 0 <= k < self@.entries.len() ==> (#[trigger] self@.entries[k]).hash
                        != #[trigger] position_hash(hostname@, j),
            decreases rf - i,
        {
            let ghost pre = self@;
            let h = position_of(hostname, i);
            proof {
                lemma_remove_hash_props(pre.entries, h);
            }
            self.remove_position(h);
            proof {
                let cur = self@;
                assert forall|k: int| 0 <= k < cur.entries.len() implies alive(
                    cur,
                    (#[trigger] cur.entries[k]).owner,
                ) by {
                    assert(pre.entries.contains(cur.entries[k]));
                    let m = choose|m: int|
                        0 <= m < pre.entries.len() && pre.entries[m] == cur.entries[k];
                    assert(alive(pre, pre.entries[m].owner));
                }
                assert forall|k: int| 0 <= k < cur.entries.len() implies exists|r: nat|
                    r < cur.replication_factor && (#[trigger] cur.entries[k]).hash
                        == position_hash(cur.slots[cur.entries[k].owner]->0.name, r) by {
                    assert(pre.entries.contains(cur.entries[k]));
                    let m = choose|m: int|
                        0 <= m < pre.entries.len() && pre.entries[m] == cur.entries[k];
                    let r = choose|r: nat|
                        r < pre.replication_factor && pre.entries[m].hash == position_hash(
                            pre.slots[pre.entries[m].owner]->0.name,
                            r,
                        );
                    assert(r < cur.replication_factor && cur.entries[k].hash == position_hash(
                        cur.slots[cur.entries[k].owner]->0.name,
                        r,
                    ));
                }
                assert forall|j: nat, k: int|
                    j < i + 1 && 0 <= k < cur.entries.len() implies (#[trigger] cur.entries[k]).hash
                        != #[trigger] position_hash(hostname@, j) by {
                    assert(pre.entries.contains(cur.entries[k]));
                    let m = choose|m: int|
                        0 <= m < pre.entries.len() && pre.entries[m] == cur.entries[k];
                    if j < i {
                        assert(pre.entries[m].hash != position_hash(hostname@, j));
                    }
                }
                assert(clear_nodes(pre.entries, hostname@, i as nat, rf as nat) == clear_nodes(
                    cur.entries,
                    hostname@,
                    (i + 1) as nat,
                    rf as nat,
                ));
            }
            i = i + 1;
        }
        let load = match &self.slots[idx] {
            Some(h) => h.load,
            None => 0,
        };
        proof {
            lemma_alive_load(self@.slots, idx as int);
        }
        self.total = self.total - load;
        self.slots[idx] = None;
        self.n_hosts = self.n_hosts - 1;
        proof {
            let ghost mid = self@;
            assert(mid.slots =~= v0.slots.update(idx as int, None));
            lemma_counts_update(v0.slots, idx as int, None);
            // no surviving entry is owned by the freed slot: all its derived
            // positions are gone and it owned no others
            assert forall|k: int| 0 <= k < mid.entries.len() implies alive(
                mid,
                (#[trigger] mid.entries[k]).owner,
            ) by {
                if mid.entries[k].owner == idx as int {
                    let r = choose|r: nat|
                        r < v0.replication_factor && mid.entries[k].hash == position_hash(
                            v0.slots[mid.entries[k].owner]->0.name,
                            r,
                        );
                    assert(mid.entries[k].hash == position_hash(hostname@, r));
                    assert(false);
                }
            }
            assert forall|k: int| 0 <= k < mid.entries.len() implies exists|r: nat|
                r < mid.replication_factor && (#[trigger] mid.entries[k]).hash == position_hash(
                    mid.slots[mid.entries[k].owner]->0.name,
                    r,
                ) by {
                let r = choose|r: nat|
                    r < v0.replication_factor && mid.entries[k].hash == position_hash(
                        v0.slots[mid.entries[k].owner]->0.name,
                        r,
                    );
                assert(mid.entries[k].owner != idx as int);
                assert(r < mid.replication_factor && mid.entries[k].hash == position_hash(
                    mid.slots[mid.entries[k].owner]->0.name,
                    r,
                ));
            }
            assert(self@ == spec_remove(v0, hostname@));
        }
    }

    /// The index of the successor entry of `h`: the first entry at or
    /// clockwise after it, wrapping to the smallest hash.
    fn search(&self, h: u64) -> (i: usize)
        requires
            self@.entries.len() >= 1,
            sorted(self@.entries),
        ensures
            i as int == succ_idx(self@.entries, h),
            i < self@.entries.len(),
    {
        let p = self.lower_bound(h);
        proof {
            lemma_succ_from_char(self@.entries, h, 0, p as int);
        }
        if p < self.entries.len() {
            p
        } else {
            0
        }
    }

    /// Routes a key: the host owning the successor position of the key's
    /// hash, or nothing while the circle is empty.  For a fixed ring state
    /// the result is a function of the key alone.
    pub fn get(&self, key: &str) -> (r: Option<String>)
        requires
            self.inv(),
        ensures
            match r {
                Some(name) => route(self@, hash_of(key@)) == Some(name@),
                None => route(self@, hash_of(key@)) is None,
            },
    {
        if self.entries.len() == 0 {
            return None;
        }
        let h = hash_str(key);
        let i = self.search(h);
        let owner = self.entries[i].owner;
        proof {
            assert(alive(self@, self@.entries[i as int].owner));
        }
        match &self.slots[owner] {
            Some(host) => Some(host.name.clone()),
            None => None,  // not reached: every entry is owned by a live slot
        }
    }

    /// The bounded-load cap, computed exactly in wide arithmetic.
    fn cap(&self) -> (c: u128)
        requires
            self.inv(),
        ensures
            c as int == cap_of(self@),
    {
        let hc: u128 = if self.n_hosts >= 1 {
            self.n_hosts as u128
        } else {
            1
        };
        let num = self.config.load_factor_num as u128;
        let den = self.config.load_factor_den as u128;
        proof {
            lemma_counts_bounds(self@.slots);
            assert((self.total as int + 1) * (num as int) <= (u64::MAX as int + 1) * (
            u64::MAX as int)) by (nonlinear_arith)
                requires
                    0 <= self.total as int <= u64::MAX as int,
                    0 <= num as int <= u64::MAX as int,
            ;
            assert((hc as int) * (den as int) <= (u64::MAX as int) * (u64::MAX as int))
                by (nonlinear_arith)
                requires
                    0 <= hc as int <= u64::MAX as int,
                    0 <= den as int <= u64::MAX as int,
            ;
            assert((hc as int) * (den as int) >= 1) by (nonlinear_arith)
                requires
                    hc as int >= 1,
                    den as int >= 1,
            ;
        }
        let x: u128 = (self.total as u128 + 1) * num;
        let d: u128 = hc * den;
        let q = x / d;
        let r = x % d;
        proof {
            vstd::arithmetic::div_mod::lemma_div_nonincreasing(x as int, d as int);
        }
        if r == 0 {
            q
        } else {
            q + 1
        }
    }

    /// The per-host cap on load: the mean load (biased by the one unit the
    /// pending placement would add) scaled by the load factor and rounded
    /// up; never below one, so every host can accept some load.  Saturates
    /// at the machine-word limit.
    pub fn avg_load(&self) -> (c: u64)
        requires
            self.inv(),
        ensures
            cap_of(self@) <= u64::MAX ==> c as int == cap_of(self@),
            cap_of(self@) > u64::MAX ==> c == u64::MAX,
    {
        let c = self.cap();
        if c > u64::MAX as u128 {
            u64::MAX
        } else {
            c as u64
        }
    }

    /// Routes a key preferring hosts with spare capacity: walks clockwise
    /// from the key's successor position and returns the first host whose
    /// incremented load stays within the cap, falling back to the plain
    /// successor after a fruitless full sweep.  Nothing while the circle is
    /// empty.
    pub fn get_least(&self, key: &str) -> (r: Option<String>)
        requires
            self.inv(),
        ensures
            match r {
                Some(name) => route_least(self@, hash_of(key@)) == Some(name@),
                None => route_least(self@, hash_of(key@)) is None,
            },
    {
        if self.entries.len() == 0 {
            return None;
        }
        let c = self.cap();
        let h = hash_str(key);
        let start = self.search(h);
        let n = self.entries.len();
        let mut j: usize = 0;
        while j < n
            invariant
                self.inv(),
                n == self@.entries.len(),
                1 <= n,
                0 <= start < n,
                0 <= j <= n,
                c as int == cap_of(self@),
                h == hash_of(key@),
                start as int == succ_idx(self@.entries, h),
                scan_from(self@, start as int, 0) == scan_from(self@, start as int, j as int),
            decreases n - j,
        {
            let k = if j < n - start {
                start + j
            } else {
                j - (n - start)
            };
            proof {
                assert(k as int == wrap(self@, start as int, j as int));
            }
            let owner = self.entries[k].owner;
            proof {
                assert(alive(self@, self@.entries[k as int].owner));
            }
            let load = match &self.slots[owner] {
                Some(host) => host.load,
                None => 0,  // not reached: every entry is owned by a live slot
            };
            proof {
                assert(load == load_at(self@, k as int));
            }
            if load as u128 + 1 <= c {
                proof {
                    assert(scan_from(self@, start as int, j as int) == k as int);
                    assert(scan_from(self@, start as int, 0) == k as int);
                }
                match &self.slots[owner] {
                    Some(host) => {
                        proof {
                            assert(self@.slots[self@.entries[k as int].owner] is Some);
                            assert(self@.slots[self@.entries[k as int].owner]->0.name
                                == host.name@);
                            assert(route_least(self@, hash_of(key@)) == Some(
                                self@.slots[self@.entries[k as int].owner]->0.name,
                            ));
                        }
                        return Some(host.name.clone());
                    },
                    None => {
                        return None;  // not reached
                    },
                }
            }
            j = j + 1;
        }
        // a full sweep found no spare capacity: the plain successor stands
        let owner = self.entries[start].owner;
        proof {
            assert(alive(self@, self@.entries[start as int].owner));
        }
        match &self.slots[owner] {
            Some(host) => Some(host.name.clone()),
            None => None,  // not reached
        }
    }

    /// Replaces a host's load, keeping the aggregate in step.  Reports
    /// whether the load was applied: an unknown name is a no-op, as is a
    /// value that would push the aggregate past the machine-word limit.
    pub fn set_load(&mut self, hostname: &str, load: u64) -> (applied: bool)
        requires
            old(self).inv(),
        ensures
            final(self).inv(),
            final(self)@ == spec_set_load(old(self)@, hostname@, load),
            applied == ({
                let s = find_name(old(self)@.slots, hostname@);
                s >= 0 && total_load(old(self)@.slots) - slot_load(old(self)@.slots[s]) + load
                    <= u64::MAX
            }),
    {
        let ghost v0 = self@;
        let idx = match self.find_host(hostname) {
            None => {
                return false;
            },
            Some(i) => i,
        };
        let cur = match &self.slots[idx] {
            Some(h) => h.load,
            None => 0,  // not reached: the slot was just found live
        };
        proof {
            lemma_alive_load(self@.slots, idx as int);
        }
        let rest = self.total - cur;
        if load > u64::MAX - rest {
            return false;
        }
        self.total = rest + load;
        self.slots[idx] = Some(Host { name: hostname.to_owned(), load });
        proof {
            assert(self@.slots =~= v0.slots.update(
                idx as int,
                Some(HostV { name: hostname@, load }),
            ));
            lemma_counts_update(v0.slots, idx as int, Some(HostV { name: hostname@, load }));
            lemma_wf_reload(v0, idx as int, load);
        }
        true
    }

    /// Raises a host's load and the aggregate by one.  Reports whether the
    /// increment was applied: an unknown name is a no-op, as is an
    /// aggregate already at the machine-word limit.
    pub fn inc_load(&mut self, hostname: &str) -> (applied: bool)
        requires
            old(self).inv(),
        ensures
            final(self).inv(),
            final(self)@ == spec_inc_load(old(self)@, hostname@),
            applied == (find_name(old(self)@.slots, hostname@) >= 0 && total_load(
                old(self)@.slots,
            ) < u64::MAX),
    {
        let ghost v0 = self@;
        let idx = match self.find_host(hostname) {
            None => {
                return false;
            },
            Some(i) => i,
        };
        proof {
            lemma_counts_bounds(self@.slots);
        }
        if self.total == u64::MAX {
            return false;
        }
        let cur = match &self.slots[idx] {
            Some(h) => h.load,
            None => 0,  // not reached: the slot was just found live
        };
        proof {
            lemma_alive_load(self@.slots, idx as int);
        }
        self.total = self.total + 1;
        self.slots[idx] = Some(Host { name: hostname.to_owned(), load: cur + 1 });
        proof {
            assert(self@.slots =~= v0.slots.update(
                idx as int,
                Some(HostV { name: hostname@, load: (cur + 1) as u64 }),
            ));
            lemma_counts_update(
                v0.slots,
                idx as int,
                Some(HostV { name: hostname@, load: (cur + 1) as u64 }),
            );
            lemma_wf_reload(v0, idx as int, (cur + 1) as u64);
        }
        true
    }

    /// Lowers a host's load and the aggregate by one.  Reports whether the
    /// decrement was applied: an unknown name is a no-op, and a load
    /// already at zero stays there — it never underflows.
    pub fn decr_load(&mut self, hostname: &str) -> (applied: bool)
        requires
            old(self).inv(),
        ensures
            final(self).inv(),
            final(self)@ == spec_decr_load(old(self)@, hostname@),
            applied == ({
                let s = find_name(old(self)@.slots, hostname@);
                s >= 0 && old(self)@.slots[s]->0.load > 0
            }),
    {
        let ghost v0 = self@;
        let idx = match self.find_host(hostname) {
            None => {
                return false;
            },
            Some(i) => i,
        };
        let cur = match &self.slots[idx] {
            Some(h) => h.load,
            None => 0,  // not reached: the slot was just found live
        };
        if cur == 0 {
            return false;
        }
        proof {
            lemma_alive_load(self@.slots, idx as int);
        }
        self.total = self.total - 1;
        self.slots[idx] = Some(Host { name: hostname.to_owned(), load: cur - 1 });
        proof {
            assert(self@.slots =~= v0.slots.update(
                idx as int,
                Some(HostV { name: hostname@, load: (cur - 1) as u64 }),
            ));
            lemma_counts_update(
                v0.slots,
                idx as int,
                Some(HostV { name: hostname@, load: (cur - 1) as u64 }),
            );
            lemma_wf_reload(v0, idx as int, (cur - 1) as u64);
        }
        true
    }

    /// The names of all registered hosts, in arena order.
    pub fn hosts(&self) -> (r: Vec<String>)
        ensures
            r@.map_values(|s: String| s@) == names_of(self@.slots),
    {
        let n = self.slots.len();
        let mut r: Vec<String> = Vec::new();
        let mut i: usize = 0;
        while i < n
            invariant
                n == self.slots.len(),
                0 <= i <= n,
                r@.map_values(|s: String| s@) == names_of(self@.slots.take(i as int)),
            decreases n - i,
        {
            let ghost pre = r@.map_values(|s: String| s@);
            match &self.slots[i] {
                Some(h) => {
                    r.push(h.name.clone());
                },
                None => {},
            }
            proof {
                let sl = self@.slots;
                assert(sl.take(i + 1).drop_last() =~= sl.take(i as int));
                assert(sl.take(i + 1).last() == sl[i as int]);
                if self.slots@[i as int] is Some {
                    assert(r@.map_values(|s: String| s@) =~= pre + seq![sl[i as int]->0.name]);
                } else {
                    assert(r@.map_values(|s: String| s@) =~= pre);
                }
            }
            i = i + 1;
        }
        proof {
            assert(self@.slots.take(n as int) =~= self@.slots);
        }
        r
    }
}

} // verus!
