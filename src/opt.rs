//! Belady's MIN replacement policy, as a model over maps and as an
//! executable simulator.
use crate::reuse::{distance_at, forward_distance, forward_distances, is_next_occurrence, NEVER};
use vstd::prelude::*;

verus! {

/// The time of the next reference of an item referenced at time `t` whose
/// forward distance is `d`; `NEVER` stands for "not referenced again".
pub open spec fn next_use_time(t: nat, d: usize) -> usize {
    if t + d >= NEVER {
        NEVER
    } else {
        (t + d) as usize
    }
}

/// Resident `a`, next used at `ka`, goes before resident `b`, next used at
/// `kb`: its next use is later, or equally late and its identity smaller.
pub open spec fn goes_before(a: usize, ka: usize, b: usize, kb: usize) -> bool {
    ka > kb || (ka == kb && a <= b)
}

/// `v` is the resident that the policy evicts from `m` (item to next-use time).
pub open spec fn is_victim(m: Map<usize, usize>, v: usize) -> bool {
    &&& m.contains_key(v)
    &&& forall|w: usize| #[trigger] m.contains_key(w) ==> goes_before(v, m[v], w, m[w])
}

/// The resident that the policy evicts from `m`.
pub open spec fn victim(m: Map<usize, usize>) -> usize {
    choose|v: usize| is_victim(m, v)
}

/// The resident set after the access of `item`, at time `t` with forward
/// distance `d`, to a cache of capacity `cap` that held `m`.
pub open spec fn after_access(m: Map<usize, usize>, cap: nat, t: nat, item: usize, d: usize) -> Map<
    usize,
    usize,
> {
    let key = next_use_time(t, d);
    if m.contains_key(item) {
        m.insert(item, key)
    } else if cap == 0 {
        m
    } else if m.len() < cap {
        m.insert(item, key)
    } else {
        m.remove(victim(m)).insert(item, key)
    }
}

/// The resident set, item to next-use time, after the first `t` accesses of
/// `trace` with forward distances `dists`, at capacity `cap`.
pub open spec fn resident_after(trace: Seq<usize>, dists: Seq<usize>, cap: nat, t: nat) -> Map<
    usize,
    usize,
>
    decreases t,
{
    if t == 0 {
        Map::empty()
    } else {
        let prev = resident_after(trace, dists, cap, (t - 1) as nat);
        after_access(prev, cap, (t - 1) as nat, trace[t - 1], dists[t - 1])
    }
}

/// The number of misses among the first `t` accesses of `trace`.
pub open spec fn misses_after(trace: Seq<usize>, dists: Seq<usize>, cap: nat, t: nat) -> nat
    decreases t,
{
    if t == 0 {
        0
    } else {
        let prev = resident_after(trace, dists, cap, (t - 1) as nat);
        misses_after(trace, dists, cap, (t - 1) as nat) + if prev.contains_key(trace[t - 1]) {
            0nat
        } else {
            1nat
        }
    }
}

/// The number of misses of the whole trace at capacity `cap`.
pub open spec fn opt_misses(trace: Seq<usize>, dists: Seq<usize>, cap: nat) -> nat {
    misses_after(trace, dists, cap, trace.len())
}

/// Two different candidates cannot both be the victim.
pub proof fn lemma_victim_unique(m: Map<usize, usize>, a: usize, b: usize)
    requires
        is_victim(m, a),
        is_victim(m, b),
    ensures
        a == b,
{
    assert(goes_before(a, m[a], b, m[b]));
    assert(goes_before(b, m[b], a, m[a]));
}

/// A candidate that meets the eviction rule is the victim.
pub proof fn lemma_is_victim(m: Map<usize, usize>, v: usize)
    requires
        is_victim(m, v),
    ensures
        victim(m) == v,
{
    lemma_victim_unique(m, victim(m), v);
}

/// Whether an access found its item resident.
#[derive(Clone, Copy, Debug, PartialEq, Eq, Structural)]
pub enum AccessResult {
    Hit,
    Miss,
}

/// A resident item and the time of its next reference.
#[derive(Clone, Copy, Debug)]
pub struct Entry {
    pub item: usize,
    pub next_use: usize,
}

/// A cache of fixed capacity that replays accesses under Belady's MIN
/// policy: on a miss with a full cache it evicts the resident item whose next
/// reference lies furthest in the future, the smallest identity among equals.
pub struct OptCacheSim {
    entries: Vec<Entry>,
    cache_size: usize,
    clock: usize,
    resident: Ghost<Map<usize, usize>>,
}

impl OptCacheSim {
    /// The resident items, each mapped to the time of its next reference.
    pub closed spec fn resident(&self) -> Map<usize, usize> {
        self.resident@
    }

    /// The number of accesses replayed so far.
    pub closed spec fn clock(&self) -> nat {
        self.clock as nat
    }

    /// The capacity.
    pub closed spec fn capacity(&self) -> nat {
        self.cache_size as nat
    }

    pub closed spec fn wf(&self) -> bool {
        &&& self.resident@.dom().finite()
        &&& self.resident@.len() == self.entries@.len()
        &&& self.entries@.len() <= self.cache_size
        &&& forall|i: int|
            0 <= i < self.entries@.len() ==> {
                let e = #[trigger] self.entries@[i];
                &&& self.resident@.contains_key(e.item)
                &&& self.resident@[e.item] == e.next_use
            }
        &&& forall|i: int, j: int|
            0 <= i < self.entries@.len() && 0 <= j < self.entries@.len() && i != j
                ==> self.entries@[i].item != self.entries@[j].item
        &&& forall|x: usize|
            #[trigger] self.resident@.contains_key(x) ==> exists|i: int|
                0 <= i < self.entries@.len() && self.entries@[i].item == x
    }

    /// An empty cache of capacity `cache_size`.
    pub fn new(cache_size: usize) -> (r: Self)
        ensures
            r.wf(),
            r.resident() == Map::<usize, usize>::empty(),
            r.clock() == 0,
            r.capacity() == cache_size,
    {
        OptCacheSim {
            entries: Vec::new(),
            cache_size,
            clock: 0,
            resident: Ghost(Map::empty()),
        }
    }

    /// Empties the cache and gives it capacity `cache_size`; the clock
    /// starts again at zero.
    pub fn set_capacity(&mut self, cache_size: usize)
        ensures
            final(self).wf(),
            final(self).resident() == Map::<usize, usize>::empty(),
            final(self).clock() == 0,
            final(self).capacity() == cache_size,
    {
        self.cache_size = cache_size;
        self.entries.clear();
        self.clock = 0;
        self.resident = Ghost(Map::empty());
    }

    /// The position of `item` among the entries, if it is resident.
    fn position_of(&self, item: usize) -> (r: Option<usize>)
        requires
            self.wf(),
        ensures
            match r {
                Some(p) => p < self.entries@.len() && self.entries@[p as int].item == item,
                None => !self.resident().contains_key(item),
            },
    {
        let mut i: usize = 0;
        while i < self.entries.len()
            invariant
                self.wf(),
                i <= self.entries@.len(),
                forall|k: int| 0 <= k < i ==> self.entries@[k].item != item,
            decreases self.entries@.len() - i,
        {
            if self.entries[i].item == item {
                return Some(i);
            }
            i = i + 1;
        }
        None
    }

    /// The position of the resident that the policy evicts.
    fn victim_position(&self) -> (r: usize)
        requires
            self.wf(),
            self.entries@.len() > 0,
        ensures
            r < self.entries@.len(),
            is_victim(self.resident(), self.entries@[r as int].item),
    {
        let mut best: usize = 0;
        let mut i: usize = 1;
        while i < self.entries.len()
            invariant
                self.wf(),
                1 <= i <= self.entries@.len(),
                best < i,
                forall|k: int|
                    0 <= k < i ==> goes_before(
                        self.entries@[best as int].item,
                        self.entries@[best as int].next_use,
                        #[trigger] self.entries@[k].item,
                        self.entries@[k].next_use,
                    ),
            decreases self.entries@.len() - i,
        {
            let b = self.entries[best];
            let e = self.entries[i];
            if e.next_use > b.next_use || (e.next_use == b.next_use && e.item < b.item) {
                best = i;
            }
            i = i + 1;
        }
        proof {
            let m = self.resident@;
            let b = self.entries@[best as int];
            assert forall|w: usize| #[trigger] m.contains_key(w) implies goes_before(
                b.item,
                m[b.item],
                w,
                m[w],
            ) by {
                let k = choose|k: int| 0 <= k < self.entries@.len() && self.entries@[k].item == w;
                assert(self.entries@[k].item == w);
            }
        }
        best
    }

    /// Replays one access of `item`, whose forward distance at this access is
    /// `distance`: a hit refreshes the item's next-use time; a miss inserts
    /// the item, evicting the victim first when the cache is full; a cache of
    /// capacity zero holds nothing.
    pub fn cache_access(&mut self, item: usize, distance: usize) -> (r: AccessResult)
        requires
            old(self).wf(),
            old(self).clock() < NEVER,
        ensures
            final(self).wf(),
            final(self).capacity() == old(self).capacity(),
            final(self).clock() == old(self).clock() + 1,
            final(self).resident() == after_access(
                old(self).resident(),
                old(self).capacity(),
                old(self).clock(),
                item,
                distance,
            ),
            (r == AccessResult::Hit) == old(self).resident().contains_key(item),
            final(self).resident().dom().finite(),
            final(self).resident().len() <= final(self).capacity(),
    {
        let key = self.clock.saturating_add(distance);
        let ghost m = self.resident@;
        assert(key == next_use_time(self.clock as nat, distance));
        let result = match self.position_of(item) {
            Some(p) => {
                self.entries.set(p, Entry { item, next_use: key });
                self.resident = Ghost(m.insert(item, key));
                proof {
                    assert(m.contains_key(item));
                    assert(m.insert(item, key).dom() =~= m.dom());
                    assert forall|x: usize| #[trigger]
                        self.resident@.contains_key(x) implies exists|i: int|
                        0 <= i < self.entries@.len() && self.entries@[i].item == x by {
                        if x != item {
                            let k = choose|k: int| 0 <= k < old(self).entries@.len() && old(self).entries@[k].item == x;
                            assert(self.entries@[k].item == x);
                        } else {
                            assert(self.entries@[p as int].item == x);
                        }
                    }
                }
                AccessResult::Hit
            },
            None => {
                if self.cache_size == 0 {
                } else if self.entries.len() < self.cache_size {
                    self.entries.push(Entry { item, next_use: key });
                    self.resident = Ghost(m.insert(item, key));
                    proof {
                        let n = self.entries@.len() - 1;
                        assert(self.entries@[n].item == item);
                        assert forall|x: usize| #[trigger]
                            self.resident@.contains_key(x) implies exists|i: int|
                            0 <= i < self.entries@.len() && self.entries@[i].item == x by {
                            if x != item {
                                let k = choose|k: int| 0 <= k < old(self).entries@.len() && old(self).entries@[k].item == x;
                                assert(self.entries@[k].item == x);
                            }
                        }
                    }
                } else {
                    let v = self.victim_position();
                    let ghost gone = self.entries@[v as int].item;
                    proof {
                        lemma_is_victim(m, gone);
                    }
                    self.entries.set(v, Entry { item, next_use: key });
                    self.resident = Ghost(m.remove(gone).insert(item, key));
                    proof {
                        assert(self.entries@[v as int].item == item);
                        assert forall|i: int|
                            0 <= i < self.entries@.len() && i != v implies #[trigger] self.entries@[i].item != gone by {
                            assert(old(self).entries@[i].item != old(self).entries@[v as int].item);
                        }
                        assert forall|x: usize| #[trigger]
                            self.resident@.contains_key(x) implies exists|i: int|
                            0 <= i < self.entries@.len() && self.entries@[i].item == x by {
                            if x != item {
                                assert(m.contains_key(x) && x != gone);
                                let k = choose|k: int| 0 <= k < old(self).entries@.len() && old(self).entries@[k].item == x;
                                assert(k != v);
                                assert(self.entries@[k].item == x);
                            } else {
                                assert(self.entries@[v as int].item == x);
                            }
                        }
                    }
                }
                AccessResult::Miss
            },
        };
        self.clock = self.clock + 1;
        result
    }
}

/// The outcome of replaying a whole trace at one capacity.
#[derive(Clone, Copy, Debug, PartialEq, Eq, Structural)]
pub struct SimulationResult {
    pub accesses: usize,
    pub misses: usize,
}

/// Replays `trace`, whose forward distances are `distances`, through a cache
/// of capacity `capacity` under Belady's MIN policy.
pub fn simulate(trace: &[usize], distances: &[usize], capacity: usize) -> (r: SimulationResult)
    requires
        trace@.len() == distances@.len(),
    ensures
        r.accesses == trace@.len(),
        r.misses == opt_misses(trace@, distances@, capacity as nat),
{
    let n = trace.len();
    let mut sim = OptCacheSim::new(capacity);
    let mut misses: usize = 0;
    let mut i: usize = 0;
    while i < n
        invariant
            n == trace@.len(),
            n == distances@.len(),
            i <= n,
            sim.wf(),
            sim.capacity() == capacity,
            sim.clock() == i,
            sim.resident() == resident_after(trace@, distances@, capacity as nat, i as nat),
            misses == misses_after(trace@, distances@, capacity as nat, i as nat),
            misses <= i,
        decreases n - i,
    {
        let outcome = sim.cache_access(trace[i], distances[i]);
        if outcome == AccessResult::Miss {
            misses = misses + 1;
        }
        i = i + 1;
    }
    SimulationResult { accesses: n, misses }
}

/// Replays `trace` at capacity `cache_size` under Belady's MIN policy, with
/// the trace's own forward distances.
pub fn opt_simulation(trace: &[usize], cache_size: usize) -> (r: SimulationResult)
    ensures
        r.accesses == trace@.len(),
        r.misses == opt_misses(trace@, forward_distances(trace@), cache_size as nat),
{
    let distances = forward_distance(trace);
    simulate(trace, distances.as_slice(), cache_size)
}

/// A finite, non-empty resident set has a victim.
pub proof fn lemma_victim_exists(m: Map<usize, usize>)
    requires
        m.dom().finite(),
        m.len() > 0,
    ensures
        is_victim(m, victim(m)),
    decreases m.len(),
{
    let x = m.dom().choose();
    let r = m.remove(x);
    if r.len() == 0 {
        assert forall|w: usize| #[trigger] m.contains_key(w) implies goes_before(x, m[x], w, m[w]) by {
            if w != x {
                assert(r.dom().contains(w));
            }
        }
        lemma_is_victim(m, x);
    } else {
        lemma_victim_exists(r);
        let v = victim(r);
        if goes_before(v, m[v], x, m[x]) {
            assert forall|w: usize| #[trigger] m.contains_key(w) implies goes_before(v, m[v], w, m[w]) by {
                if w != x {
                    assert(r.contains_key(w));
                }
            }
            lemma_is_victim(m, v);
        } else {
            assert forall|w: usize| #[trigger] m.contains_key(w) implies goes_before(x, m[x], w, m[w]) by {
                if w != x {
                    assert(r.contains_key(w));
                    assert(goes_before(v, r[v], w, r[w]));
                }
            }
            lemma_is_victim(m, x);
        }
    }
}

/// The resident set stays finite and within the capacity.
pub proof fn lemma_resident_bounded(trace: Seq<usize>, dists: Seq<usize>, cap: nat, t: nat)
    ensures
        resident_after(trace, dists, cap, t).dom().finite(),
        resident_after(trace, dists, cap, t).len() <= cap,
    decreases t,
{
    if t > 0 {
        lemma_resident_bounded(trace, dists, cap, (t - 1) as nat);
        let m = resident_after(trace, dists, cap, (t - 1) as nat);
        let x = trace[t - 1];
        if m.contains_key(x) {
            assert(m.insert(x, next_use_time((t - 1) as nat, dists[t - 1])).dom() =~= m.dom());
        } else if cap > 0 && m.len() >= cap {
            lemma_victim_exists(m);
        }
    }
}

/// With capacity zero nothing is ever resident and every access misses.
pub proof fn lemma_capacity_zero_misses_all(trace: Seq<usize>, dists: Seq<usize>)
    ensures
        opt_misses(trace, dists, 0) == trace.len(),
{
    lemma_capacity_zero_prefix(trace, dists, trace.len());
}

proof fn lemma_capacity_zero_prefix(trace: Seq<usize>, dists: Seq<usize>, t: nat)
    ensures
        resident_after(trace, dists, 0, t) == Map::<usize, usize>::empty(),
        misses_after(trace, dists, 0, t) == t,
    decreases t,
{
    if t > 0 {
        lemma_capacity_zero_prefix(trace, dists, (t - 1) as nat);
    }
}

/// With room for every distinct item of the trace, each item misses once, on
/// its first reference, and stays resident after.
pub proof fn lemma_room_for_all_items(trace: Seq<usize>, dists: Seq<usize>, cap: nat)
    requires
        cap >= trace.to_set().len(),
    ensures
        opt_misses(trace, dists, cap) == trace.to_set().len(),
{
    lemma_room_for_all_prefix(trace, dists, cap, trace.len());
    assert(trace.take(trace.len() as int) =~= trace);
}

proof fn lemma_room_for_all_prefix(trace: Seq<usize>, dists: Seq<usize>, cap: nat, t: nat)
    requires
        t <= trace.len(),
        cap >= trace.to_set().len(),
    ensures
        resident_after(trace, dists, cap, t).dom() == trace.take(t as int).to_set(),
        misses_after(trace, dists, cap, t) == trace.take(t as int).to_set().len(),
    decreases t,
{
    if t == 0 {
        assert(trace.take(0).to_set() =~= Set::<usize>::empty());
        assert(resident_after(trace, dists, cap, 0).dom() =~= Set::<usize>::empty());
    } else {
        let u = (t - 1) as nat;
        lemma_room_for_all_prefix(trace, dists, cap, u);
        lemma_resident_bounded(trace, dists, cap, u);
        let m = resident_after(trace, dists, cap, u);
        let x = trace[u as int];
        let key = next_use_time(u, dists[u as int]);
        assert(trace.take(t as int) =~= trace.take(u as int).push(x));
        trace.take(u as int).lemma_push_to_set_commute(x);
        let seen = trace.take(t as int).to_set();
        assert forall|y: usize| seen.contains(y) implies trace.to_set().contains(y) by {
            let j = choose|j: int| 0 <= j < t && trace.take(t as int)[j] == y;
            assert(trace[j] == y);
        }
        vstd::seq_lib::seq_to_set_is_finite(trace);
        vstd::set_lib::lemma_len_subset(seen, trace.to_set());
        if m.contains_key(x) {
            assert(m.insert(x, key).dom() =~= m.dom());
            assert(seen =~= m.dom());
        } else {
            assert(m.insert(x, key).dom() =~= seen);
        }
    }
}

/// The resident set `a` of a cache of capacity `k` sits inside the resident
/// set `b` of a cache of capacity `k + 1`, with the same next-use times, and
/// `b` holds at most one item more, none more while `a` is not full.
pub open spec fn nested(a: Map<usize, usize>, b: Map<usize, usize>, k: nat) -> bool {
    &&& a.dom().finite()
    &&& b.dom().finite()
    &&& a.len() <= k
    &&& b.len() <= k + 1
    &&& a.dom().subset_of(b.dom())
    &&& forall|x: usize| #[trigger] a.contains_key(x) ==> a[x] == b[x]
    &&& a.len() < k ==> b.dom().subset_of(a.dom())
    &&& b.len() <= a.len() + 1
}

proof fn lemma_nested_step(a: Map<usize, usize>, b: Map<usize, usize>, k: nat, t: nat, x: usize, d: usize)
    requires
        nested(a, b, k),
    ensures
        nested(after_access(a, k, t, x, d), after_access(b, k + 1, t, x, d), k),
{
    let key = next_use_time(t, d);
    let a2 = after_access(a, k, t, x, d);
    let b2 = after_access(b, k + 1, t, x, d);
    if a.contains_key(x) {
        assert(a2.dom() =~= a.dom());
        assert(b2.dom() =~= b.dom());
    } else if b.contains_key(x) {
        assert(b2.dom() =~= b.dom());
        if k > 0 {
            if a.len() < k {
                assert(b.dom().contains(x));
            } else {
                lemma_victim_exists(a);
                let va = victim(a);
                assert(a2.dom() =~= a.dom().remove(va).insert(x));
            }
        }
    } else if b.len() < k + 1 {
        assert(b2.dom() =~= b.dom().insert(x));
        if k > 0 {
            if a.len() < k {
                assert(a2.dom() =~= a.dom().insert(x));
            } else {
                lemma_victim_exists(a);
                let va = victim(a);
                assert(a2.dom() =~= a.dom().remove(va).insert(x));
            }
        }
    } else {
        lemma_victim_exists(b);
        let vb = victim(b);
        assert(b2.dom() =~= b.dom().remove(vb).insert(x));
        if a.len() < k {
            vstd::set_lib::lemma_len_subset(b.dom(), a.dom());
        }
        if k > 0 {
            lemma_victim_exists(a);
            let va = victim(a);
            assert(a2.dom() =~= a.dom().remove(va).insert(x));
            if a.contains_key(vb) {
                assert forall|w: usize| #[trigger] a.contains_key(w) implies goes_before(
                    vb,
                    a[vb],
                    w,
                    a[w],
                ) by {
                    assert(b.contains_key(w));
                }
                lemma_is_victim(a, vb);
            }
        }
    }
}

proof fn lemma_nested_prefix(trace: Seq<usize>, dists: Seq<usize>, k: nat, t: nat)
    ensures
        nested(resident_after(trace, dists, k, t), resident_after(trace, dists, k + 1, t), k),
        misses_after(trace, dists, k, t) >= misses_after(trace, dists, k + 1, t),
    decreases t,
{
    if t == 0 {
        assert(Map::<usize, usize>::empty().dom() =~= Set::<usize>::empty());
    } else {
        let u = (t - 1) as nat;
        lemma_nested_prefix(trace, dists, k, u);
        let a = resident_after(trace, dists, k, u);
        let b = resident_after(trace, dists, k + 1, u);
        lemma_nested_step(a, b, k, u, trace[u as int], dists[u as int]);
    }
}

/// A larger cache never misses more: the policy at capacity `k + 1` misses
/// at most as often as at capacity `k`, on every trace.
pub proof fn lemma_more_capacity_no_more_misses(trace: Seq<usize>, dists: Seq<usize>, k: nat)
    ensures
        opt_misses(trace, dists, k) >= opt_misses(trace, dists, k + 1),
{
    lemma_nested_prefix(trace, dists, k, trace.len());
}

/// `j` is the first position at or after `t` that references `x`.
pub open spec fn is_first_from(s: Seq<usize>, t: int, x: usize, j: int) -> bool {
    &&& t <= j < s.len()
    &&& s[j] == x
    &&& forall|k: int| t <= k < j ==> s[k] != x
}

/// The position of the next reference of `x` at or after time `t`, or
/// `NEVER` when the rest of the trace does not reference it.
pub open spec fn next_reference(s: Seq<usize>, t: int, x: usize) -> usize {
    if exists|j: int| is_first_from(s, t, x, j) {
        (choose|j: int| is_first_from(s, t, x, j)) as usize
    } else {
        NEVER
    }
}

proof fn lemma_first_from_unique(s: Seq<usize>, t: int, x: usize, j1: int, j2: int)
    requires
        is_first_from(s, t, x, j1),
        is_first_from(s, t, x, j2),
    ensures
        j1 == j2,
{
    if j1 < j2 {
        assert(s[j1] != x);
    } else if j2 < j1 {
        assert(s[j2] != x);
    }
}

proof fn lemma_next_reference_of(s: Seq<usize>, t: int, x: usize, j: int)
    requires
        is_first_from(s, t, x, j),
    ensures
        next_reference(s, t, x) == j as usize,
{
    let c = choose|c: int| is_first_from(s, t, x, c);
    lemma_first_from_unique(s, t, x, c, j);
}

/// An access at `t` leaves the next reference of every other item alone.
proof fn lemma_next_reference_past_other(s: Seq<usize>, t: int, y: usize)
    requires
        0 <= t < s.len(),
        s[t] != y,
    ensures
        next_reference(s, t, y) == next_reference(s, t + 1, y),
{
    if exists|j: int| is_first_from(s, t, y, j) {
        let j = choose|j: int| is_first_from(s, t, y, j);
        assert(is_first_from(s, t + 1, y, j));
        lemma_next_reference_of(s, t, y, j);
        lemma_next_reference_of(s, t + 1, y, j);
    } else {
        assert forall|j: int| !#[trigger] is_first_from(s, t + 1, y, j) by {
            if is_first_from(s, t + 1, y, j) {
                assert(is_first_from(s, t, y, j));
            }
        }
    }
}

/// The access at `t` stores the next reference of its own item.
proof fn lemma_next_reference_of_access(s: Seq<usize>, t: int)
    requires
        0 <= t < s.len(),
        s.len() <= usize::MAX,
    ensures
        next_use_time(t as nat, distance_at(s, t)) == next_reference(s, t + 1, s[t]),
{
    if exists|j: int| is_next_occurrence(s, t, j) {
        let j = choose|j: int| is_next_occurrence(s, t, j);
        crate::reuse::lemma_distance_of_next(s, t, j);
        assert(is_first_from(s, t + 1, s[t], j));
        lemma_next_reference_of(s, t + 1, s[t], j);
    } else {
        assert forall|j: int| !#[trigger] is_first_from(s, t + 1, s[t], j) by {
            if is_first_from(s, t + 1, s[t], j) {
                assert(is_next_occurrence(s, t, j));
            }
        }
    }
}

/// With the trace's own forward distances, the time that the cache holds
/// for each resident is that item's true next reference, so the victim is
/// the resident whose next reference lies furthest in the future.
pub proof fn lemma_resident_times_are_next_references(trace: Seq<usize>, cap: nat, t: nat)
    requires
        t <= trace.len(),
        trace.len() <= usize::MAX,
    ensures
        forall|x: usize| #[trigger]
            resident_after(trace, forward_distances(trace), cap, t).contains_key(x) ==> resident_after(
                trace,
                forward_distances(trace),
                cap,
                t,
            )[x] == next_reference(trace, t as int, x),
    decreases t,
{
    if t > 0 {
        let u = (t - 1) as nat;
        let dists = forward_distances(trace);
        lemma_resident_times_are_next_references(trace, cap, u);
        let m = resident_after(trace, dists, cap, u);
        let m2 = resident_after(trace, dists, cap, t);
        let x0 = trace[u as int];
        lemma_next_reference_of_access(trace, u as int);
        assert forall|y: usize| #[trigger] m2.contains_key(y) implies m2[y] == next_reference(
            trace,
            t as int,
            y,
        ) by {
            if y != x0 {
                lemma_next_reference_past_other(trace, u as int, y);
                assert(m.contains_key(y));
            }
        }
    }
}

} // verus!
