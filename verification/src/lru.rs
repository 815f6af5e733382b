//! A least-recently-used cache with per-entry expiry.
//!
//! Entries live in an arena of slots that are chained into a doubly linked
//! list, most recently used first. A `DashMap` finds the slot of a key. Time is
//! measured in nanoseconds since the cache was made.
use vstd::prelude::*;
use std::time::Duration;
use std::time::Instant;
use dashmap::DashMap;

verus! {

// ---------------------------------------------------------------------------
// Outside items
// ---------------------------------------------------------------------------

#[verifier::external_type_specification]
#[verifier::external_body]
#[verifier::reject_recursive_types(K)]
#[verifier::reject_recursive_types(V)]
#[verifier::reject_recursive_types(S)]
pub struct ExDashMap<K, V, S>(dashmap::DashMap<K, V, S>);

#[verifier::external_type_specification]
#[verifier::external_body]
pub struct ExInstant(std::time::Instant);

/// What a `DashMap<String, usize>` holds: each key, by its characters, to its
/// slot. Keys are told apart by their text, as `String`'s `Eq` and `Hash` do.
pub uninterp spec fn slot_index(m: DashMap<String, usize>) -> Map<Seq<char>, usize>;

/// `DashMap::new`: the map starts empty.
#[verifier::external_body]
fn index_new() -> (fresh: DashMap<String, usize>)
    ensures
        slot_index(fresh).dom() == Set::<Seq<char>>::empty(),
{
    DashMap::new()
}

/// `DashMap::get`: the slot stored under the key, if there is one.
#[verifier::external_body]
fn index_get(m: &DashMap<String, usize>, key: &String) -> (found: Option<usize>)
    ensures
        found == (if slot_index(*m).contains_key(key@) { Some(slot_index(*m)[key@]) } else { None }),
{
    m.get(key).map(|r| *r)
}

/// `DashMap::insert`: the key now maps to the slot; the other keys keep theirs.
#[verifier::external_body]
fn index_insert(m: &mut DashMap<String, usize>, key: String, slot: usize)
    ensures
        slot_index(*final(m)) == slot_index(*old(m)).insert(key@, slot),
{
    m.insert(key, slot);
}

/// `DashMap::remove`: the key leaves the map, and its slot, if it had one, comes back.
#[verifier::external_body]
fn index_remove(m: &mut DashMap<String, usize>, key: &String) -> (removed: Option<usize>)
    ensures
        slot_index(*final(m)) == slot_index(*old(m)).remove(key@),
        removed == (if slot_index(*old(m)).contains_key(key@) { Some(slot_index(*old(m))[key@]) } else { None }),
{
    m.remove(key).map(|pair| pair.1)
}

/// `DashMap::len`: the number of keys in the map.
#[verifier::external_body]
fn index_len(m: &DashMap<String, usize>) -> (n: usize)
    ensures
        n == slot_index(*m).len(),
{
    m.len()
}

/// `Instant::now`: the moment of the call. Nothing is promised of its value.
#[verifier::external_body]
fn clock_start() -> Instant {
    Instant::now()
}

/// `Instant::elapsed`: the time since `origin`. Nothing is promised of its value.
#[verifier::external_body]
fn time_since(origin: &Instant) -> Duration {
    origin.elapsed()
}

/// `Duration::as_nanos`: the whole length in nanoseconds. No `Duration` is
/// longer than `Duration::MAX`, which is `u64::MAX` seconds and 999_999_999
/// nanoseconds.
#[verifier::external_body]
fn duration_nanos(d: &Duration) -> (n: u128)
    ensures
        n <= MAX_DURATION_NANOS,
{
    d.as_nanos()
}

// ---------------------------------------------------------------------------
// The model
// ---------------------------------------------------------------------------

/// `Duration::MAX` in nanoseconds.
pub const MAX_DURATION_NANOS: u128 = 18_446_744_073_709_551_615_999_999_999;

/// How long an entry lives when the cache is made without a lifetime: one hour.
pub const DEFAULT_TTL_NANOS: u128 = 3_600_000_000_000;

/// One entry as the contracts see it.
pub struct CacheEntry {
    pub key: Seq<char>,
    pub value: Seq<char>,
    pub expires_at: u128,
}

/// The whole cache as the contracts see it.
///
/// `entries` runs from the most recently used entry to the least recently
/// used one. `tail_lost` is set when the list is not empty but its tail
/// pointer is unset: a cache of capacity zero gets there on its first insert,
/// and it then stops evicting until the last entry is touched again.
pub struct LruView {
    pub entries: Seq<CacheEntry>,
    pub tail_lost: bool,
    pub capacity: nat,
    pub ttl: nat,
}

pub open spec fn is_expired(e: CacheEntry, now: u128) -> bool {
    e.expires_at < now
}

pub open spec fn holds_key(es: Seq<CacheEntry>, k: Seq<char>) -> bool {
    exists|i: int| 0 <= i < es.len() && (#[trigger] es[i]).key == k
}

/// Where the key stands in `es`, or -1.
pub open spec fn key_position(es: Seq<CacheEntry>, k: Seq<char>) -> int {
    if holds_key(es, k) {
        choose|i: int| 0 <= i < es.len() && (#[trigger] es[i]).key == k
    } else {
        -1
    }
}

pub open spec fn distinct_keys(es: Seq<CacheEntry>) -> bool {
    forall|i: int, j: int|
        0 <= i < es.len() && 0 <= j < es.len() && i != j ==> (#[trigger] es[i]).key != (#[trigger] es[j]).key
}

/// The cache without its `i`-th entry.
pub open spec fn drop_entry(v: LruView, i: int) -> LruView {
    LruView {
        entries: v.entries.remove(i),
        tail_lost: if i == v.entries.len() - 1 { false } else { v.tail_lost },
        capacity: v.capacity,
        ttl: v.ttl,
    }
}

/// The cache with its `i`-th entry replaced by `e` and moved to the front.
pub open spec fn promote(v: LruView, i: int, e: CacheEntry) -> LruView {
    LruView {
        entries: seq![e] + v.entries.remove(i),
        tail_lost: if i == v.entries.len() - 1 { false } else { v.tail_lost },
        capacity: v.capacity,
        ttl: v.ttl,
    }
}

/// What a read of `k` at time `now` answers.
pub open spec fn lookup(v: LruView, k: Seq<char>, now: u128) -> Option<Seq<char>> {
    let i = key_position(v.entries, k);
    if i < 0 || is_expired(v.entries[i], now) {
        None
    } else {
        Some(v.entries[i].value)
    }
}

/// The cache after a read of `k` at time `now`: an expired entry is dropped,
/// a live one becomes the most recently used.
pub open spec fn after_lookup(v: LruView, k: Seq<char>, now: u128) -> LruView {
    let i = key_position(v.entries, k);
    if i < 0 {
        v
    } else if is_expired(v.entries[i], now) {
        drop_entry(v, i)
    } else {
        promote(v, i, v.entries[i])
    }
}

/// The entry that a write of `k` and `value` at time `now` makes.
pub open spec fn fresh_entry(v: LruView, k: Seq<char>, value: Seq<char>, now: u128) -> CacheEntry {
    CacheEntry { key: k, value: value, expires_at: (now + v.ttl) as u128 }
}

/// The cache after a write of `k` and `value` at time `now`.
///
/// A known key is updated and moved to the front. A new key goes to the
/// front; when the cache already held `capacity` entries (or more) and its
/// tail is known, the least recently used entry leaves.
pub open spec fn after_store(v: LruView, k: Seq<char>, value: Seq<char>, now: u128) -> LruView {
    let e = fresh_entry(v, k, value, now);
    let i = key_position(v.entries, k);
    if i >= 0 {
        promote(v, i, e)
    } else if !v.tail_lost && v.entries.len() >= v.capacity {
        if v.entries.len() == 0 {
            LruView { entries: seq![e], tail_lost: true, capacity: v.capacity, ttl: v.ttl }
        } else {
            LruView {
                entries: seq![e] + v.entries.drop_last(),
                tail_lost: false,
                capacity: v.capacity,
                ttl: v.ttl,
            }
        }
    } else {
        LruView { entries: seq![e] + v.entries, tail_lost: v.tail_lost, capacity: v.capacity, ttl: v.ttl }
    }
}

/// The entries of `es` that are not expired at their own time in `ts`, in order.
pub open spec fn sweep(es: Seq<CacheEntry>, ts: Seq<u128>) -> Seq<CacheEntry>
    decreases es.len(),
{
    if es.len() == 0 {
        seq![]
    } else {
        let rest = sweep(es.drop_last(), ts.drop_last());
        if is_expired(es.last(), ts.last()) {
            rest
        } else {
            rest.push(es.last())
        }
    }
}

/// The cache after a walk from front to back that drops each entry expired at
/// the time it is visited (`ts[i]` for the `i`-th entry).
pub open spec fn after_sweep(v: LruView, ts: Seq<u128>) -> LruView {
    LruView {
        entries: sweep(v.entries, ts),
        tail_lost: v.tail_lost && !(v.entries.len() > 0 && is_expired(v.entries.last(), ts.last())),
        capacity: v.capacity,
        ttl: v.ttl,
    }
}

/// The key and value of each entry, in order.
pub open spec fn pairs_of(es: Seq<CacheEntry>) -> Seq<(Seq<char>, Seq<char>)> {
    es.map_values(|e: CacheEntry| (e.key, e.value))
}

/// What a well-formed cache looks like from outside.
pub open spec fn sound_view(v: LruView) -> bool {
    &&& distinct_keys(v.entries)
    &&& v.ttl <= MAX_DURATION_NANOS
    &&& (v.tail_lost ==> v.entries.len() > 0)
    &&& (v.capacity >= 1 ==> !v.tail_lost && v.entries.len() <= v.capacity)
}

// ---------------------------------------------------------------------------
// The cache
// ---------------------------------------------------------------------------

/// The key held by the `i`-th slot of the list `o`.
spec fn key_of(slots: Seq<Node>, o: Seq<usize>, i: int) -> Seq<char> {
    slots[o[i] as int].key@
}

/// The index `m` maps exactly the keys of the list `o`, each to its slot.
spec fn keys_match(slots: Seq<Node>, o: Seq<usize>, m: Map<Seq<char>, usize>) -> bool {
    &&& forall|i: int| 0 <= i < o.len() ==> m.contains_key(#[trigger] key_of(slots, o, i))
    &&& forall|i: int| 0 <= i < o.len() ==> m[#[trigger] key_of(slots, o, i)] == o[i]
    &&& forall|k: Seq<char>| #[trigger] m.contains_key(k) ==> exists|i: int| 0 <= i < o.len() && #[trigger] key_of(slots, o, i) == k
    &&& m.dom().finite()
    &&& m.len() == o.len()
}

/// The free slots are distinct arena slots outside the list `o`.
spec fn free_ok(free: Seq<usize>, n: int, o: Seq<usize>) -> bool {
    &&& forall|i: int| 0 <= i < free.len() ==> (#[trigger] free[i]) < n
    &&& forall|i: int, j: int| 0 <= i < free.len() && 0 <= j < free.len() && i != j ==> (#[trigger] free[i]) != (#[trigger] free[j])
    &&& forall|i: int, j: int| 0 <= i < free.len() && 0 <= j < o.len() ==> (#[trigger] free[i]) != (#[trigger] o[j])
}

/// The list `o` has no repeated slot.
spec fn distinct_slots(o: Seq<usize>) -> bool {
    forall|i: int, j: int| 0 <= i < o.len() && 0 <= j < o.len() && i != j ==> (#[trigger] o[i]) != (#[trigger] o[j])
}

/// Two arenas agree on the keys of the slots that the list `o` uses.
spec fn same_keys_on(a: Seq<Node>, b: Seq<Node>, o: Seq<usize>) -> bool {
    forall|i: int| 0 <= i < o.len() ==> #[trigger] a[o[i] as int].key == b[o[i] as int].key
}

proof fn lemma_keys_frame(a: Seq<Node>, b: Seq<Node>, o: Seq<usize>, m: Map<Seq<char>, usize>)
    requires
        keys_match(a, o, m),
        same_keys_on(a, b, o),
    ensures
        keys_match(b, o, m),
{
    assert forall|i: int| 0 <= i < o.len() implies #[trigger] key_of(b, o, i) == key_of(a, o, i) by {
        assert(a[o[i] as int].key == b[o[i] as int].key);
    }
    assert forall|k: Seq<char>| #[trigger] m.contains_key(k) implies exists|i: int| 0 <= i < o.len() && #[trigger] key_of(b, o, i) == k by {
        let i = choose|i: int| 0 <= i < o.len() && #[trigger] key_of(a, o, i) == k;
        assert(key_of(b, o, i) == key_of(a, o, i));
    }
}

/// With distinct slots, a matching index makes the keys distinct.
proof fn lemma_keys_distinct(slots: Seq<Node>, o: Seq<usize>, m: Map<Seq<char>, usize>)
    requires
        keys_match(slots, o, m),
        distinct_slots(o),
    ensures
        forall|i: int, j: int| 0 <= i < o.len() && 0 <= j < o.len() && i != j ==> #[trigger] key_of(slots, o, i) != #[trigger] key_of(slots, o, j),
{
    assert forall|i: int, j: int| 0 <= i < o.len() && 0 <= j < o.len() && i != j implies #[trigger] key_of(slots, o, i) != #[trigger] key_of(slots, o, j) by {
        assert(m[key_of(slots, o, i)] == o[i]);
        assert(m[key_of(slots, o, j)] == o[j]);
        assert(o[i] != o[j]);
    }
}

/// Dropping the `i`-th slot from the list matches dropping its key from the index.
proof fn lemma_keys_remove(slots: Seq<Node>, o: Seq<usize>, m: Map<Seq<char>, usize>, i: int)
    requires
        keys_match(slots, o, m),
        distinct_slots(o),
        0 <= i < o.len(),
    ensures
        keys_match(slots, o.remove(i), m.remove(key_of(slots, o, i))),
{
    lemma_keys_distinct(slots, o, m);
    let o2 = o.remove(i);
    let k = key_of(slots, o, i);
    let m2 = m.remove(k);
    assert forall|j: int| 0 <= j < o2.len() implies #[trigger] key_of(slots, o2, j) == key_of(slots, o, if j < i { j } else { j + 1 }) by {
        if j < i {
            assert(o2[j] == o[j]);
        } else {
            assert(o2[j] == o[j + 1]);
        }
    }
    assert forall|j: int| 0 <= j < o2.len() implies m2.contains_key(#[trigger] key_of(slots, o2, j)) && m2[key_of(slots, o2, j)] == o2[j] by {
        let j1 = if j < i { j } else { j + 1 };
        assert(key_of(slots, o2, j) == key_of(slots, o, j1));
        assert(key_of(slots, o, j1) != k);
        if j < i {
            assert(o2[j] == o[j]);
        } else {
            assert(o2[j] == o[j + 1]);
        }
    }
    assert forall|kk: Seq<char>| #[trigger] m2.contains_key(kk) implies exists|j: int| 0 <= j < o2.len() && #[trigger] key_of(slots, o2, j) == kk by {
        let j1 = choose|j1: int| 0 <= j1 < o.len() && #[trigger] key_of(slots, o, j1) == kk;
        assert(j1 != i);
        let j = if j1 < i { j1 } else { j1 - 1 };
        assert(key_of(slots, o2, j) == key_of(slots, o, j1));
    }
    assert(m.contains_key(k));
}

/// Putting a slot with a new key in front of the list matches adding its key to the index.
proof fn lemma_keys_push_front(slots: Seq<Node>, o: Seq<usize>, m: Map<Seq<char>, usize>, s: usize)
    requires
        keys_match(slots, o, m),
        !m.contains_key(slots[s as int].key@),
    ensures
        keys_match(slots, seq![s] + o, m.insert(slots[s as int].key@, s)),
{
    let o2 = seq![s] + o;
    let k = slots[s as int].key@;
    let m2 = m.insert(k, s);
    assert(key_of(slots, o2, 0) == k);
    assert forall|j: int| 1 <= j < o2.len() implies #[trigger] key_of(slots, o2, j) == key_of(slots, o, j - 1) by {
        assert(o2[j] == o[j - 1]);
    }
    assert forall|j: int| 0 <= j < o2.len() implies m2.contains_key(#[trigger] key_of(slots, o2, j)) && m2[key_of(slots, o2, j)] == o2[j] by {
        if j > 0 {
            assert(key_of(slots, o2, j) == key_of(slots, o, j - 1));
            assert(o2[j] == o[j - 1]);
        }
    }
    assert forall|kk: Seq<char>| #[trigger] m2.contains_key(kk) implies exists|j: int| 0 <= j < o2.len() && #[trigger] key_of(slots, o2, j) == kk by {
        if kk != k {
            let j1 = choose|j1: int| 0 <= j1 < o.len() && #[trigger] key_of(slots, o, j1) == kk;
            assert(key_of(slots, o2, j1 + 1) == key_of(slots, o, j1));
        } else {
            assert(key_of(slots, o2, 0) == kk);
        }
    }
}

/// Moving the `i`-th slot to the front of the list keeps the index matching.
proof fn lemma_keys_move_front(slots: Seq<Node>, o: Seq<usize>, m: Map<Seq<char>, usize>, i: int)
    requires
        keys_match(slots, o, m),
        distinct_slots(o),
        0 <= i < o.len(),
    ensures
        keys_match(slots, seq![o[i]] + o.remove(i), m),
{
    let o1 = o.remove(i);
    let k = key_of(slots, o, i);
    lemma_keys_remove(slots, o, m, i);
    assert(m.contains_key(k));
    assert(slots[o[i] as int].key@ == k);
    lemma_keys_push_front(slots, o1, m.remove(k), o[i]);
    assert(m.remove(k).insert(k, o[i]) =~= m);
}

/// The `i`-th slot of the list `o` links back to its predecessor and on to its successor.
spec fn link_at(slots: Seq<Node>, o: Seq<usize>, i: int) -> bool {
    let s = o[i];
    &&& slots[s as int].prev == (if i == 0 { None } else { Some(o[i - 1]) })
    &&& slots[s as int].next == (if i + 1 == o.len() { None } else { Some(o[i + 1]) })
}

/// The list `o` of distinct arena slots is chained both ways from `head`, and
/// `tail` is either unset or its last slot.
spec fn list_ok(slots: Seq<Node>, o: Seq<usize>, head: Option<usize>, tail: Option<usize>) -> bool {
    &&& forall|i: int| 0 <= i < o.len() ==> (#[trigger] o[i]) < slots.len()
    &&& distinct_slots(o)
    &&& forall|i: int| 0 <= i < o.len() ==> #[trigger] link_at(slots, o, i)
    &&& head == (if o.len() == 0 { None } else { Some(o[0]) })
    &&& (tail is None || (o.len() > 0 && tail == Some(o.last())))
}

/// A slot of the arena: an entry and its links to its neighbours in the list.
pub struct Node {
    key: String,
    value: String,
    expires_at: u128,
    prev: Option<usize>,
    next: Option<usize>,
}

pub struct LRUCache {
    map: DashMap<String, usize>,
    slots: Vec<Node>,
    free: Vec<usize>,
    expires: u128,
    head: Option<usize>,
    tail: Option<usize>,
    capacity: usize,
    clock: Instant,
    last_time: u128,
    order: Ghost<Seq<usize>>,
}

spec fn entry_of(n: Node) -> CacheEntry {
    CacheEntry { key: n.key@, value: n.value@, expires_at: n.expires_at }
}

impl View for LRUCache {
    type V = LruView;

    closed spec fn view(&self) -> LruView {
        LruView {
            entries: Seq::new(self.order@.len(), |i: int| entry_of(self.slots@[self.order@[i] as int])),
            tail_lost: self.order@.len() > 0 && self.tail is None,
            capacity: self.capacity as nat,
            ttl: self.expires as nat,
        }
    }
}

impl LRUCache {
    /// The list structure: the ghost order lists distinct slots, chained both ways.
    spec fn links_wf(&self) -> bool {
        list_ok(self.slots@, self.order@, self.head, self.tail)
    }

    spec fn key_at(&self, i: int) -> Seq<char> {
        key_of(self.slots@, self.order@, i)
    }

    /// The cache is well formed: following `next` from the head visits every
    /// listed slot once and ends at the tail (when the tail is set), each
    /// `prev` points back, the index maps exactly the listed keys, each to
    /// its slot, the free slots are outside the list, and, with room for at
    /// least one entry, the tail is known and the list is within capacity.
    pub closed spec fn wf(&self) -> bool {
        &&& self.links_wf()
        &&& keys_match(self.slots@, self.order@, slot_index(self.map))
        &&& free_ok(self.free@, self.slots@.len() as int, self.order@)
        &&& self.expires <= MAX_DURATION_NANOS
        &&& self.last_time <= MAX_DURATION_NANOS
        &&& self.within_capacity()
    }

    /// The latest clock time, in nanoseconds since the cache was made, that
    /// the cache has read; the clock never reads earlier than this again.
    pub closed spec fn clock_floor(&self) -> u128 {
        self.last_time
    }

    /// With room for at least one entry, the tail is known whenever the list
    /// is not empty, and the list is no longer than the capacity.
    spec fn within_capacity(&self) -> bool {
        self.capacity >= 1 ==> {
            &&& (self.order@.len() > 0 ==> self.tail is Some)
            &&& self.order@.len() <= self.capacity
        }
    }

    /// Makes an empty cache that holds at most `capacity` entries, each for
    /// `expires` nanoseconds (one hour when `None`).
    pub fn new(capacity: usize, expires: Option<u128>) -> (cache: LRUCache)
        requires
            expires matches Some(n) ==> n <= MAX_DURATION_NANOS,
        ensures
            cache.wf(),
            cache@.entries.len() == 0,
            !cache@.tail_lost,
            cache@.capacity == capacity,
            cache.clock_floor() == 0,
            cache@.ttl == (match expires {
                Some(n) => n,
                None => DEFAULT_TTL_NANOS,
            }),
    {
        let expires = match expires {
            Some(n) => n,
            None => DEFAULT_TTL_NANOS,
        };
        LRUCache {
            map: index_new(),
            slots: Vec::new(),
            free: Vec::new(),
            expires,
            head: None,
            tail: None,
            capacity,
            clock: clock_start(),
            last_time: 0,
            order: Ghost(Seq::empty()),
        }
    }
}


impl LRUCache {
    /// Unlinks the slot `s`, which stands at position `i` of the list.
    fn detach_node(&mut self, s: usize, Ghost(i): Ghost<int>)
        requires
            old(self).links_wf(),
            0 <= i < old(self).order@.len(),
            old(self).order@[i] == s,
        ensures
            final(self).links_wf(),
            final(self).order@ == old(self).order@.remove(i),
            final(self).slots@.len() == old(self).slots@.len(),
            forall|j: int| 0 <= j < old(self).slots@.len() ==> entry_of(#[trigger] final(self).slots@[j]) == entry_of(old(self).slots@[j]),
            forall|j: int| 0 <= j < old(self).slots@.len() ==> (#[trigger] final(self).slots@[j]).key == old(self).slots@[j].key,
            final(self).map == old(self).map,
            final(self).free == old(self).free,
            final(self).expires == old(self).expires,
            final(self).capacity == old(self).capacity,
            final(self).clock == old(self).clock,
            final(self).last_time == old(self).last_time,
            i == old(self).order@.len() - 1 ==> (if final(self).order@.len() > 0 { final(self).tail == Some(final(self).order@.last()) } else { final(self).tail is None }),
            i != old(self).order@.len() - 1 ==> final(self).tail == old(self).tail,
            final(self).slots@[s as int].prev is None,
            final(self).slots@[s as int].next is None,
    {
        let ghost o = self.order@;
        let ghost n = o.len();
        assert(link_at(self.slots@, o, i));
        let prev = self.slots[s].prev;
        let next = self.slots[s].next;
        match prev {
            Some(p) => {
                assert(p == o[i - 1]);
                self.slots[p].next = next;
            },
            None => {
                self.head = next;
            },
        }
        match next {
            Some(q) => {
                assert(q == o[i + 1]);
                self.slots[q].prev = prev;
            },
            None => {
                self.tail = prev;
            },
        }
        self.slots[s].prev = None;
        self.slots[s].next = None;
        proof {
            let o2 = o.remove(i);
            self.order@ = o2;
            assert forall|j: int| 0 <= j < o2.len() implies #[trigger] link_at(self.slots@, o2, j) by {
                if j < i {
                    assert(o2[j] == o[j]);
                    assert(link_at(old(self).slots@, o, j));
                    if j > 0 {
                        assert(o2[j - 1] == o[j - 1]);
                    }
                    if j + 1 < i {
                        assert(o2[j + 1] == o[j + 1]);
                    } else if j + 1 < o2.len() {
                        assert(o2[j + 1] == o[j + 2]);
                    }
                } else {
                    assert(o2[j] == o[j + 1]);
                    assert(link_at(old(self).slots@, o, j + 1));
                    if j > i {
                        assert(o2[j - 1] == o[j]);
                    } else if j > 0 {
                        assert(o2[j - 1] == o[j - 1]);
                    }
                    if j + 1 < o2.len() {
                        assert(o2[j + 1] == o[j + 2]);
                    }
                }
            }
            assert forall|a: int, b: int|
                0 <= a < o2.len() && 0 <= b < o2.len() && a != b implies (#[trigger] o2[a]) != (#[trigger] o2[b]) by {
                let a1 = if a < i { a } else { a + 1 };
                let b1 = if b < i { b } else { b + 1 };
                assert(o2[a] == o[a1]);
                assert(o2[b] == o[b1]);
            }
            assert forall|a: int| 0 <= a < o2.len() implies (#[trigger] o2[a]) < self.slots@.len() by {
                let a1 = if a < i { a } else { a + 1 };
                assert(o2[a] == o[a1]);
            }
            if o2.len() > 0 {
                if i == 0 {
                    assert(o2[0] == o[1]);
                } else {
                    assert(o2[0] == o[0]);
                }
                assert(o2.last() == o2[o2.len() - 1]);
                if i == n - 1 {
                    assert(o2[o2.len() - 1] == o[n - 2]);
                } else {
                    assert(o2[o2.len() - 1] == o[n - 1]);
                }
            }
        }
    }

    /// Links the slot `s`, which is not in the list, in front of the list.
    fn push_front(&mut self, s: usize)
        requires
            old(self).links_wf(),
            s < old(self).slots@.len(),
            forall|j: int| 0 <= j < old(self).order@.len() ==> old(self).order@[j] != s,
        ensures
            final(self).links_wf(),
            final(self).order@ == seq![s] + old(self).order@,
            final(self).slots@.len() == old(self).slots@.len(),
            forall|j: int| 0 <= j < old(self).slots@.len() ==> entry_of(#[trigger] final(self).slots@[j]) == entry_of(old(self).slots@[j]),
            forall|j: int| 0 <= j < old(self).slots@.len() ==> (#[trigger] final(self).slots@[j]).key == old(self).slots@[j].key,
            final(self).map == old(self).map,
            final(self).free == old(self).free,
            final(self).expires == old(self).expires,
            final(self).capacity == old(self).capacity,
            final(self).clock == old(self).clock,
            final(self).last_time == old(self).last_time,
            old(self).order@.len() == 0 ==> final(self).tail == Some(s),
            old(self).order@.len() > 0 ==> final(self).tail == old(self).tail,
    {
        let ghost o = self.order@;
        self.slots[s].next = self.head;
        self.slots[s].prev = None;
        match self.head {
            Some(h) => {
                assert(h == o[0]);
                self.slots[h].prev = Some(s);
            },
            None => {
                self.tail = Some(s);
            },
        }
        self.head = Some(s);
        proof {
            let o2 = seq![s] + o;
            self.order@ = o2;
            assert forall|j: int| 0 <= j < o2.len() implies #[trigger] link_at(self.slots@, o2, j) by {
                if j > 0 {
                    assert(o2[j] == o[j - 1]);
                    assert(link_at(old(self).slots@, o, j - 1));
                    if j > 1 {
                        assert(o2[j - 1] == o[j - 2]);
                    }
                    if j + 1 < o2.len() {
                        assert(o2[j + 1] == o[j]);
                    }
                } else {
                    if o.len() > 0 {
                        assert(o2[1] == o[0]);
                    }
                }
            }
            assert forall|a: int, b: int|
                0 <= a < o2.len() && 0 <= b < o2.len() && a != b implies (#[trigger] o2[a]) != (#[trigger] o2[b]) by {
                if a > 0 {
                    assert(o2[a] == o[a - 1]);
                }
                if b > 0 {
                    assert(o2[b] == o[b - 1]);
                }
            }
            assert forall|a: int| 0 <= a < o2.len() implies (#[trigger] o2[a]) < self.slots@.len() by {
                if a > 0 {
                    assert(o2[a] == o[a - 1]);
                }
            }
            if o.len() > 0 {
                assert(o2.last() == o.last());
            }
        }
    }
}


/// Every slot that `o2` lists is listed by `o`, so it is still not free.
proof fn lemma_free_within(free: Seq<usize>, n: int, o: Seq<usize>, o2: Seq<usize>)
    requires
        free_ok(free, n, o),
        forall|j: int| 0 <= j < o2.len() ==> exists|i: int| 0 <= i < o.len() && #[trigger] o[i] == #[trigger] o2[j],
    ensures
        free_ok(free, n, o2),
{
    assert forall|a: int, j: int| 0 <= a < free.len() && 0 <= j < o2.len() implies (#[trigger] free[a]) != (#[trigger] o2[j]) by {
        let i = choose|i: int| 0 <= i < o.len() && #[trigger] o[i] == o2[j];
        assert(free[a] != o[i]);
    }
}

/// The view of an option of strings.
pub open spec fn opt_view(o: Option<String>) -> Option<Seq<char>> {
    match o {
        Some(v) => Some(v@),
        None => None,
    }
}

impl LRUCache {
    proof fn lemma_view(&self)
        ensures
            self@.entries.len() == self.order@.len(),
            forall|j: int| 0 <= j < self.order@.len() ==> #[trigger] self@.entries[j] == entry_of(self.slots@[self.order@[j] as int]),
            forall|j: int| 0 <= j < self.order@.len() ==> #[trigger] self@.entries[j].key == self.key_at(j),
            self@.tail_lost == (self.order@.len() > 0 && self.tail is None),
            self@.capacity == self.capacity,
            self@.ttl == self.expires,
    {
    }

    /// A well-formed cache has a sound view: distinct keys, a lifetime no
    /// longer than `Duration::MAX`, a lost tail only when it holds entries,
    /// and, with room for at least one entry, a known tail and no more
    /// entries than its capacity.
    pub proof fn lemma_sound(&self)
        requires
            self.wf(),
        ensures
            sound_view(self@),
    {
        self.lemma_locate(Seq::empty());
    }

    /// Where a key stands, as the index and as the list see it.
    proof fn lemma_locate(&self, k: Seq<char>)
        requires
            self.wf(),
        ensures
            sound_view(self@),
            slot_index(self.map).contains_key(k) ==> ({
                let i = key_position(self@.entries, k);
                &&& 0 <= i < self.order@.len()
                &&& self.order@[i] == slot_index(self.map)[k]
                &&& self.key_at(i) == k
            }),
            !slot_index(self.map).contains_key(k) ==> key_position(self@.entries, k) == -1,
    {
        self.lemma_view();
        let es = self@.entries;
        let m = slot_index(self.map);
        lemma_keys_distinct(self.slots@, self.order@, m);
        assert forall|i: int, j: int| 0 <= i < es.len() && 0 <= j < es.len() && i != j implies (#[trigger] es[i]).key != (#[trigger] es[j]).key by {
            assert(es[i].key == self.key_at(i));
            assert(es[j].key == self.key_at(j));
        }
        if m.contains_key(k) {
            let i = choose|i: int| 0 <= i < self.order@.len() && #[trigger] key_of(self.slots@, self.order@, i) == k;
            assert(es[i].key == k);
            assert(holds_key(es, k));
            let i2 = key_position(es, k);
            assert(es[i2].key == k);
            assert(i2 == i);
        } else {
            if holds_key(es, k) {
                let i = choose|i: int| 0 <= i < es.len() && (#[trigger] es[i]).key == k;
                assert(self.key_at(i) == k);
                assert(m.contains_key(key_of(self.slots@, self.order@, i)));
            }
        }
    }

    /// Removes the entry of `key`, if there is one, and gives back its key and value.
    fn remove(&mut self, key: String) -> (removed: Option<(String, String)>)
        requires
            old(self).wf(),
        ensures
            final(self).wf(),
            final(self).clock == old(self).clock,
            final(self).last_time == old(self).last_time,
            key_position(old(self)@.entries, key@) < 0 ==> final(self).order@ == old(self).order@,
            key_position(old(self)@.entries, key@) >= 0 ==> final(self).order@ == old(self).order@.remove(key_position(old(self)@.entries, key@)),
            key_position(old(self)@.entries, key@) < 0 ==> final(self)@ == old(self)@ && removed is None,
            key_position(old(self)@.entries, key@) >= 0 ==> final(self)@ == drop_entry(old(self)@, key_position(old(self)@.entries, key@)),
            key_position(old(self)@.entries, key@) >= 0 ==> removed is Some,
            removed matches Some(p) ==> p.0@ == key@ && p.1@ == old(self)@.entries[key_position(old(self)@.entries, key@)].value,
    {
        proof {
            self.lemma_locate(key@);
            self.lemma_view();
        }
        let ghost i = key_position(self@.entries, key@);
        let ghost o = self.order@;
        let ghost m = slot_index(self.map);
        let ghost slots0 = self.slots@;
        let ghost v0 = self@;
        let removed = index_remove(&mut self.map, &key);
        match removed {
            Some(s) => {
                proof {
                    lemma_keys_remove(slots0, o, m, i);
                }
                self.detach_node(s, Ghost(i));
                proof {
                    let o2 = o.remove(i);
                    assert forall|j: int| 0 <= j < o2.len() implies #[trigger] slots0[o2[j] as int].key == self.slots@[o2[j] as int].key by {
                        let j1 = if j < i { j } else { j + 1 };
                        assert(o2[j] == o[j1]);
                    }
                    assert(same_keys_on(slots0, self.slots@, o2));
                    lemma_keys_frame(slots0, self.slots@, o2, m.remove(key@));
                    assert forall|j: int| 0 <= j < o2.len() implies exists|a: int| 0 <= a < o.len() && #[trigger] o[a] == #[trigger] o2[j] by {
                        let j1 = if j < i { j } else { j + 1 };
                        assert(o2[j] == o[j1]);
                    }
                    lemma_free_within(self.free@, self.slots@.len() as int, o, o2);
                }
                self.free.push(s);
                proof {
                    let o2 = self.order@;
                    let f = self.free@;
                    assert forall|a: int, b: int| 0 <= a < f.len() && 0 <= b < o2.len() implies (#[trigger] f[a]) != (#[trigger] o2[b]) by {
                        if a == f.len() - 1 {
                            let b1 = if b < i { b } else { b + 1 };
                            assert(o2[b] == o[b1]);
                            assert(b1 != i);
                        } else {
                            assert(f[a] == old(self).free@[a]);
                        }
                    }
                    assert forall|a: int, b: int| 0 <= a < f.len() && 0 <= b < f.len() && a != b implies (#[trigger] f[a]) != (#[trigger] f[b]) by {
                        if a == f.len() - 1 {
                            assert(f[b] == old(self).free@[b]);
                            assert(old(self).free@[b] != o[i]);
                        } else if b == f.len() - 1 {
                            assert(f[a] == old(self).free@[a]);
                            assert(old(self).free@[a] != o[i]);
                        } else {
                            assert(f[a] == old(self).free@[a]);
                            assert(f[b] == old(self).free@[b]);
                        }
                    }
                    assert forall|a: int| 0 <= a < f.len() implies (#[trigger] f[a]) < self.slots@.len() by {
                        if a < f.len() - 1 {
                            assert(f[a] == old(self).free@[a]);
                        }
                    }
                    self.lemma_view();
                    assert(self@.entries =~= v0.entries.remove(i)) by {
                        assert forall|j: int| 0 <= j < o2.len() implies #[trigger] self@.entries[j] == v0.entries.remove(i)[j] by {
                            let j1 = if j < i { j } else { j + 1 };
                            assert(o2[j] == o[j1]);
                            assert(v0.entries[j1] == entry_of(slots0[o[j1] as int]));
                        }
                    }
                }
                let k = self.slots[s].key.clone();
                let v = self.slots[s].value.clone();
                proof {
                    assert(entry_of(slots0[s as int]) == v0.entries[i]);
                }
                Some((k, v))
            },
            None => None,
        }
    }

    /// Moves the slot `s`, at position `i`, to the front of the list.
    fn move_to_head(&mut self, s: usize, Ghost(i): Ghost<int>)
        requires
            old(self).wf(),
            0 <= i < old(self).order@.len(),
            old(self).order@[i] == s,
        ensures
            final(self).wf(),
            final(self)@ == promote(old(self)@, i, old(self)@.entries[i]),
            final(self).map == old(self).map,
            final(self).head == Some(s),
            final(self).clock == old(self).clock,
            final(self).last_time == old(self).last_time,
    {
        proof {
            self.lemma_view();
        }
        let ghost o = self.order@;
        let ghost m = slot_index(self.map);
        let ghost slots0 = self.slots@;
        let ghost v0 = self@;
        self.detach_node(s, Ghost(i));
        proof {
            assert forall|j: int| 0 <= j < self.order@.len() implies self.order@[j] != s by {
                let j1 = if j < i { j } else { j + 1 };
                assert(self.order@[j] == o[j1]);
            }
        }
        self.push_front(s);
        proof {
            let o2 = self.order@;
            assert(o2 == seq![o[i]] + o.remove(i));
            lemma_keys_move_front(slots0, o, m, i);
            assert forall|j: int| 0 <= j < o2.len() implies #[trigger] slots0[o2[j] as int].key == self.slots@[o2[j] as int].key by {
            }
            lemma_keys_frame(slots0, self.slots@, o2, m);
            assert forall|j: int| 0 <= j < o2.len() implies exists|a: int| 0 <= a < o.len() && #[trigger] o[a] == #[trigger] o2[j] by {
                if j == 0 {
                    assert(o2[0] == o[i]);
                } else {
                    let j1 = if j - 1 < i { j - 1 } else { j };
                    assert(o2[j] == o[j1]);
                }
            }
            lemma_free_within(self.free@, self.slots@.len() as int, o, o2);
            self.lemma_view();
            let target = promote(v0, i, v0.entries[i]);
            assert(self@.entries =~= target.entries) by {
                assert forall|j: int| 0 <= j < o2.len() implies #[trigger] self@.entries[j] == target.entries[j] by {
                    if j == 0 {
                        assert(o2[0] == o[i]);
                    } else {
                        let j1 = if j - 1 < i { j - 1 } else { j };
                        assert(o2[j] == o[j1]);
                        assert(v0.entries[j1] == entry_of(slots0[o[j1] as int]));
                    }
                }
            }
        }
    }

    /// Reads `key` at time `now`: an expired entry is dropped and nothing is
    /// found; a live entry becomes the most recently used and its value is
    /// given back. The entry's lifetime is not renewed.
    pub fn get_at(&mut self, key: &String, now: u128) -> (found: Option<String>)
        requires
            old(self).wf(),
        ensures
            final(self).wf(),
            opt_view(found) == lookup(old(self)@, key@, now),
            final(self)@ == after_lookup(old(self)@, key@, now),
            final(self).clock_floor() == old(self).clock_floor(),
    {
        proof {
            self.lemma_locate(key@);
            self.lemma_view();
        }
        let ghost i = key_position(self@.entries, key@);
        let slot = match index_get(&self.map, key) {
            Some(s) => s,
            None => {
                return None;
            },
        };
        if self.slots[slot].expires_at < now {
            self.remove(key.clone());
            None
        } else {
            let value = self.slots[slot].value.clone();
            self.move_to_head(slot, Ghost(i));
            Some(value)
        }
    }
}


impl LRUCache {
    /// Puts `node` into a free slot, or into a new one, and says which.
    fn allocate(&mut self, node: Node) -> (s: usize)
        requires
            old(self).wf(),
        ensures
            s < final(self).slots@.len(),
            final(self).slots@.len() >= old(self).slots@.len(),
            final(self).slots@[s as int] == node,
            forall|j: int| 0 <= j < old(self).slots@.len() && j != s ==> #[trigger] final(self).slots@[j] == old(self).slots@[j],
            forall|j: int| 0 <= j < old(self).order@.len() ==> old(self).order@[j] != s,
            final(self).order == old(self).order,
            final(self).head == old(self).head,
            final(self).tail == old(self).tail,
            final(self).map == old(self).map,
            final(self).expires == old(self).expires,
            final(self).capacity == old(self).capacity,
            final(self).clock == old(self).clock,
            final(self).last_time == old(self).last_time,
            list_ok(final(self).slots@, final(self).order@, final(self).head, final(self).tail),
            keys_match(final(self).slots@, final(self).order@, slot_index(final(self).map)),
            free_ok(final(self).free@, final(self).slots@.len() as int, seq![s] + final(self).order@),
    {
        let ghost o = self.order@;
        let ghost f0 = self.free@;
        let s = match self.free.pop() {
            Some(f) => {
                proof {
                    assert(f == f0[f0.len() - 1]);
                }
                self.slots.set(f, node);
                f
            },
            None => {
                self.slots.push(node);
                self.slots.len() - 1
            },
        };
        proof {
            let slots2 = self.slots@;
            let slots1 = old(self).slots@;
            if f0.len() > 0 {
                assert forall|j: int| 0 <= j < o.len() implies o[j] != s by {
                    assert(f0[f0.len() - 1] != o[j]);
                }
            } else {
                assert forall|j: int| 0 <= j < o.len() implies o[j] != s by {
                    assert(o[j] < slots1.len());
                }
            }
            assert forall|j: int| 0 <= j < o.len() implies #[trigger] link_at(slots2, o, j) by {
                assert(link_at(slots1, o, j));
                assert(slots2[o[j] as int] == slots1[o[j] as int]);
            }
            assert forall|j: int| 0 <= j < o.len() implies #[trigger] slots1[o[j] as int].key == slots2[o[j] as int].key by {
            }
            assert(same_keys_on(slots1, slots2, o));
            lemma_keys_frame(slots1, slots2, o, slot_index(self.map));
            let f = self.free@;
            let o2 = seq![s] + o;
            assert forall|a: int, b: int| 0 <= a < f.len() && 0 <= b < o2.len() implies (#[trigger] f[a]) != (#[trigger] o2[b]) by {
                assert(f[a] == f0[a]);
                if b == 0 {
                    if f0.len() > 0 {
                        assert(f0[a] != f0[f0.len() - 1]);
                    }
                } else {
                    assert(o2[b] == o[b - 1]);
                }
            }
            assert forall|a: int, b: int| 0 <= a < f.len() && 0 <= b < f.len() && a != b implies (#[trigger] f[a]) != (#[trigger] f[b]) by {
                assert(f[a] == f0[a]);
                assert(f[b] == f0[b]);
            }
            assert forall|a: int| 0 <= a < f.len() implies (#[trigger] f[a]) < slots2.len() by {
                assert(f[a] == f0[a]);
            }
        }
        s
    }

    /// Writes a key that the cache does not hold.
    fn store_new(&mut self, key: String, value: String, now: u128)
        requires
            old(self).wf(),
            !slot_index(old(self).map).contains_key(key@),
            now + old(self).expires <= u128::MAX,
        ensures
            final(self).wf(),
            final(self)@ == ({
                let v = old(self)@;
                let e = fresh_entry(v, key@, value@, now);
                if !v.tail_lost && v.entries.len() >= v.capacity {
                    if v.entries.len() == 0 {
                        LruView { entries: seq![e], tail_lost: true, capacity: v.capacity, ttl: v.ttl }
                    } else {
                        LruView { entries: seq![e] + v.entries.drop_last(), tail_lost: false, capacity: v.capacity, ttl: v.ttl }
                    }
                } else {
                    LruView { entries: seq![e] + v.entries, tail_lost: v.tail_lost, capacity: v.capacity, ttl: v.ttl }
                }
            }),
            final(self).clock == old(self).clock,
            final(self).last_time == old(self).last_time,
    {
        proof {
            self.lemma_view();
        }
        let ghost v0 = self@;
        let ghost o0 = self.order@;
        let ghost m0 = slot_index(self.map);
        let ghost slots0 = self.slots@;
        let node = Node { key: key.clone(), value, expires_at: now + self.expires, prev: None, next: None };
        let s = self.allocate(node);
        self.push_front(s);
        let ghost slots1 = self.slots@;
        let ghost o1 = self.order@;
        let ghost free1 = self.free@;
        proof {
            assert(o1 == seq![s] + o0);
            assert forall|j: int| 0 <= j < o0.len() implies #[trigger] slots0[o0[j] as int].key == slots1[o0[j] as int].key by {
                assert(o0[j] != s);
            }
            assert(same_keys_on(slots0, slots1, o0));
            lemma_keys_frame(slots0, slots1, o0, m0);
            assert(slots1[s as int].key@ == key@);
            assert(slot_index(self.map) == m0);
        }
        let mut evicted = false;
        if index_len(&self.map) >= self.capacity {
            match self.tail {
                Some(t) => {
                    let prev = self.slots[t].prev;
                    let key_to_remove = self.slots[t].key.clone();
                    index_remove(&mut self.map, &key_to_remove);
                    self.tail = prev;
                    match prev {
                        Some(p) => {
                            proof {
                                assert(t == o1.last());
                                assert(link_at(slots1, o1, o1.len() - 1));
                                assert(o1.len() >= 2);
                                assert(p == o1[o1.len() - 2]);
                            }
                            self.slots[p].next = None;
                            proof {
                                self.order@ = o1.drop_last();
                            }
                            self.free.push(t);
                            evicted = true;
                        },
                        None => {
                            proof {
                                assert(t == o1.last());
                                assert(link_at(slots1, o1, o1.len() - 1));
                                assert(o1.len() == 1);
                                assert(t == s);
                                assert(slot_index(self.map) =~= m0);
                            }
                        },
                    }
                },
                None => {},
            }
        }
        proof {
            if !evicted {
                assert(slot_index(self.map) == m0);
                assert(self.order@ == o1);
                assert(self.free@ == free1);
            }
        }
        index_insert(&mut self.map, key, s);
        proof {
            let slots2 = self.slots@;
            let o2 = self.order@;
            let e = fresh_entry(v0, key@, value@, now);
            assert(entry_of(slots2[s as int]) == e);
            assert forall|j: int| 0 <= j < slots2.len() implies (#[trigger] slots2[j]).key == slots1[j].key && entry_of(slots2[j]) == entry_of(slots1[j]) by {
            }
            if evicted {
                let n0 = o0.len();
                assert(n0 >= 1);
                assert(o2 == seq![s] + o0.drop_last());
                let t = o1.last();
                assert(t == o0[n0 - 1]);
                let p = o1[o1.len() - 2];
                // the list
                assert forall|j: int| 0 <= j < o2.len() implies #[trigger] link_at(slots2, o2, j) by {
                    assert(o2[j] == o1[j]);
                    assert(link_at(slots1, o1, j));
                    if j + 1 < o2.len() {
                        assert(o2[j + 1] == o1[j + 1]);
                    }
                    if j > 0 {
                        assert(o2[j - 1] == o1[j - 1]);
                    }
                    if j < o2.len() - 1 {
                        assert(o1[j] != p);
                    }
                }
                assert forall|a: int| 0 <= a < o2.len() implies (#[trigger] o2[a]) < slots2.len() by {
                    assert(o2[a] == o1[a]);
                }
                assert forall|a: int, b: int| 0 <= a < o2.len() && 0 <= b < o2.len() && a != b implies (#[trigger] o2[a]) != (#[trigger] o2[b]) by {
                    assert(o2[a] == o1[a]);
                    assert(o2[b] == o1[b]);
                }
                assert(o2.last() == o2[o2.len() - 1]);
                assert(list_ok(slots2, o2, self.head, self.tail));
                // the index
                let kt = key_of(slots1, o0, n0 - 1);
                assert(kt == slots1[t as int].key@);
                lemma_keys_remove(slots1, o0, m0, n0 - 1);
                assert(o0.remove(n0 - 1) =~= o0.drop_last());
                lemma_keys_push_front(slots1, o0.drop_last(), m0.remove(kt), s);
                assert(same_keys_on(slots1, slots2, o2));
                lemma_keys_frame(slots1, slots2, o2, m0.remove(kt).insert(key@, s));
                // the free slots
                let f = self.free@;
                let f1 = old(self).free@;
                assert forall|a: int, b: int| 0 <= a < f.len() && 0 <= b < o2.len() implies (#[trigger] f[a]) != (#[trigger] o2[b]) by {
                    assert(o2[b] == o1[b]);
                    if a == f.len() - 1 {
                        assert(o1[o1.len() - 1] == t);
                    }
                }
                assert forall|a: int, b: int| 0 <= a < f.len() && 0 <= b < f.len() && a != b implies (#[trigger] f[a]) != (#[trigger] f[b]) by {
                    if a == f.len() - 1 {
                        assert(o1[o1.len() - 1] == t);
                        assert(f[b] != o1[o1.len() - 1]);
                    } else if b == f.len() - 1 {
                        assert(o1[o1.len() - 1] == t);
                        assert(f[a] != o1[o1.len() - 1]);
                    }
                }
                assert forall|a: int| 0 <= a < f.len() implies (#[trigger] f[a]) < slots2.len() by {
                }
                assert(keys_match(slots2, o2, slot_index(self.map)));
                assert(free_ok(self.free@, slots2.len() as int, o2));
                // the view
                self.lemma_view();
                assert(self@.entries =~= seq![e] + v0.entries.drop_last()) by {
                    assert forall|j: int| 0 <= j < o2.len() implies #[trigger] self@.entries[j] == (seq![e] + v0.entries.drop_last())[j] by {
                        if j > 0 {
                            assert(o2[j] == o0[j - 1]);
                            assert(v0.entries[j - 1] == entry_of(slots0[o0[j - 1] as int]));
                            assert(o0[j - 1] != s);
                        }
                    }
                }
            } else {
                assert(o2 == o1);
                lemma_keys_push_front(slots1, o0, m0, s);
                assert(same_keys_on(slots1, slots2, o2));
                lemma_keys_frame(slots1, slots2, o2, m0.insert(key@, s));
                assert forall|j: int| 0 <= j < o2.len() implies #[trigger] link_at(slots2, o2, j) by {
                    assert(link_at(slots1, o1, j));
                }
                assert(list_ok(slots2, o2, self.head, self.tail));
                assert(keys_match(slots2, o2, slot_index(self.map)));
                assert(free_ok(self.free@, slots2.len() as int, o2));
                self.lemma_view();
                assert(self@.entries =~= seq![e] + v0.entries) by {
                    assert forall|j: int| 0 <= j < o2.len() implies #[trigger] self@.entries[j] == (seq![e] + v0.entries)[j] by {
                        if j > 0 {
                            assert(o2[j] == o0[j - 1]);
                            assert(v0.entries[j - 1] == entry_of(slots0[o0[j - 1] as int]));
                            assert(o0[j - 1] != s);
                        }
                    }
                }
            }
        }
    }
}


/// The view of a list of key-value pairs.
pub open spec fn pairs_view(v: Seq<(String, String)>) -> Seq<(Seq<char>, Seq<char>)> {
    v.map_values(|p: (String, String)| (p.0@, p.1@))
}

impl LRUCache {
    /// Nanoseconds since the cache was made. `Instant` never goes back, so
    /// a reading is no earlier than the latest one taken before; the cache
    /// keeps that latest reading and never answers with an earlier time.
    fn now(&mut self) -> (t: u128)
        requires
            old(self).wf(),
        ensures
            final(self).wf(),
            old(self).last_time <= t <= MAX_DURATION_NANOS,
            final(self).last_time == t,
            final(self)@ == old(self)@,
            final(self).map == old(self).map,
            final(self).clock == old(self).clock,
            final(self).order == old(self).order,
            final(self).slots == old(self).slots,
            final(self).free == old(self).free,
            final(self).head == old(self).head,
            final(self).tail == old(self).tail,
    {
        let since = time_since(&self.clock);
        let reading = duration_nanos(&since);
        let t = if reading < self.last_time { self.last_time } else { reading };
        self.last_time = t;
        t
    }

    /// Writes `value` under `key` at time `now`. The entry lives until
    /// `now` plus the cache's lifetime and becomes the most recently used; a
    /// new key may push out the least recently used entry (see `after_store`).
    pub fn put_at(&mut self, key: String, value: String, now: u128)
        requires
            old(self).wf(),
            now + old(self)@.ttl <= u128::MAX,
        ensures
            final(self).wf(),
            final(self)@ == after_store(old(self)@, key@, value@, now),
            final(self).clock_floor() == old(self).clock_floor(),
    {
        proof {
            self.lemma_locate(key@);
            self.lemma_view();
        }
        let ghost i = key_position(self@.entries, key@);
        let ghost v0 = self@;
        match index_get(&self.map, &key) {
            Some(s) => {
                let ghost slots0 = self.slots@;
                self.slots[s].value = value;
                self.slots[s].expires_at = now + self.expires;
                proof {
                    let o = self.order@;
                    let slots1 = self.slots@;
                    assert forall|j: int| 0 <= j < o.len() implies #[trigger] link_at(slots1, o, j) by {
                        assert(link_at(slots0, o, j));
                    }
                    assert(same_keys_on(slots0, slots1, o));
                    lemma_keys_frame(slots0, slots1, o, slot_index(self.map));
                    self.lemma_view();
                    let e = fresh_entry(v0, key@, value@, now);
                    assert(self@.entries =~= v0.entries.update(i, e)) by {
                        assert forall|j: int| 0 <= j < o.len() implies #[trigger] self@.entries[j] == v0.entries.update(i, e)[j] by {
                            if j != i {
                                assert(o[j] != s);
                            }
                        }
                    }
                    assert(v0.entries.update(i, e).remove(i) =~= v0.entries.remove(i));
                }
                self.move_to_head(s, Ghost(i));
            },
            None => {
                self.store_new(key, value, now);
            },
        }
    }

    /// Walks the list from the front, dropping each entry expired at the time
    /// it is visited (`fixed`, or the clock when `None`), and gives back the
    /// key and value of the others.
    fn sweep_expired(&mut self, fixed: Option<u128>) -> (all: Vec<(String, String)>)
        requires
            old(self).wf(),
        ensures
            final(self).wf(),
            exists|ts: Seq<u128>|
                {
                    &&& ts.len() == old(self)@.entries.len()
                    &&& (fixed matches Some(t) ==> forall|i: int| 0 <= i < ts.len() ==> ts[i] == t)
                    &&& (fixed is None ==> forall|i: int| 0 <= i < ts.len() ==> ts[i] <= MAX_DURATION_NANOS)
                    &&& (fixed is None ==> forall|i: int| #![trigger ts[i]] 0 <= i < ts.len() ==> old(self).last_time <= ts[i] <= final(self).last_time)
                    &&& (fixed is None ==> forall|i: int, k: int| #![trigger ts[i], ts[k]] 0 <= i <= k < ts.len() ==> ts[i] <= ts[k])
                    &&& final(self)@ == after_sweep(old(self)@, ts)
                    &&& pairs_view(all@) == pairs_of(sweep(old(self)@.entries, ts))
                },
            fixed is Some ==> final(self).last_time == old(self).last_time,
            old(self).last_time <= final(self).last_time,
    {
        proof {
            self.lemma_view();
        }
        let ghost lt0 = self.last_time;
        let ghost v0 = self@;
        let ghost e0 = v0.entries;
        let ghost n: int = e0.len() as int;
        let ghost mut j: int = 0;
        let ghost mut ts: Seq<u128> = Seq::empty();
        let mut current = self.head;
        let mut get_all: Vec<(String, String)> = Vec::new();
        proof {
            assert(e0.take(0) =~= Seq::<CacheEntry>::empty());
            assert(e0.skip(0) =~= e0);
            assert(self@.entries =~= sweep(e0.take(0), ts) + e0.skip(0));
        }
        while current.is_some()
            invariant
                self.wf(),
                0 <= j <= n,
                ts.len() == j,
                fixed matches Some(t) ==> forall|i: int| 0 <= i < ts.len() ==> ts[i] == t,
                fixed is None ==> forall|i: int| 0 <= i < ts.len() ==> ts[i] <= MAX_DURATION_NANOS,
                fixed is None ==> forall|i: int| #![trigger ts[i]] 0 <= i < ts.len() ==> lt0 <= ts[i] <= self.last_time,
                fixed is None ==> forall|i: int, k: int| #![trigger ts[i], ts[k]] 0 <= i <= k < ts.len() ==> ts[i] <= ts[k],
                fixed is Some ==> self.last_time == lt0,
                lt0 <= self.last_time,
                lt0 == old(self).last_time,
                self@.entries == sweep(e0.take(j), ts) + e0.skip(j),
                current == (if j < n { Some(self.order@[sweep(e0.take(j), ts).len() as int]) } else { None::<usize> }),
                self@.tail_lost == (v0.tail_lost && !(j == n && n > 0 && is_expired(e0.last(), ts.last()))),
                self@.capacity == v0.capacity,
                self@.ttl == v0.ttl,
                pairs_view(get_all@) == pairs_of(sweep(e0.take(j), ts)),
                n == e0.len(),
                e0 == v0.entries,
                v0.tail_lost ==> n > 0,
            decreases n - j,
        {
            let node = current.unwrap();
            let ghost kept = sweep(e0.take(j), ts);
            let ghost k = kept.len() as int;
            proof {
                self.lemma_view();
                self.lemma_locate(e0[j].key);
                assert(j < n);
                assert(self@.entries[k] == e0[j]);
                assert(self.order@[k] == node);
                assert(link_at(self.slots@, self.order@, k));
            }
            let key = self.slots[node].key.clone();
            let value = self.slots[node].value.clone();
            let expires_at = self.slots[node].expires_at;
            current = self.slots[node].next;
            let now = match fixed {
                Some(t) => t,
                None => self.now(),
            };
            let ghost ts2 = ts.push(now);
            proof {
                let es2 = e0.take(j + 1);
                assert(es2.drop_last() =~= e0.take(j));
                assert(ts2.drop_last() =~= ts);
                assert(es2.last() == e0[j]);
                assert(e0.skip(j).drop_first() =~= e0.skip(j + 1));
                assert(self@.entries.len() == k + (n - j));
                let es = self@.entries;
                assert(key_position(es, key@) == k) by {
                    assert(es[k].key == key@);
                    assert(holds_key(es, key@));
                    let i2 = key_position(es, key@);
                    assert(es[i2].key == key@);
                }
            }
            if expires_at < now {
                self.remove(key);
            } else {
                let ghost ga0 = get_all@;
                get_all.push((key, value));
                proof {
                    let kept2 = sweep(e0.take(j + 1), ts2);
                    assert(kept2 == kept.push(e0[j]));
                    assert(get_all@ == ga0.push((key, value)));
                    assert(key@ == e0[j].key && value@ == e0[j].value);
                    assert(pairs_view(ga0).len() == ga0.len());
                    assert(pairs_of(kept).len() == kept.len());
                    assert(kept2.len() == get_all@.len());
                    assert(pairs_view(get_all@) =~= pairs_of(kept2)) by {
                        assert forall|x: int| 0 <= x < get_all@.len() implies #[trigger] pairs_view(get_all@)[x] == pairs_of(kept2)[x] by {
                            if x < ga0.len() {
                                assert(pairs_view(ga0)[x] == pairs_of(kept)[x]);
                                assert(get_all@[x] == ga0[x]);
                                assert(kept2[x] == kept[x]);
                            } else {
                                assert(x == ga0.len());
                                assert(get_all@[x] == (key, value));
                                assert(kept2[x] == e0[j]);
                            }
                        }
                    }
                }
            }
            proof {
                let kept2 = sweep(e0.take(j + 1), ts2);
                if expires_at < now {
                    assert(kept2 == kept);
                    assert(self@.entries =~= kept2 + e0.skip(j + 1));
                } else {
                    assert(kept2 == kept.push(e0[j]));
                    assert(self@.entries =~= kept2 + e0.skip(j + 1));
                    assert(pairs_view(get_all@) =~= pairs_of(kept2));
                }
                j = j + 1;
                ts = ts2;
                if j < n {
                    assert(current == Some(self.order@[kept2.len() as int]));
                }
                if j == n {
                    assert(e0.take(j) =~= e0);
                }
            }
        }
        proof {
            assert(j == n);
            assert(e0.take(n) =~= e0);
            assert(e0.skip(n) =~= Seq::<CacheEntry>::empty());
            assert(self@.entries =~= sweep(e0, ts));
            assert(self@ == after_sweep(v0, ts));
            assert(pairs_view(get_all@) == pairs_of(sweep(e0, ts)));
        }
        get_all
    }
}


impl LRUCache {
    /// Reads `key` now (see `get_at`).
    pub fn get(&mut self, key: &String) -> (found: Option<String>)
        requires
            old(self).wf(),
        ensures
            final(self).wf(),
            exists|now: u128|
                {
                    &&& old(self).clock_floor() <= now <= MAX_DURATION_NANOS
                    &&& final(self).clock_floor() == now
                    &&& opt_view(found) == #[trigger] lookup(old(self)@, key@, now)
                    &&& final(self)@ == after_lookup(old(self)@, key@, now)
                },
    {
        let now = self.now();
        let found = self.get_at(key, now);
        proof {
            assert(opt_view(found) == lookup(old(self)@, key@, now));
        }
        found
    }

    /// Writes `value` under `key` now (see `put_at`).
    pub fn put(&mut self, key: String, value: String)
        requires
            old(self).wf(),
        ensures
            final(self).wf(),
            exists|now: u128|
                {
                    &&& old(self).clock_floor() <= now <= MAX_DURATION_NANOS
                    &&& final(self).clock_floor() == now
                    &&& final(self)@ == #[trigger] after_store(old(self)@, key@, value@, now)
                },
    {
        let now = self.now();
        proof {
            self.lemma_view();
        }
        let ghost k = key@;
        let ghost v = value@;
        self.put_at(key, value, now);
        proof {
            assert(self@ == after_store(old(self)@, k, v, now));
        }
    }

    /// Lists the live entries at time `now`, most recently used first, and
    /// drops the expired ones.
    pub fn print_at(&mut self, now: u128) -> (all: Vec<(String, String)>)
        requires
            old(self).wf(),
        ensures
            final(self).wf(),
            ({
                let ts = Seq::new(old(self)@.entries.len(), |i: int| now);
                &&& final(self)@ == after_sweep(old(self)@, ts)
                &&& pairs_view(all@) == pairs_of(sweep(old(self)@.entries, ts))
            }),
            final(self).clock_floor() == old(self).clock_floor(),
    {
        let all = self.sweep_expired(Some(now));
        proof {
            let ts = choose|ts: Seq<u128>|
                {
                    &&& ts.len() == old(self)@.entries.len()
                    &&& (forall|i: int| 0 <= i < ts.len() ==> ts[i] == now)
                    &&& self@ == after_sweep(old(self)@, ts)
                    &&& pairs_view(all@) == pairs_of(sweep(old(self)@.entries, ts))
                };
            assert(ts =~= Seq::new(old(self)@.entries.len(), |i: int| now));
        }
        all
    }

    /// Lists the live entries, most recently used first, and drops the
    /// expired ones; each entry is checked against the clock when it is
    /// visited.
    pub fn print(&mut self) -> (all: Vec<(String, String)>)
        requires
            old(self).wf(),
        ensures
            final(self).wf(),
            exists|ts: Seq<u128>|
                {
                    &&& ts.len() == old(self)@.entries.len()
                    &&& forall|i: int| 0 <= i < ts.len() ==> ts[i] <= MAX_DURATION_NANOS
                    &&& forall|i: int| #![trigger ts[i]] 0 <= i < ts.len() ==> old(self).clock_floor() <= ts[i] <= final(self).clock_floor()
                    &&& forall|i: int, k: int| #![trigger ts[i], ts[k]] 0 <= i <= k < ts.len() ==> ts[i] <= ts[k]
                    &&& final(self)@ == #[trigger] after_sweep(old(self)@, ts)
                    &&& pairs_view(all@) == pairs_of(sweep(old(self)@.entries, ts))
                },
            old(self).clock_floor() <= final(self).clock_floor(),
    {
        self.sweep_expired(None)
    }
}

} // verus!
