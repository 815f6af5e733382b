//! What holds of the cache across its operations, stated over its model.
use vstd::prelude::*;
use crate::lru::{
    CacheEntry, LruView, after_lookup, after_store, after_sweep, distinct_keys, fresh_entry,
    holds_key, is_expired, key_position, lookup, pairs_of, sound_view, sweep,
};

verus! {

/// In a list with distinct keys, a key stands where it is found.
pub proof fn lemma_position_is_unique(es: Seq<CacheEntry>, k: Seq<char>, i: int)
    requires
        distinct_keys(es),
        0 <= i < es.len(),
        es[i].key == k,
    ensures
        key_position(es, k) == i,
{
    assert(holds_key(es, k));
    let j = key_position(es, k);
    assert(es[j].key == k);
}

/// A write keeps the model well formed and puts the written entry in front.
pub proof fn lemma_store_front(v: LruView, k: Seq<char>, value: Seq<char>, now: u128)
    requires
        sound_view(v),
    ensures
        sound_view(after_store(v, k, value, now)),
        after_store(v, k, value, now).entries.len() > 0,
        after_store(v, k, value, now).entries[0] == fresh_entry(v, k, value, now),
        after_store(v, k, value, now).capacity == v.capacity,
        after_store(v, k, value, now).ttl == v.ttl,
{
    let w = after_store(v, k, value, now);
    let e = fresh_entry(v, k, value, now);
    let es = v.entries;
    let i = key_position(es, k);
    if i >= 0 {
        assert(holds_key(es, k));
        assert(es[i].key == k);
        let rest = es.remove(i);
        assert(w.entries == seq![e] + rest);
        assert forall|a: int, b: int|
            0 <= a < w.entries.len() && 0 <= b < w.entries.len() && a != b implies (#[trigger] w.entries[a]).key != (#[trigger] w.entries[b]).key by {
            let a1 = if a - 1 < i { a - 1 } else { a };
            let b1 = if b - 1 < i { b - 1 } else { b };
            if a > 0 {
                assert(w.entries[a] == es[a1]);
                assert(a1 != i);
            }
            if b > 0 {
                assert(w.entries[b] == es[b1]);
                assert(b1 != i);
            }
        }
    } else {
        assert(!holds_key(es, k));
        let rest = if !v.tail_lost && es.len() >= v.capacity && es.len() > 0 { es.drop_last() } else { es };
        assert(w.entries =~= seq![e] + rest);
        assert forall|a: int, b: int|
            0 <= a < w.entries.len() && 0 <= b < w.entries.len() && a != b implies (#[trigger] w.entries[a]).key != (#[trigger] w.entries[b]).key by {
            if a > 0 {
                assert(w.entries[a] == es[a - 1]);
            }
            if b > 0 {
                assert(w.entries[b] == es[b - 1]);
            }
        }
    }
}

/// Read what you wrote: right after a write of `k`, a read of `k` that comes
/// before the new entry expires finds the value written. This holds for every
/// capacity, zero included.
pub proof fn lemma_read_after_write(v: LruView, k: Seq<char>, value: Seq<char>, t: u128, later: u128)
    requires
        sound_view(v),
        t + v.ttl <= u128::MAX,
        later <= t + v.ttl,
    ensures
        lookup(after_store(v, k, value, t), k, later) == Some(value),
{
    lemma_store_front(v, k, value, t);
    let w = after_store(v, k, value, t);
    lemma_position_is_unique(w.entries, k, 0);
}

/// A read keeps the model well formed.
pub proof fn lemma_lookup_sound(v: LruView, k: Seq<char>, now: u128)
    requires
        sound_view(v),
    ensures
        sound_view(after_lookup(v, k, now)),
        after_lookup(v, k, now).capacity == v.capacity,
        after_lookup(v, k, now).ttl == v.ttl,
        after_lookup(v, k, now).entries.len() <= v.entries.len(),
        after_lookup(v, k, now).tail_lost ==> v.tail_lost,
{
    let es = v.entries;
    let i = key_position(es, k);
    let w = after_lookup(v, k, now);
    if i >= 0 {
        assert(holds_key(es, k));
        assert(es[i].key == k);
        assert forall|a: int, b: int|
            0 <= a < w.entries.len() && 0 <= b < w.entries.len() && a != b implies (#[trigger] w.entries[a]).key != (#[trigger] w.entries[b]).key by {
            if is_expired(es[i], now) {
                let a1 = if a < i { a } else { a + 1 };
                let b1 = if b < i { b } else { b + 1 };
                assert(w.entries[a] == es[a1]);
                assert(w.entries[b] == es[b1]);
            } else {
                let a1 = if a == 0 { i } else if a - 1 < i { a - 1 } else { a };
                let b1 = if b == 0 { i } else if b - 1 < i { b - 1 } else { b };
                assert(w.entries[a] == es[a1]);
                assert(w.entries[b] == es[b1]);
            }
        }
    }
}

/// A live entry that is read becomes the most recently used; its value and
/// lifetime stay as they were, and no entry is added or lost.
pub proof fn lemma_read_promotes(v: LruView, k: Seq<char>, now: u128)
    requires
        sound_view(v),
        lookup(v, k, now) is Some,
    ensures
        after_lookup(v, k, now).entries[0] == v.entries[key_position(v.entries, k)],
        after_lookup(v, k, now).entries.len() == v.entries.len(),
        after_lookup(v, k, now).entries.to_multiset() == v.entries.to_multiset(),
{
    broadcast use vstd::seq_lib::group_to_multiset_ensures;
    let es = v.entries;
    let i = key_position(es, k);
    let rest = es.remove(i);
    vstd::seq_lib::to_multiset_remove(es, i);
    vstd::seq_lib::lemma_multiset_commutative(seq![es[i]], rest);
    assert(seq![es[i]].to_multiset() =~= vstd::multiset::Multiset::singleton(es[i])) by {
        broadcast use vstd::multiset::group_multiset_axioms;
        assert(seq![es[i]].drop_first() =~= Seq::<CacheEntry>::empty());
    }
    broadcast use vstd::multiset::group_multiset_axioms;
    assert(es.to_multiset().remove(es[i]).add(vstd::multiset::Multiset::singleton(es[i])) =~= es.to_multiset());
}

/// A read of an entry that has expired answers nothing and drops the entry.
pub proof fn lemma_expired_read_drops(v: LruView, k: Seq<char>, now: u128)
    requires
        sound_view(v),
        holds_key(v.entries, k),
        is_expired(v.entries[key_position(v.entries, k)], now),
    ensures
        lookup(v, k, now) is None,
        !holds_key(after_lookup(v, k, now).entries, k),
        after_lookup(v, k, now).entries.len() == v.entries.len() - 1,
{
    let es = v.entries;
    let i = key_position(es, k);
    assert(es[i].key == k);
    let w = after_lookup(v, k, now);
    if holds_key(w.entries, k) {
        let j = choose|j: int| 0 <= j < w.entries.len() && (#[trigger] w.entries[j]).key == k;
        let j1 = if j < i { j } else { j + 1 };
        assert(w.entries[j] == es[j1]);
    }
}

/// Overwriting a key that the cache holds changes no entry count.
pub proof fn lemma_overwrite_keeps_size(v: LruView, k: Seq<char>, value: Seq<char>, now: u128)
    requires
        sound_view(v),
        holds_key(v.entries, k),
    ensures
        after_store(v, k, value, now).entries.len() == v.entries.len(),
{
    let i = key_position(v.entries, k);
    assert(v.entries[i].key == k);
}

/// When the cache is full, a write of a new key pushes out the least recently
/// used entry, and only that one; the others keep their order behind the new
/// entry.
pub proof fn lemma_full_write_evicts_lru(v: LruView, k: Seq<char>, value: Seq<char>, now: u128)
    requires
        sound_view(v),
        !holds_key(v.entries, k),
        !v.tail_lost,
        v.entries.len() >= v.capacity,
        v.entries.len() > 0,
    ensures
        after_store(v, k, value, now).entries == seq![fresh_entry(v, k, value, now)] + v.entries.drop_last(),
        !holds_key(after_store(v, k, value, now).entries, v.entries.last().key),
{
    let es = v.entries;
    let w = after_store(v, k, value, now);
    let lk = es.last().key;
    if holds_key(w.entries, lk) {
        let j = choose|j: int| 0 <= j < w.entries.len() && (#[trigger] w.entries[j]).key == lk;
        if j == 0 {
            assert(es[es.len() - 1].key == lk);
        } else {
            assert(w.entries[j] == es[j - 1]);
            assert(es[es.len() - 1].key == lk);
        }
    }
}

/// A cache with room for at least one entry never holds more than its
/// capacity: reads, writes and sweeps all keep the bound, and its tail is
/// never lost.
pub proof fn lemma_capacity_respected(v: LruView, k: Seq<char>, value: Seq<char>, now: u128, ts: Seq<u128>)
    requires
        sound_view(v),
        v.capacity >= 1,
    ensures
        !after_store(v, k, value, now).tail_lost,
        after_store(v, k, value, now).entries.len() <= v.capacity,
        !after_lookup(v, k, now).tail_lost,
        after_lookup(v, k, now).entries.len() <= v.capacity,
        !after_sweep(v, ts).tail_lost,
        after_sweep(v, ts).entries.len() <= v.capacity,
{
    lemma_lookup_sound(v, k, now);
    lemma_sweep_shrinks(v.entries, ts);
    let i = key_position(v.entries, k);
    if i >= 0 {
        assert(v.entries[i].key == k);
    }
}

/// A sweep keeps a subsequence of the entries.
pub proof fn lemma_sweep_shrinks(es: Seq<CacheEntry>, ts: Seq<u128>)
    ensures
        sweep(es, ts).len() <= es.len(),
    decreases es.len(),
{
    if es.len() > 0 {
        lemma_sweep_shrinks(es.drop_last(), ts.drop_last());
    }
}

/// With one time for every entry, a sweep keeps exactly the entries that are
/// live at that time, in their order.
pub proof fn lemma_sweep_keeps_live(es: Seq<CacheEntry>, now: u128)
    ensures
        sweep(es, Seq::new(es.len(), |i: int| now)) == es.filter(|e: CacheEntry| !is_expired(e, now)),
    decreases es.len(),
{
    reveal(Seq::filter);
    let ts = Seq::new(es.len(), |i: int| now);
    if es.len() > 0 {
        lemma_sweep_keeps_live(es.drop_last(), now);
        assert(ts.drop_last() =~= Seq::new(es.drop_last().len(), |i: int| now));
        assert(ts.last() == now);
    } else {
        assert(es.filter(|e: CacheEntry| !is_expired(e, now)) =~= Seq::<CacheEntry>::empty());
    }
}

/// A sweep at times at which no entry has expired keeps every entry.
pub proof fn lemma_sweep_keeps_all(es: Seq<CacheEntry>, ts: Seq<u128>)
    requires
        ts.len() == es.len(),
        forall|i: int| 0 <= i < es.len() ==> !is_expired(#[trigger] es[i], ts[i]),
    ensures
        sweep(es, ts) == es,
    decreases es.len(),
{
    if es.len() > 0 {
        let n = es.len() - 1;
        let es1 = es.drop_last();
        let ts1 = ts.drop_last();
        assert forall|i: int| 0 <= i < es1.len() implies !is_expired(#[trigger] es1[i], ts1[i]) by {
            assert(es1[i] == es[i]);
            assert(ts1[i] == ts[i]);
        }
        lemma_sweep_keeps_all(es1, ts1);
        assert(!is_expired(es[n], ts[n]));
        assert(es1.push(es.last()) =~= es);
    }
}

/// Listing twice in a row: when no entry that the first listing kept has
/// expired by the time the second listing visits it, the second listing
/// gives the same keys and values in the same order, and leaves the cache as
/// the first one left it.
pub proof fn law_second_listing_repeats_first(v: LruView, ts1: Seq<u128>, ts2: Seq<u128>)
    requires
        ts2.len() == sweep(v.entries, ts1).len(),
        forall|i: int| #![trigger ts2[i]] 0 <= i < ts2.len() ==> !is_expired(sweep(v.entries, ts1)[i], ts2[i]),
    ensures
        after_sweep(after_sweep(v, ts1), ts2) == after_sweep(v, ts1),
        pairs_of(sweep(after_sweep(v, ts1).entries, ts2)) == pairs_of(sweep(v.entries, ts1)),
{
    let kept = sweep(v.entries, ts1);
    assert forall|i: int| 0 <= i < kept.len() implies !is_expired(#[trigger] kept[i], ts2[i]) by {
        assert(!is_expired(sweep(v.entries, ts1)[i], ts2[i]));
    }
    lemma_sweep_keeps_all(kept, ts2);
    let w = after_sweep(v, ts1);
    if w.entries.len() > 0 {
        assert(!is_expired(kept[kept.len() - 1], ts2[ts2.len() - 1]));
    }
}

/// Listing twice at one time gives the same list the second time, and the
/// second listing leaves the cache as the first one left it.
pub proof fn law_listing_twice_at_one_time(v: LruView, now: u128)
    ensures
        ({
            let w = after_sweep(v, Seq::new(v.entries.len(), |i: int| now));
            let ts2 = Seq::new(w.entries.len(), |i: int| now);
            &&& after_sweep(w, ts2) == w
            &&& pairs_of(sweep(w.entries, ts2)) == pairs_of(w.entries)
        }),
{
    let ts1 = Seq::new(v.entries.len(), |i: int| now);
    let kept = sweep(v.entries, ts1);
    let ts2 = Seq::new(kept.len(), |i: int| now);
    lemma_sweep_keeps_live(v.entries, now);
    assert forall|i: int| #![trigger ts2[i]] 0 <= i < ts2.len() implies !is_expired(sweep(v.entries, ts1)[i], ts2[i]) by {
        v.entries.lemma_filter_pred(|e: CacheEntry| !is_expired(e, now), i);
    }
    law_second_listing_repeats_first(v, ts1, ts2);
}

/// A read after a write of `k` finds the value written exactly when it comes
/// no later than the write's time plus the lifetime; a later read finds
/// nothing and drops the entry. With the clock, a read after a write always
/// comes at a time no earlier than the write (see `get` and `put`).
pub proof fn law_read_after_write_until_expiry(v: LruView, k: Seq<char>, value: Seq<char>, t: u128, later: u128)
    requires
        sound_view(v),
        t + v.ttl <= u128::MAX,
    ensures
        lookup(after_store(v, k, value, t), k, later) == (if later <= t + v.ttl { Some(value) } else { None::<Seq<char>> }),
        later > t + v.ttl ==> !holds_key(after_lookup(after_store(v, k, value, t), k, later).entries, k),
{
    lemma_store_front(v, k, value, t);
    let w = after_store(v, k, value, t);
    lemma_position_is_unique(w.entries, k, 0);
    if later > t + v.ttl {
        assert(holds_key(w.entries, k));
        lemma_expired_read_drops(w, k, later);
    }
}

/// A listing whose visits all come at or after `t0` lists no entry that had
/// expired by `t0`, and leaves none in the cache.
pub proof fn law_listing_after_time_lists_nothing_expired(es: Seq<CacheEntry>, ts: Seq<u128>, t0: u128)
    requires
        ts.len() == es.len(),
        forall|i: int| 0 <= i < ts.len() ==> t0 <= #[trigger] ts[i],
    ensures
        forall|j: int| 0 <= j < sweep(es, ts).len() ==> !is_expired(#[trigger] sweep(es, ts)[j], t0),
    decreases es.len(),
{
    if es.len() > 0 {
        let es1 = es.drop_last();
        let ts1 = ts.drop_last();
        assert forall|i: int| 0 <= i < ts1.len() implies t0 <= #[trigger] ts1[i] by {
            assert(ts1[i] == ts[i]);
        }
        law_listing_after_time_lists_nothing_expired(es1, ts1, t0);
        let rest = sweep(es1, ts1);
        assert(t0 <= ts[ts.len() - 1]);
        assert forall|j: int| 0 <= j < sweep(es, ts).len() implies !is_expired(#[trigger] sweep(es, ts)[j], t0) by {
            if j < rest.len() {
                assert(sweep(es, ts)[j] == rest[j]);
            }
        }
    }
}

} // verus!
