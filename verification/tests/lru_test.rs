use pandas_pouch::lru::LRUCache;

fn s(x: &str) -> String {
    x.to_string()
}

fn pairs(v: &[(&str, &str)]) -> Vec<(String, String)> {
    v.iter().map(|(k, x)| (k.to_string(), x.to_string())).collect()
}

#[test]
fn read_after_write() {
    let mut cache = LRUCache::new(2, Some(100));
    cache.put_at(s("a"), s("1"), 0);
    assert_eq!(Some(s("1")), cache.get_at(&s("a"), 100));
    assert_eq!(None, cache.get_at(&s("b"), 100));
}

#[test]
fn expired_entry_is_dropped_on_read() {
    let mut cache = LRUCache::new(2, Some(5));
    cache.put_at(s("a"), s("1"), 10);
    // lives until 15: a read at 15 still finds it, a read at 16 does not
    assert_eq!(Some(s("1")), cache.get_at(&s("a"), 15));
    assert_eq!(None, cache.get_at(&s("a"), 16));
    // and it is gone, even for an earlier time
    assert_eq!(None, cache.get_at(&s("a"), 0));
    assert_eq!(Vec::<(String, String)>::new(), cache.print_at(0));
}

#[test]
fn reading_does_not_renew_lifetime() {
    let mut cache = LRUCache::new(2, Some(5));
    cache.put_at(s("a"), s("1"), 0);
    assert_eq!(Some(s("1")), cache.get_at(&s("a"), 4));
    assert_eq!(None, cache.get_at(&s("a"), 6));
}

#[test]
fn writing_renews_lifetime() {
    let mut cache = LRUCache::new(2, Some(5));
    cache.put_at(s("a"), s("1"), 0);
    cache.put_at(s("a"), s("2"), 4);
    assert_eq!(Some(s("2")), cache.get_at(&s("a"), 9));
    assert_eq!(None, cache.get_at(&s("a"), 10));
}

#[test]
fn full_cache_evicts_least_recently_used() {
    let mut cache = LRUCache::new(2, None);
    cache.put_at(s("a"), s("1"), 0);
    cache.put_at(s("b"), s("2"), 0);
    // reading a makes b the least recently used
    assert_eq!(Some(s("1")), cache.get_at(&s("a"), 0));
    cache.put_at(s("c"), s("3"), 0);
    assert_eq!(None, cache.get_at(&s("b"), 0));
    assert_eq!(pairs(&[("c", "3"), ("a", "1")]), cache.print_at(0));
}

#[test]
fn overwrite_keeps_size_and_moves_to_front() {
    let mut cache = LRUCache::new(3, None);
    cache.put_at(s("a"), s("1"), 0);
    cache.put_at(s("b"), s("2"), 0);
    cache.put_at(s("c"), s("3"), 0);
    cache.put_at(s("a"), s("9"), 0);
    assert_eq!(pairs(&[("a", "9"), ("c", "3"), ("b", "2")]), cache.print_at(0));
    cache.put_at(s("d"), s("4"), 0);
    assert_eq!(pairs(&[("d", "4"), ("a", "9"), ("c", "3")]), cache.print_at(0));
}

#[test]
fn print_lists_live_entries_most_recent_first() {
    let mut cache = LRUCache::new(4, Some(10));
    cache.put_at(s("a"), s("1"), 0);
    cache.put_at(s("b"), s("2"), 5);
    cache.put_at(s("c"), s("3"), 0);
    assert_eq!(pairs(&[("c", "3"), ("b", "2"), ("a", "1")]), cache.print_at(10));
    // at 12, a and c have expired and are dropped
    assert_eq!(pairs(&[("b", "2")]), cache.print_at(12));
    assert_eq!(pairs(&[("b", "2")]), cache.print_at(0));
}

#[test]
fn capacity_one_keeps_the_last_write() {
    let mut cache = LRUCache::new(1, None);
    cache.put_at(s("a"), s("1"), 0);
    cache.put_at(s("b"), s("2"), 0);
    assert_eq!(None, cache.get_at(&s("a"), 0));
    assert_eq!(Some(s("2")), cache.get_at(&s("b"), 0));
    assert_eq!(pairs(&[("b", "2")]), cache.print_at(0));
}

#[test]
fn capacity_zero_keeps_the_first_write_and_then_grows() {
    let mut cache = LRUCache::new(0, None);
    cache.put_at(s("a"), s("1"), 0);
    cache.put_at(s("b"), s("2"), 0);
    cache.put_at(s("c"), s("3"), 0);
    assert_eq!(pairs(&[("c", "3"), ("b", "2"), ("a", "1")]), cache.print_at(0));
    assert_eq!(Some(s("2")), cache.get_at(&s("b"), 0));
    cache.put_at(s("d"), s("4"), 0);
    assert_eq!(pairs(&[("d", "4"), ("b", "2"), ("c", "3"), ("a", "1")]), cache.print_at(0));
}

#[test]
fn capacity_zero_tail_found_again_after_touching_last() {
    let mut cache = LRUCache::new(0, None);
    cache.put_at(s("a"), s("1"), 0);
    cache.put_at(s("b"), s("2"), 0);
    // a is the last entry; touching it sets the tail again
    assert_eq!(Some(s("1")), cache.get_at(&s("a"), 0));
    cache.put_at(s("c"), s("3"), 0);
    // now a write evicts the least recently used entry, b
    assert_eq!(pairs(&[("c", "3"), ("a", "1")]), cache.print_at(0));
}

#[test]
fn clock_based_operations_work() {
    let mut cache = LRUCache::new(2, None);
    cache.put(s("k"), s("v"));
    assert_eq!(Some(s("v")), cache.get(&s("k")));
    assert_eq!(pairs(&[("k", "v")]), cache.print());
}

#[test]
fn zero_lifetime_expires_later() {
    let mut cache = LRUCache::new(2, Some(0));
    cache.put_at(s("k"), s("v"), 7);
    assert_eq!(Some(s("v")), cache.get_at(&s("k"), 7));
    assert_eq!(None, cache.get_at(&s("k"), 8));
}

#[test]
fn many_writes_reuse_slots() {
    let mut cache = LRUCache::new(3, None);
    for i in 0..100u32 {
        cache.put_at(i.to_string(), i.to_string(), 0);
    }
    assert_eq!(pairs(&[("99", "99"), ("98", "98"), ("97", "97")]), cache.print_at(0));
    for i in 0..100u32 {
        let _ = cache.get_at(&i.to_string(), 0);
    }
    assert_eq!(pairs(&[("99", "99"), ("98", "98"), ("97", "97")]), cache.print_at(0));
}

#[test]
fn listing_twice_at_one_time_repeats_the_list() {
    let mut cache = LRUCache::new(4, Some(10));
    cache.put_at(s("a"), s("1"), 0);
    cache.put_at(s("b"), s("2"), 5);
    cache.put_at(s("c"), s("3"), 3);
    let first = cache.print_at(12);
    assert_eq!(pairs(&[("c", "3"), ("b", "2")]), first);
    assert_eq!(first, cache.print_at(12));
}

#[test]
fn default_lifetime_is_one_hour() {
    let hour: u128 = 3_600_000_000_000;
    let mut cache = LRUCache::new(2, None);
    cache.put_at(s("k"), s("v"), 1);
    assert_eq!(Some(s("v")), cache.get_at(&s("k"), 1 + hour));
    assert_eq!(None, cache.get_at(&s("k"), 2 + hour));
}

#[test]
fn given_lifetime_is_kept() {
    let mut cache = LRUCache::new(2, Some(60_000_000_000));
    cache.put_at(s("k"), s("v"), 0);
    assert_eq!(Some(s("v")), cache.get_at(&s("k"), 60_000_000_000));
    assert_eq!(None, cache.get_at(&s("k"), 60_000_000_001));
}

#[test]
fn capacity_bound_holds_over_many_operations() {
    let mut cache = LRUCache::new(2, Some(50));
    for i in 0..20u32 {
        cache.put_at(i.to_string(), i.to_string(), i as u128);
        let _ = cache.get_at(&(i / 2).to_string(), i as u128);
        assert!(cache.print_at(i as u128).len() <= 2);
    }
}
