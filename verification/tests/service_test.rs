use pandas_pouch::config::{DatabaseSettings, Settings};
use pandas_pouch::hash_ring::{HashRing, RingNodeInfo};
use pandas_pouch::lru::LRUCache;
use pandas_pouch::service::{
    join_cluster, leave_cluster, next_node_address, node_address, read_cached, route, settle_db_read,
    ClusterNode, Route,
};
use pandas_pouch::text::push_decimal;

fn node(port: u16) -> RingNodeInfo {
    RingNodeInfo { host: "localhost".to_string(), port }
}

fn member(port: i32) -> ClusterNode {
    ClusterNode { host: "localhost".to_string(), port }
}

#[test]
fn database_url_joins_the_parts() {
    let settings = Settings {
        local_addr: "0.0.0.0".to_string(),
        local_port: 50051,
        database: DatabaseSettings {
            host: "db:5432".to_string(),
            username: "panda".to_string(),
            password: "pass".to_string(),
            name: "cache".to_string(),
        },
        rust_log: "info".to_string(),
    };
    assert_eq!("postgresql://panda:pass@db:5432/cache", settings.database_url());
}

#[test]
fn decimal_digits() {
    let mut t = String::from("n=");
    push_decimal(&mut t, 0);
    assert_eq!("n=0", t);
    let mut t = String::new();
    push_decimal(&mut t, 1234567890123);
    assert_eq!("1234567890123", t);
    let mut t = String::new();
    push_decimal(&mut t, u64::MAX);
    assert_eq!(u64::MAX.to_string(), t);
}

#[test]
fn address_of_a_node() {
    assert_eq!("http://localhost:50051", node_address(&node(50051)));
}

#[test]
fn route_on_empty_ring_is_unplaced() {
    let ring: HashRing<RingNodeInfo> = HashRing::new(vec![], 10);
    assert!(matches!(route(&ring, &node(1), &"k".to_string()), Route::Unplaced));
    assert_eq!(None, next_node_address(&ring, &"k".to_string()));
}

#[test]
fn route_local_or_remote() {
    let ring: HashRing<RingNodeInfo> = HashRing::new(vec![node(15324), node(15325), node(15326)], 10);
    let key = "hello".to_string();
    let owner = ring.get_node(key.clone()).cloned().unwrap();
    assert!(matches!(route(&ring, &owner, &key), Route::Local));
    let other = if owner.port == 15324 { node(15325) } else { node(15324) };
    match route(&ring, &other, &key) {
        Route::Remote(addr) => assert_eq!(format!("http://localhost:{}", owner.port), addr),
        _ => panic!("expected a remote route"),
    }
    assert_eq!(Some(format!("http://localhost:{}", owner.port)), next_node_address(&ring, &key));
}

#[test]
fn db_read_fills_the_cache() {
    let mut cache = LRUCache::new(4, None);
    let reply = settle_db_read(&mut cache, "k".to_string(), Some("v".to_string()));
    assert!(reply.found);
    assert_eq!("v", reply.value);
    assert_eq!(Some("v".to_string()), cache.get(&"k".to_string()));
    let reply = settle_db_read(&mut cache, "x".to_string(), None);
    assert!(!reply.found);
    assert_eq!("", reply.value);
    assert_eq!(None, cache.get(&"x".to_string()));
}

#[test]
fn join_and_leave_the_cluster() {
    let mut nodes = vec![member(1), member(2)];
    let mut ring: HashRing<RingNodeInfo> = HashRing::new(vec![node(1), node(2)], 10);
    join_cluster(&mut nodes, &mut ring, Some(member(3)));
    assert_eq!(vec![member(1), member(2), member(3)], nodes);
    assert_eq!(30, ring.sorted_keys.len());
    join_cluster(&mut nodes, &mut ring, None);
    assert_eq!(3, nodes.len());
    leave_cluster(&mut nodes, &mut ring, Some(member(2)));
    assert_eq!(vec![member(1), member(3)], nodes);
    assert_eq!(20, ring.sorted_keys.len());
    assert!(ring.is_consistent());
    leave_cluster(&mut nodes, &mut ring, None);
    assert_eq!(2, nodes.len());
}

#[test]
fn leave_drops_every_listing() {
    let mut nodes = vec![member(1), member(2), member(1), member(3), member(1)];
    let mut ring: HashRing<RingNodeInfo> = HashRing::new(vec![], 10);
    leave_cluster(&mut nodes, &mut ring, Some(member(1)));
    assert_eq!(vec![member(2), member(3)], nodes);
}

#[test]
fn joining_port_is_cut_to_sixteen_bits() {
    let mut nodes = vec![];
    let mut ring: HashRing<RingNodeInfo> = HashRing::new(vec![], 1);
    join_cluster(&mut nodes, &mut ring, Some(member(65536 + 7)));
    let owner = ring.get_node("k".to_string()).cloned().unwrap();
    assert_eq!(7, owner.port);
}

#[test]
fn join_then_leave_restores_cluster() {
    let mut nodes = vec![member(1), member(2)];
    let mut ring: HashRing<RingNodeInfo> = HashRing::new(vec![node(1), node(2)], 10);
    let points = ring.sorted_keys.clone();
    join_cluster(&mut nodes, &mut ring, Some(member(3)));
    leave_cluster(&mut nodes, &mut ring, Some(member(3)));
    assert_eq!(vec![member(1), member(2)], nodes);
    assert_eq!(points, ring.sorted_keys);
    assert_eq!(20, ring.ring.len());
}

#[test]
fn cached_read_answers_hits_only() {
    let mut cache = LRUCache::new(4, None);
    assert!(read_cached(&mut cache, &"k".to_string()).is_none());
    cache.put("k".to_string(), "v".to_string());
    let reply = read_cached(&mut cache, &"k".to_string()).unwrap();
    assert!(reply.found);
    assert_eq!("v", reply.value);
    assert!(read_cached(&mut cache, &"other".to_string()).is_none());
}

#[test]
fn leave_then_join_restores_owners() {
    let mut nodes = vec![member(1), member(2), member(3)];
    let mut ring: HashRing<RingNodeInfo> = HashRing::new(vec![node(1), node(2), node(3)], 10);
    let points = ring.sorted_keys.clone();
    let owners: Vec<Option<RingNodeInfo>> =
        (0..50u32).map(|i| ring.get_node(format!("k{}", i)).cloned()).collect();
    leave_cluster(&mut nodes, &mut ring, Some(member(2)));
    for i in 0..50u32 {
        let key = format!("k{}", i);
        let before = owners[i as usize].clone().unwrap();
        let now = ring.get_node(key.clone()).cloned().unwrap();
        if before != node(2) {
            assert_eq!(before, now);
        } else {
            assert_ne!(node(2), now);
        }
    }
    join_cluster(&mut nodes, &mut ring, Some(member(2)));
    assert_eq!(points, ring.sorted_keys);
    for i in 0..50u32 {
        assert_eq!(owners[i as usize], ring.get_node(format!("k{}", i)).cloned());
    }
}

#[test]
fn join_moves_keys_only_to_the_joiner() {
    let mut nodes = vec![member(1), member(2)];
    let mut ring: HashRing<RingNodeInfo> = HashRing::new(vec![node(1), node(2)], 10);
    let owners: Vec<Option<RingNodeInfo>> =
        (0..100u32).map(|i| ring.get_node(format!("k{}", i)).cloned()).collect();
    join_cluster(&mut nodes, &mut ring, Some(member(3)));
    for i in 0..100u32 {
        let now = ring.get_node(format!("k{}", i)).cloned();
        assert!(now == owners[i as usize] || now == Some(node(3)));
    }
}
