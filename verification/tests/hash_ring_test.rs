use pandas_pouch::hash_ring::{HashRing, RingNodeInfo};
use std::fmt::Display;
use std::hash::BuildHasherDefault;
use std::hash::Hasher;

// Defines a NodeInfo for a localhost address with a given port.
fn node(port: u16) -> RingNodeInfo {
    RingNodeInfo {
        host: "localhost".to_string(),
        port,
    }
}

fn six_nodes() -> Vec<RingNodeInfo> {
    let mut nodes: Vec<RingNodeInfo> = Vec::new();
    nodes.push(node(15324));
    nodes.push(node(15325));
    nodes.push(node(15326));
    nodes.push(node(15327));
    nodes.push(node(15328));
    nodes.push(node(15329));
    nodes
}

#[derive(Clone)]
struct CustomNodeInfo {
    pub host: &'static str,
    pub port: u16,
}

impl Display for CustomNodeInfo {
    fn fmt(&self, f: &mut std::fmt::Formatter<'_>) -> std::fmt::Result {
        f.write_str(&format!("{}:{}", self.host, self.port))
    }
}

#[derive(Default)]
struct ConstantHasher;

impl Hasher for ConstantHasher {
    fn finish(&self) -> u64 {
        1
    }

    fn write(&mut self, _bytes: &[u8]) {
        // Do nothing
    }
}

type ConstantBuildHasher = BuildHasherDefault<ConstantHasher>;

#[test]
fn test_empty_ring() {
    let hash_ring: HashRing<RingNodeInfo> = HashRing::new(vec![], 10);
    assert_eq!(None, hash_ring.get_node("hello".to_string()));
}

#[test]
fn test_default_nodes() {
    let mut nodes: Vec<RingNodeInfo> = Vec::new();
    nodes.push(node(15324));
    nodes.push(node(15325));
    nodes.push(node(15326));
    nodes.push(node(15327));
    nodes.push(node(15328));
    nodes.push(node(15329));

    let mut hash_ring: HashRing<RingNodeInfo> = HashRing::new(nodes, 10);

    assert_eq!(Some(&node(15324)), hash_ring.get_node("two".to_string()));
    assert_eq!(Some(&node(15325)), hash_ring.get_node("seven".to_string()));
    assert_eq!(Some(&node(15326)), hash_ring.get_node("hello".to_string()));
    assert_eq!(Some(&node(15327)), hash_ring.get_node("dude".to_string()));
    assert_eq!(Some(&node(15328)), hash_ring.get_node("fourteen".to_string()));
    assert_eq!(Some(&node(15329)), hash_ring.get_node("five".to_string()));

    hash_ring.remove_node(&node(15329));
    assert_eq!(Some(&node(15326)), hash_ring.get_node("hello".to_string()));

    hash_ring.add_node(&node(15329));
    assert_eq!(Some(&node(15326)), hash_ring.get_node("hello".to_string()));
}

#[test]
fn test_custom_nodes() {
    let mut nodes: Vec<CustomNodeInfo> = Vec::new();
    nodes.push(CustomNodeInfo {
        host: "localhost",
        port: 15324,
    });
    nodes.push(CustomNodeInfo {
        host: "localhost",
        port: 15325,
    });
    nodes.push(CustomNodeInfo {
        host: "localhost",
        port: 15326,
    });
    nodes.push(CustomNodeInfo {
        host: "localhost",
        port: 15327,
    });
    nodes.push(CustomNodeInfo {
        host: "localhost",
        port: 15328,
    });
    nodes.push(CustomNodeInfo {
        host: "localhost",
        port: 15329,
    });

    let mut hash_ring: HashRing<CustomNodeInfo> = HashRing::new(nodes, 10);

    assert_eq!(
        Some("localhost:15326".to_string()),
        hash_ring
            .get_node("hello".to_string())
            .map(|x| x.to_string(),)
    );
    assert_eq!(
        Some("localhost:15327".to_string()),
        hash_ring
            .get_node("dude".to_string())
            .map(|x| x.to_string(),)
    );

    hash_ring.remove_node(&CustomNodeInfo {
        host: "localhost",
        port: 15329,
    });
    assert_eq!(
        Some("localhost:15326".to_string()),
        hash_ring
            .get_node("hello".to_string())
            .map(|x| x.to_string(),)
    );

    hash_ring.add_node(&CustomNodeInfo {
        host: "localhost",
        port: 15329,
    });
    assert_eq!(
        Some("localhost:15326".to_string()),
        hash_ring
            .get_node("hello".to_string())
            .map(|x| x.to_string(),)
    );
}

#[test]
fn test_remove_actual_node() {
    let mut nodes: Vec<RingNodeInfo> = Vec::new();
    nodes.push(node(15324));
    nodes.push(node(15325));
    nodes.push(node(15326));
    nodes.push(node(15327));
    nodes.push(node(15328));
    nodes.push(node(15329));

    let mut hash_ring: HashRing<RingNodeInfo> = HashRing::new(nodes, 10);

    // This should be num nodes * num replicas
    assert_eq!(60, hash_ring.sorted_keys.len());
    assert_eq!(60, hash_ring.ring.len());

    hash_ring.remove_node(&node(15326));

    // This should be num nodes * num replicas
    assert_eq!(50, hash_ring.sorted_keys.len());
    assert_eq!(50, hash_ring.ring.len());
}

#[test]
fn test_remove_non_existent_node() {
    let mut nodes: Vec<RingNodeInfo> = Vec::new();
    nodes.push(node(15324));
    nodes.push(node(15325));
    nodes.push(node(15326));
    nodes.push(node(15327));
    nodes.push(node(15328));
    nodes.push(node(15329));

    let mut hash_ring: HashRing<RingNodeInfo> = HashRing::new(nodes, 10);

    hash_ring.remove_node(&node(15330));

    // This should be num nodes * num replicas
    assert_eq!(60, hash_ring.sorted_keys.len());
    assert_eq!(60, hash_ring.ring.len());
}

#[test]
fn test_custom_hasher() {
    let mut nodes: Vec<RingNodeInfo> = Vec::new();
    nodes.push(node(15324));
    nodes.push(node(15325));
    nodes.push(node(15326));
    nodes.push(node(15327));
    nodes.push(node(15328));
    nodes.push(node(15329));

    let hash_ring: HashRing<RingNodeInfo, ConstantBuildHasher> =
        HashRing::with_hasher(nodes, 10, ConstantBuildHasher::default());

    assert_eq!(Some(&node(15329)), hash_ring.get_node("hello".to_string()));
    assert_eq!(Some(&node(15329)), hash_ring.get_node("dude".to_string()));
    assert_eq!(Some(&node(15329)), hash_ring.get_node("two".to_string()));
}

// ---------------------------------------------------------------------------
// Further checks
// ---------------------------------------------------------------------------

#[test]
fn ring_node_label_is_host_and_port() {
    assert_eq!("localhost:15324", node(15324).to_string());
    assert_eq!("10.0.0.1:0", RingNodeInfo { host: "10.0.0.1".to_string(), port: 0 }.label());
    assert_eq!("h:65535", RingNodeInfo { host: "h".to_string(), port: 65535 }.label());
}

#[test]
fn sorted_keys_stay_sorted() {
    let hash_ring: HashRing<RingNodeInfo> = HashRing::new(six_nodes(), 10);
    let keys = &hash_ring.sorted_keys;
    for i in 1..keys.len() {
        assert!(keys[i - 1] <= keys[i]);
    }
    assert!(hash_ring.is_consistent());
}

#[test]
fn explicit_points_locate_successor() {
    let mut hash_ring: HashRing<RingNodeInfo> = HashRing::new(vec![], 3);
    hash_ring.insert_keys(&node(1), &vec![30, 10]);
    hash_ring.insert_keys(&node(2), &vec![20]);
    assert_eq!(vec![10, 20, 30], hash_ring.sorted_keys);
    assert_eq!(Some(&node(1)), hash_ring.locate(5));
    assert_eq!(Some(&node(1)), hash_ring.locate(10));
    assert_eq!(Some(&node(2)), hash_ring.locate(11));
    assert_eq!(Some(&node(1)), hash_ring.locate(30));
    // past the last point, the lookup goes round to the first
    assert_eq!(Some(&node(1)), hash_ring.locate(31));
}

#[test]
fn explicit_points_removal_stops_at_missing_point() {
    let mut hash_ring: HashRing<RingNodeInfo> = HashRing::new(vec![], 3);
    hash_ring.insert_keys(&node(1), &vec![10, 20, 30]);
    hash_ring.remove_keys(&vec![20, 99, 30]);
    assert_eq!(vec![10, 30], hash_ring.sorted_keys);
    assert_eq!(2, hash_ring.ring.len());
    assert_eq!(Some(&node(1)), hash_ring.locate(25));
}

#[test]
fn remove_then_reinsert_restores_points() {
    let mut hash_ring: HashRing<RingNodeInfo> = HashRing::new(vec![], 3);
    hash_ring.insert_keys(&node(1), &vec![10, 40]);
    hash_ring.insert_keys(&node(2), &vec![20, 30]);
    let before = hash_ring.sorted_keys.clone();
    hash_ring.remove_keys(&vec![20, 30]);
    assert_eq!(vec![10, 40], hash_ring.sorted_keys);
    hash_ring.insert_keys(&node(2), &vec![20, 30]);
    assert_eq!(before, hash_ring.sorted_keys);
    assert_eq!(Some(&node(2)), hash_ring.locate(15));
}

#[test]
fn duplicate_points_are_listed_twice() {
    let mut hash_ring: HashRing<RingNodeInfo> = HashRing::new(vec![], 3);
    hash_ring.insert_keys(&node(1), &vec![10]);
    hash_ring.insert_keys(&node(2), &vec![10]);
    assert_eq!(vec![10, 10], hash_ring.sorted_keys);
    assert_eq!(1, hash_ring.ring.len());
    assert_eq!(Some(&node(2)), hash_ring.locate(3));
    hash_ring.remove_keys(&vec![10]);
    // one listing is left without a node
    assert_eq!(vec![10], hash_ring.sorted_keys);
    assert!(!hash_ring.is_consistent());
}

#[test]
fn non_positive_replicas_place_nothing() {
    let hash_ring: HashRing<RingNodeInfo> = HashRing::new(six_nodes(), 0);
    assert_eq!(0, hash_ring.sorted_keys.len());
    assert_eq!(None, hash_ring.get_node("hello".to_string()));
    let hash_ring: HashRing<RingNodeInfo> = HashRing::new(six_nodes(), -3);
    assert_eq!(0, hash_ring.sorted_keys.len());
}

#[test]
fn node_count_times_replicas_points() {
    let hash_ring: HashRing<RingNodeInfo> = HashRing::new(six_nodes(), 7);
    assert_eq!(42, hash_ring.sorted_keys.len());
}

#[test]
fn adding_a_node_twice_doubles_its_points() {
    let mut hash_ring: HashRing<RingNodeInfo> = HashRing::new(six_nodes(), 10);
    hash_ring.add_node(&node(15324));
    assert_eq!(70, hash_ring.sorted_keys.len());
    assert_eq!(60, hash_ring.ring.len());
}

#[test]
fn lookups_are_stable() {
    let hash_ring: HashRing<RingNodeInfo> = HashRing::new(six_nodes(), 10);
    let a = hash_ring.get_node("some-key".to_string()).cloned();
    let b = hash_ring.get_node("some-key".to_string()).cloned();
    assert_eq!(a, b);
    assert!(a.is_some());
}

#[test]
fn insert_then_remove_restores_ring() {
    let mut hash_ring: HashRing<RingNodeInfo> = HashRing::new(six_nodes(), 10);
    let points = hash_ring.sorted_keys.clone();
    hash_ring.insert_keys(&node(1), &vec![7, 3, 11]);
    assert_eq!(63, hash_ring.sorted_keys.len());
    hash_ring.remove_keys(&vec![7, 3, 11]);
    assert_eq!(points, hash_ring.sorted_keys);
    assert_eq!(60, hash_ring.ring.len());
}

#[test]
fn absent_node_leaves_ring_unchanged() {
    let mut hash_ring: HashRing<RingNodeInfo> = HashRing::new(vec![], 3);
    hash_ring.insert_keys(&node(1), &vec![10, 20]);
    hash_ring.remove_keys(&vec![15, 10, 20]);
    assert_eq!(vec![10, 20], hash_ring.sorted_keys);
    assert_eq!(2, hash_ring.ring.len());
}

#[test]
fn adding_points_moves_keys_only_to_the_new_node() {
    let mut hash_ring: HashRing<RingNodeInfo> = HashRing::new(vec![], 3);
    hash_ring.insert_keys(&node(1), &vec![10, 30]);
    hash_ring.insert_keys(&node(2), &vec![20]);
    let before: Vec<Option<RingNodeInfo>> = (0..40u64).map(|h| hash_ring.locate(h).cloned()).collect();
    hash_ring.insert_keys(&node(3), &vec![15, 35]);
    for h in 0..40u64 {
        let now = hash_ring.locate(h).cloned();
        assert!(now == before[h as usize] || now == Some(node(3)));
    }
    assert_eq!(Some(&node(3)), hash_ring.locate(12));
    assert_eq!(Some(&node(2)), hash_ring.locate(16));
    assert_eq!(Some(&node(3)), hash_ring.locate(33));
}

#[test]
fn removing_points_moves_only_their_keys() {
    let mut hash_ring: HashRing<RingNodeInfo> = HashRing::new(vec![], 3);
    hash_ring.insert_keys(&node(1), &vec![10, 30]);
    hash_ring.insert_keys(&node(2), &vec![20, 40]);
    let before: Vec<Option<RingNodeInfo>> = (0..50u64).map(|h| hash_ring.locate(h).cloned()).collect();
    hash_ring.remove_keys(&vec![20, 40]);
    for h in 0..50u64 {
        if before[h as usize] != Some(node(2)) {
            assert_eq!(before[h as usize], hash_ring.locate(h).cloned());
        } else {
            assert_eq!(Some(node(1)), hash_ring.locate(h).cloned());
        }
    }
}

#[test]
fn lookup_needs_order_and_nodes() {
    let mut hash_ring: HashRing<RingNodeInfo> = HashRing::new(six_nodes(), 2);
    assert!(hash_ring.can_look_up());
    hash_ring.sorted_keys.reverse();
    assert!(!hash_ring.can_look_up());
}

fn xxhash64(text: &str) -> u64 {
    let mut hasher = twox_hash::XxHash64::with_seed(0);
    hasher.write(text.as_bytes());
    hasher.finish()
}

#[test]
fn replica_names_are_label_colon_index() {
    assert_eq!("localhost:15324:3", pandas_pouch::hash_ring::replica_name(&"localhost:15324".to_string(), 3));
    assert_eq!("a:0", pandas_pouch::hash_ring::replica_name(&"a".to_string(), 0));
}

#[test]
fn label_points_are_xxhash64_of_replica_names() {
    let hash_ring: HashRing<RingNodeInfo> = HashRing::new(vec![], 3);
    let points = hash_ring.label_points(&"a".to_string());
    assert_eq!(vec![xxhash64("a:0"), xxhash64("a:1"), xxhash64("a:2")], points);
    let none: HashRing<RingNodeInfo> = HashRing::new(vec![], -1);
    assert!(none.label_points(&"a".to_string()).is_empty());
}

#[test]
fn labeled_add_and_remove_match_add_node_and_remove_node() {
    let mut a: HashRing<RingNodeInfo> = HashRing::new(six_nodes(), 10);
    let mut b: HashRing<RingNodeInfo> = HashRing::new(six_nodes(), 10);
    a.add_node(&node(1));
    b.add_labeled(&node(1), &node(1).label());
    assert_eq!(a.sorted_keys, b.sorted_keys);
    assert_eq!(a.ring, b.ring);
    a.remove_node(&node(15326));
    b.remove_labeled(&node(15326).label());
    assert_eq!(a.sorted_keys, b.sorted_keys);
    assert_eq!(a.ring, b.ring);
}

#[test]
fn owner_of_matches_get_node() {
    let hash_ring: HashRing<RingNodeInfo> = HashRing::new(six_nodes(), 10);
    for i in 0..200u32 {
        let key = format!("key-{}", i);
        assert_eq!(hash_ring.get_node(key.clone()), hash_ring.owner_of(&key));
    }
    for key in ["hello", "dude", "two", "seven", "fourteen", "five", ""] {
        assert_eq!(hash_ring.get_node(key.to_string()), hash_ring.owner_of(&key.to_string()));
    }
    let empty: HashRing<RingNodeInfo> = HashRing::new(vec![], 10);
    assert_eq!(None, empty.owner_of(&"hello".to_string()));
}

#[test]
fn owner_is_node_of_first_point_after_hash() {
    let hash_ring: HashRing<RingNodeInfo> = HashRing::new(six_nodes(), 10);
    let h = xxhash64("hello");
    let point = hash_ring
        .sorted_keys
        .iter()
        .copied()
        .find(|p| *p >= h)
        .unwrap_or(hash_ring.sorted_keys[0]);
    assert_eq!(hash_ring.ring.get(&point), hash_ring.owner_of(&"hello".to_string()));
}

#[test]
fn placement_depends_only_on_labels() {
    let mut a: HashRing<RingNodeInfo> = HashRing::new(vec![], 5);
    let mut b: HashRing<String> = HashRing::new(vec![], 5);
    a.add_labeled(&node(7), &"localhost:7".to_string());
    b.add_labeled(&"seven".to_string(), &"localhost:7".to_string());
    assert_eq!(a.sorted_keys, b.sorted_keys);
    a.add_labeled(&node(8), &"localhost:8".to_string());
    b.add_labeled(&"eight".to_string(), &"localhost:8".to_string());
    a.remove_labeled(&"localhost:7".to_string());
    b.remove_labeled(&"localhost:7".to_string());
    assert_eq!(a.sorted_keys, b.sorted_keys);
    assert_eq!(Some(&node(8)), a.owner_of(&"hello".to_string()));
    assert_eq!(Some(&"eight".to_string()), b.owner_of(&"hello".to_string()));
}

#[test]
fn every_node_gets_its_own_points() {
    let hash_ring: HashRing<RingNodeInfo> = HashRing::new(six_nodes(), 10);
    for n in six_nodes() {
        assert_eq!(10, hash_ring.ring.values().filter(|v| **v == n).count());
        for i in 0..10 {
            let point = xxhash64(&format!("{}:{}", n.label(), i));
            assert_eq!(Some(&n), hash_ring.ring.get(&point));
        }
    }
}

#[test]
fn adding_a_node_puts_any_list_in_order() {
    let mut hash_ring: HashRing<RingNodeInfo> = HashRing::new(six_nodes(), 3);
    hash_ring.sorted_keys.reverse();
    hash_ring.add_node(&node(1));
    assert_eq!(21, hash_ring.sorted_keys.len());
    for i in 1..hash_ring.sorted_keys.len() {
        assert!(hash_ring.sorted_keys[i - 1] <= hash_ring.sorted_keys[i]);
    }
    assert!(hash_ring.is_consistent());
}
