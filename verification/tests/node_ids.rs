use gaussrdl::entity_graph::EntityAdjacency;
use gaussrdl::node_id::NodeId;

#[test]
fn new_node_uses_decimal_text() {
    let n = NodeId::new(3, 42);
    assert_eq!(n.table_type, "3");
    assert_eq!(n.id, "42");
    assert_eq!(n.to_string(), "3:42");
    assert_eq!(n.key_parts(), Some((3, 42)));
}

#[test]
fn large_numbers_round_trip() {
    let n = NodeId::new(0, u64::MAX);
    assert_eq!(n.id, "18446744073709551615");
    assert_eq!(n.key_parts(), Some((0, u64::MAX)));
}

#[test]
fn from_string_is_hash_based_and_stable() {
    let a = NodeId::from_string("user_1");
    let b = NodeId::from_string("user_1");
    let c = NodeId::from_string("user_2");
    assert_eq!(a, b);
    assert_ne!(a, c);
    let h: u64 = a.id.parse().unwrap();
    assert_eq!(a.table_type, (h % 1000).to_string());
}

#[test]
fn from_hash_takes_table_type_modulo_1000() {
    let n = NodeId::from_hash(123456);
    assert_eq!(n.id, "123456");
    assert_eq!(n.table_type, "456");
}

#[test]
fn non_numeric_parts_have_no_key() {
    let n = NodeId { table_type: "users".to_string(), id: "7".to_string() };
    assert_eq!(n.key_parts(), None);
    assert_eq!(n.to_string(), "users:7");
}

#[test]
fn nodes_order_by_table_type_then_id() {
    let a = NodeId::new(1, 9);
    let b = NodeId::new(2, 1);
    assert!(a < b);
}

#[test]
fn entity_adjacency_joins_both_ways() {
    let mut adj = EntityAdjacency::new();
    assert!(adj.get_neighbors((1, 2)).is_none());
    adj.add_node_key((1, 2));
    assert_eq!(adj.get_neighbors((1, 2)), Some(&Vec::new()));
    adj.add_edge((1, 2), (3, 4));
    adj.add_edge((1, 2), (1, 2));
    assert_eq!(adj.get_neighbors((1, 2)), Some(&vec![(3, 4), (1, 2), (1, 2)]));
    assert_eq!(adj.get_neighbors((3, 4)), Some(&vec![(1, 2)]));
    adj.add_node_key((3, 4));
    assert_eq!(adj.get_neighbors((3, 4)), Some(&vec![(1, 2)]));
    assert!(adj.get_neighbors((4, 3)).is_none());
}

#[test]
fn entity_keys_with_large_parts_stay_apart() {
    let mut adj = EntityAdjacency::new();
    adj.add_edge((usize::MAX, u64::MAX), (0, u64::MAX));
    assert_eq!(adj.get_neighbors((usize::MAX, u64::MAX)), Some(&vec![(0, u64::MAX)]));
    assert_eq!(adj.get_neighbors((0, u64::MAX)), Some(&vec![(usize::MAX, u64::MAX)]));
    assert!(adj.get_neighbors((usize::MAX, 0)).is_none());
}

#[test]
fn from_string_hashes_like_std_default_hasher() {
    let mut hasher = std::collections::hash_map::DefaultHasher::new();
    std::hash::Hash::hash("orders_17", &mut hasher);
    let expected = std::hash::Hasher::finish(&hasher);
    assert_eq!(NodeId::from_string("orders_17"), NodeId::from_hash(expected));
}

#[test]
fn from_str_and_string_match_from_string() {
    assert_eq!(NodeId::from("user_7"), NodeId::from_string("user_7"));
    assert_eq!(NodeId::from("user_7".to_string()), NodeId::from_string("user_7"));
    assert_ne!(NodeId::from("user_7"), NodeId::from("user_8"));
}
