use ecs_core::any_map::AnyMap;
use ecs_core::graph::{Graph, Node};
use ecs_core::sorted_vec::SortedVec;
use ecs_core::typeid_map::TypeIdMap;

#[test]
fn test_1() {
    let mut map = AnyMap::new();
    map.insert(1, vec![2, 3, 2]);
    map.insert(2, vec![9]);
    assert_eq!(map.len(), 2);
    assert_eq!(map.get(1).unwrap().as_slice(), &[2, 3, 2]);
    assert_eq!(map.get(2).unwrap().as_slice(), &[9]);
    assert!(map.get(3).is_none());
    map.insert(1, vec![7]);
    assert_eq!(map.len(), 2);
    assert_eq!(map.get(1).unwrap().as_slice(), &[7]);
    assert_eq!(map.remove(2).unwrap().as_slice(), &[9]);
    assert!(map.get(2).is_none());
    assert_eq!(map.len(), 1);
}

#[test]
fn test_graph1() {
    let mut graph: Graph<u32, u32> = Graph::new();
    let a = graph.insert_node(Node::new(10));
    let b = graph.insert_node(Node::new(20));
    graph.add_edge_to_both_nodes(a, 1, b, 2);
    let na = graph.get_node(a).unwrap();
    assert_eq!(na.value, 10);
    assert_eq!(na.get_edges().len(), 1);
    assert_eq!(na.get_edge(0).value, 1);
    let nb = graph.get_node(b).unwrap();
    assert_eq!(nb.value, 20);
    assert_eq!(nb.get_edge(0).value, 2);
    let neighbors = graph.neighbor_keys(a);
    assert_eq!(neighbors.len(), 1);
    assert_eq!(neighbors[0].get_id(), b.get_id());
    let nm = graph.get_node_mut(a).unwrap();
    nm.value = 11;
    assert_eq!(graph.get_node(a).unwrap().value, 11);
}

#[test]
fn sorted_vec_subset_checks_agree() {
    let small = SortedVec::from_vec(vec![2, 5]);
    let big = SortedVec::from_vec(vec![1, 2, 3, 5, 8]);
    let other = SortedVec::from_vec(vec![2, 4]);
    assert!(small.is_subset_of2(&big));
    assert!(small.is_subset_of(&big));
    assert!(!other.is_subset_of2(&big));
    assert!(!other.is_subset_of(&big));
    assert!(SortedVec::new().is_subset_of2(&big));
    // duplicates sort and are detected
    let dup = SortedVec::from_vec(vec![3, 1, 3]);
    assert_eq!(dup.check_duplicates(), Some(3));
    assert_eq!(big.check_duplicates(), None);
}

#[test]
fn typeid_map_stores_by_key() {
    let mut m: TypeIdMap<u32> = TypeIdMap::new();
    m.insert_typed(7, 70);
    m.insert_typed(8, 80);
    assert_eq!(m.get_typed(7).copied(), Some(70));
    assert_eq!(m.get_typed(8).copied(), Some(80));
    assert!(m.get_typed(9).is_none());
    m.get_map_mut().push((9, 90));
    assert_eq!(m.get_typed(9).copied(), Some(90));
}

#[test]
fn typeid_map_later_entries_shadow() {
    let mut m: TypeIdMap<u32> = TypeIdMap::new();
    m.insert_typed(7, 70);
    m.insert_typed(7, 71);
    assert_eq!(m.get_typed(7).copied(), Some(71));
    m.insert_typed(7, 72);
    assert_eq!(m.get_typed(7).copied(), Some(72));
}
