use graph_lib::graph::{Graph, GraphError};

#[test]
fn add_node() {
    let mut graph = Graph::<u32>::new_graph();
    assert_eq!(graph.add_node(1), Ok(()));
    assert_eq!(graph.add_node(1), Err(GraphError::NodeAlreadyExists));
}

#[test]
fn delete_node() {
    let mut graph = Graph::<u32>::new_graph();
    graph.add_node(1).unwrap();
    graph.add_node(2).unwrap();
    graph.delete_node(2);
    let result: bool = false;
    assert_eq!(graph.contains_node(2), result);
}

#[test]
fn add_relation_to_node_1test() {
    let mut graph = Graph::<u32>::new_graph();
    graph.add_node(1).unwrap();
    graph.add_node(2).unwrap();
    assert_eq!(
        graph.add_relation_to_node(3, 2, 5),
        Err(GraphError::NodeNotFound)
    );
}

#[test]
fn add_relation_to_node_2test() {
    let mut graph = Graph::<u32>::new_graph();
    graph.add_node(1).unwrap();
    graph.add_node(2).unwrap();
    graph.add_relation_to_node(1, 2, 5).unwrap();
    assert_eq!(
        graph.add_relation_to_node(1, 2, 5),
        Err(GraphError::RelationAlreadyExists)
    );
}

#[test]
fn delete_relation() {
    let mut graph = Graph::<u32>::new_graph();
    graph.add_node(1).unwrap();
    graph.add_node(2).unwrap();
    graph.add_relation_to_node(1, 2, 5).unwrap();
    graph.delete_relation(1, 2);
    assert_eq!(graph.edge_count(1), Some(0));
}

#[test]
fn serialize_deserialize_graph() {
    let mut graph: Graph<u32> = Graph::new_graph();
    graph.add_node(1).unwrap();
    graph.add_node(2).unwrap();
    graph.add_node(3).unwrap();
    graph.add_relation_to_node(1, 2, 5).unwrap();
    graph.add_relation_to_node(1, 3, 10).unwrap();
    let encoded = graph.serialize();

    let mut new_graph: Graph<u32> = Graph::new_graph();
    new_graph.deserialize(&encoded).unwrap();
    assert_eq!(new_graph.serialize(), graph.serialize());
    assert_eq!(new_graph.node_ids(), vec![1, 2, 3]);
    assert!(new_graph.has_relation(1, 2));
    assert!(new_graph.has_relation(1, 3));
    assert_eq!(new_graph.edge_count(1), Some(2));
}

#[test]
fn delete_node_strips_incoming_edges() {
    let mut graph = Graph::<u32>::new_graph();
    graph.add_node(1).unwrap();
    graph.add_node(2).unwrap();
    graph.add_node(3).unwrap();
    graph.add_relation_to_node(2, 1, 7).unwrap();
    graph.add_relation_to_node(3, 1, 9).unwrap();
    graph.add_relation_to_node(2, 3, 4).unwrap();
    graph.delete_node(1);
    assert_eq!(graph.node_ids(), vec![2, 3]);
    assert!(!graph.contains_node(1));
    assert!(!graph.has_relation(2, 1));
    assert!(!graph.has_relation(3, 1));
    assert!(graph.has_relation(2, 3));
}

#[test]
fn delete_node_missing_is_noop() {
    let mut graph = Graph::<u32>::new_graph();
    graph.add_node(1).unwrap();
    graph.delete_node(9);
    assert_eq!(graph.node_ids(), vec![1]);
}

#[test]
fn delete_relation_is_symmetric() {
    let mut graph = Graph::<u32>::new_graph();
    graph.add_node(1).unwrap();
    graph.add_node(2).unwrap();
    graph.add_relation_to_node(1, 2, 5).unwrap();
    graph.add_relation_to_node(2, 1, 6).unwrap();
    graph.delete_relation(1, 2);
    assert!(!graph.has_relation(1, 2));
    assert!(!graph.has_relation(2, 1));
}

#[test]
fn delete_relation_reverse_direction_only() {
    let mut graph = Graph::<u32>::new_graph();
    graph.add_node(3).unwrap();
    graph.add_node(4).unwrap();
    graph.add_relation_to_node(3, 4, 8).unwrap();
    graph.delete_relation(4, 3);
    assert!(!graph.has_relation(3, 4));
    assert!(!graph.has_relation(4, 3));
}

#[test]
fn bfs_concrete_scenario() {
    let mut graph = Graph::<u32>::new_graph();
    graph.add_node(1).unwrap();
    graph.add_node(2).unwrap();
    graph.add_node(3).unwrap();
    graph.add_relation_to_node(1, 2, 5).unwrap();
    graph.add_relation_to_node(1, 3, 10).unwrap();
    assert_eq!(graph.bfs(1), Ok(vec![1, 2, 3]));
}

#[test]
fn bfs_excludes_unreachable() {
    let mut graph = Graph::<u32>::new_graph();
    graph.add_node(1).unwrap();
    graph.add_node(2).unwrap();
    graph.add_node(3).unwrap();
    graph.add_relation_to_node(1, 2, 5).unwrap();
    let order = graph.bfs(1).unwrap();
    assert_eq!(order, vec![1, 2]);
    assert!(!order.contains(&3));
}

#[test]
fn bfs_handles_cycles() {
    let mut graph = Graph::<u32>::new_graph();
    graph.add_node(1).unwrap();
    graph.add_node(2).unwrap();
    graph.add_node(3).unwrap();
    graph.add_relation_to_node(1, 2, 0).unwrap();
    graph.add_relation_to_node(2, 3, 0).unwrap();
    graph.add_relation_to_node(3, 1, 0).unwrap();
    assert_eq!(graph.bfs(1), Ok(vec![1, 2, 3]));
}

#[test]
fn bfs_missing_start_is_an_error() {
    let graph = Graph::<u32>::new_graph();
    assert_eq!(graph.bfs(7), Err(GraphError::NodeNotFound));
}

#[test]
fn serialized_form_is_exact() {
    let mut graph = Graph::<u32>::new_graph();
    graph.add_node(1).unwrap();
    graph.add_node(2).unwrap();
    graph.add_node(3).unwrap();
    graph.add_relation_to_node(1, 2, 5).unwrap();
    graph.add_relation_to_node(1, 3, 10).unwrap();
    assert_eq!(graph.serialize(), b"1\n2\n3\n#\n1\t2\t5\n1\t3\t10\n".to_vec());
}

#[test]
fn serialize_sorts_node_ids() {
    let mut graph = Graph::<u32>::new_graph();
    graph.add_node(20).unwrap();
    graph.add_node(3).unwrap();
    graph.add_node(100).unwrap();
    assert_eq!(graph.serialize(), b"3\n20\n100\n#\n".to_vec());
}

#[test]
fn serialize_empty_graph() {
    let graph = Graph::<u32>::new_graph();
    assert_eq!(graph.serialize(), b"#\n".to_vec());
}

#[test]
fn deserialize_malformed_node_line() {
    let mut graph = Graph::<u32>::new_graph();
    assert_eq!(
        graph.deserialize(b"x\n"),
        Err(GraphError::MalformedRecord)
    );
}

#[test]
fn deserialize_keeps_prefix_on_error() {
    let mut graph = Graph::<u32>::new_graph();
    assert_eq!(
        graph.deserialize(b"1\n2\nx\n"),
        Err(GraphError::MalformedRecord)
    );
    assert!(graph.contains_node(1));
    assert!(graph.contains_node(2));
}

#[test]
fn deserialize_duplicate_node_line() {
    let mut graph = Graph::<u32>::new_graph();
    assert_eq!(
        graph.deserialize(b"1\n1\n"),
        Err(GraphError::NodeAlreadyExists)
    );
}

#[test]
fn deserialize_edge_to_unknown_node() {
    let mut graph = Graph::<u32>::new_graph();
    assert_eq!(
        graph.deserialize(b"1\n#\n1\t9\t5\n"),
        Err(GraphError::NodeNotFound)
    );
}

#[test]
fn deserialize_duplicate_relation() {
    let mut graph = Graph::<u32>::new_graph();
    assert_eq!(
        graph.deserialize(b"1\n2\n#\n1\t2\t5\n1\t2\t6\n"),
        Err(GraphError::RelationAlreadyExists)
    );
}

#[test]
fn deserialize_edge_line_with_extra_token() {
    let mut graph = Graph::<u32>::new_graph();
    assert_eq!(
        graph.deserialize(b"1\n2\n#\n1\t2\t5\t9\n"),
        Err(GraphError::MalformedRecord)
    );
}

#[test]
fn deserialize_accepts_leading_zeros() {
    let mut graph = Graph::<u32>::new_graph();
    graph.deserialize(b"007\n").unwrap();
    assert!(graph.contains_node(7));
}

#[test]
fn deserialize_rejects_value_out_of_range() {
    let mut graph = Graph::<u32>::new_graph();
    assert_eq!(
        graph.deserialize(b"4294967296\n"),
        Err(GraphError::MalformedRecord)
    );
    let mut graph2 = Graph::<u32>::new_graph();
    graph2.deserialize(b"4294967295\n").unwrap();
    assert!(graph2.contains_node(4294967295));
}

#[test]
fn deserialize_without_edge_section() {
    let mut graph = Graph::<u32>::new_graph();
    graph.deserialize(b"1\n2\n").unwrap();
    assert_eq!(graph.node_ids(), vec![1, 2]);
    assert_eq!(graph.edge_count(1), Some(0));
}

#[test]
fn print_graph_mentions_each_vertex() {
    let mut graph = Graph::<u32>::new_graph();
    graph.add_node(1).unwrap();
    graph.add_node(2).unwrap();
    graph.add_relation_to_node(1, 2, 5).unwrap();
    let dump = graph.print_graph();
    let text = String::from_utf8(dump).unwrap();
    assert!(text.contains("Vertex id: 1"));
    assert!(text.contains("Vertex id: 2"));
    assert!(text.contains("To node: 2"));
    assert!(text.contains("Edge value: 5"));
}
