use grlib::graph::{Edge, Graph, GraphError, Node};

const SAMPLE: &str = "1 10\n2 20\n3 30\n#\n1 2\n2 3\n";

fn ids(nodes: &[&Node<u32>]) -> Vec<u32> {
    nodes.iter().map(|n| n.id).collect()
}

fn sample() -> Graph<u32> {
    Graph::<u32>::des(SAMPLE).unwrap()
}

#[test]
fn sample_deserializes_nodes_and_edges() {
    let g = sample();
    let nodes = g.get_all_nodes();
    let pairs: Vec<(u32, u32)> = nodes.iter().map(|n| (n.id, n.val)).collect();
    assert_eq!(pairs, vec![(1, 10), (2, 20), (3, 30)]);
    let n1 = Node::new(1, 0u32);
    let n2 = Node::new(2, 0u32);
    let n3 = Node::new(3, 0u32);
    assert_eq!(ids(&g.get_connected(&n1)), vec![2]);
    assert_eq!(ids(&g.get_connected(&n2)), vec![3]);
    assert_eq!(ids(&g.get_connected(&n3)), Vec::<u32>::new());
}

#[test]
fn sample_connected_of_first_node() {
    let g = sample();
    let nodes = g.get_all_nodes();
    let next = g.get_connected(nodes[0]);
    assert_eq!(next.len(), 1);
    assert_eq!(next[0].id, 2);
    assert_eq!(next[0].val, 20);
}

#[test]
fn sample_traversal_from_first_node() {
    let g = sample();
    let nodes = g.get_all_nodes();
    assert_eq!(ids(&g.traverse_from(nodes[0])), vec![1, 2, 3]);
}

#[test]
fn sample_serializes_verbatim() {
    assert_eq!(sample().ser(), SAMPLE);
}

#[test]
fn sample_cycle_traversal_terminates() {
    let mut g = sample();
    assert_eq!(g.add_edge(3, 1), Ok(()));
    let root = Node::new(1, 10u32);
    assert_eq!(ids(&g.traverse_from(&root)), vec![1, 2, 3]);
}

#[test]
fn add_node_duplicate_fails_and_keeps_graph() {
    let mut g = sample();
    assert_eq!(g.add_node(2, 99), Err(GraphError::DuplicateIdentifier));
    assert_eq!(g.ser(), SAMPLE);
    assert_eq!(g.add_node(4, 40), Ok(()));
    assert_eq!(g.ser(), "1 10\n2 20\n3 30\n4 40\n#\n1 2\n2 3\n");
}

#[test]
fn add_edge_dangling_fails_and_keeps_graph() {
    let mut g = sample();
    assert_eq!(g.add_edge(1, 7), Err(GraphError::DanglingEdgeEndpoint));
    assert_eq!(g.add_edge(7, 1), Err(GraphError::DanglingEdgeEndpoint));
    assert_eq!(g.add_edge_from(Edge::new(8, 9)), Err(GraphError::DanglingEdgeEndpoint));
    assert_eq!(g.ser(), SAMPLE);
}

#[test]
fn add_edge_twice_keeps_one() {
    let mut g = sample();
    assert_eq!(g.add_edge(1, 3), Ok(()));
    assert_eq!(g.add_edge(1, 3), Ok(()));
    assert_eq!(g.ser(), "1 10\n2 20\n3 30\n#\n1 2\n2 3\n1 3\n");
    assert_eq!(g.add_edge(1, 2), Ok(()));
    assert_eq!(g.ser(), "1 10\n2 20\n3 30\n#\n1 2\n2 3\n1 3\n");
}

#[test]
fn remove_node_removes_touching_edges() {
    let mut g = sample();
    g.add_edge(3, 1).unwrap();
    g.remove_node_by_id(2);
    assert_eq!(g.ser(), "1 10\n3 30\n#\n3 1\n");
    g.remove_node_by_id(42);
    assert_eq!(g.ser(), "1 10\n3 30\n#\n3 1\n");
    g.remove_node_by_id(1);
    assert_eq!(g.ser(), "3 30\n#\n");
}

#[test]
fn remove_edge_matches_both_ends() {
    let mut g = sample();
    g.add_edge(1, 3).unwrap();
    g.remove_edge(&Edge::new(1, 3));
    assert_eq!(g.ser(), SAMPLE);
    g.remove_edge(&Edge::new(3, 2));
    assert_eq!(g.ser(), SAMPLE);
    g.remove_edge(&Edge::new(2, 3));
    assert_eq!(g.ser(), "1 10\n2 20\n3 30\n#\n1 2\n");
}

#[test]
fn traversal_is_preorder_in_edge_order() {
    let text = "1 0\n2 0\n3 0\n4 0\n5 0\n#\n1 3\n1 2\n2 4\n3 4\n4 1\n";
    let g = Graph::<u32>::des(text).unwrap();
    let root = Node::new(1, 0u32);
    assert_eq!(ids(&g.traverse_from(&root)), vec![1, 3, 4, 2]);
    let from_two = Node::new(2, 0u32);
    assert_eq!(ids(&g.traverse_from(&from_two)), vec![2, 4, 1, 3]);
    let lone = Node::new(5, 0u32);
    assert_eq!(ids(&g.traverse_from(&lone)), vec![5]);
}

#[test]
fn traversal_visits_absent_root() {
    let g = sample();
    let root = Node::new(77, 5u32);
    let seen = g.traverse_from(&root);
    assert_eq!(seen.len(), 1);
    assert_eq!(seen[0].id, 77);
    assert_eq!(seen[0].val, 5);
}

#[test]
fn connected_is_one_hop_in_edge_order() {
    let text = "1 0\n2 0\n3 0\n4 0\n#\n1 3\n3 4\n1 2\n";
    let g = Graph::<u32>::des(text).unwrap();
    let n1 = Node::new(1, 0u32);
    assert_eq!(ids(&g.get_connected(&n1)), vec![3, 2]);
}

#[test]
fn round_trip_of_canonical_text() {
    let text = "5 0\n4294967295 7\n0 12\n#\n0 5\n5 4294967295\n4294967295 4294967295\n";
    let g = Graph::<u32>::des(text).unwrap();
    assert_eq!(g.ser(), text);
    let again = Graph::<u32>::des(&g.ser()).unwrap();
    assert_eq!(again.ser(), text);
}

#[test]
fn empty_graph_text() {
    let g = Graph::<u32>::new();
    assert_eq!(g.ser(), "#\n");
    assert_eq!(g.get_all_nodes().len(), 0);
    let e = Graph::<u32>::des("").unwrap();
    assert_eq!(e.ser(), "#\n");
}

#[test]
fn missing_separator_reads_only_nodes() {
    let g = Graph::<u32>::des("1 10\n2 20\n").unwrap();
    assert_eq!(g.ser(), "1 10\n2 20\n#\n");
}

#[test]
fn carriage_returns_end_lines() {
    let g = Graph::<u32>::des("1 10\r\n2 20\r\n#\r\n1 2\r\n").unwrap();
    assert_eq!(g.ser(), "1 10\n2 20\n#\n1 2\n");
}

#[test]
fn lenient_number_forms_read() {
    let g = Graph::<u32>::des("+1 007\n#\n").unwrap();
    assert_eq!(g.ser(), "1 7\n#\n");
}

#[test]
fn malformed_lines_fail() {
    assert_eq!(Graph::<u32>::des("1 2 3\n").err(), Some(GraphError::MalformedLine));
    assert_eq!(Graph::<u32>::des("12\n").err(), Some(GraphError::MalformedLine));
    assert_eq!(Graph::<u32>::des("1  2\n").err(), Some(GraphError::MalformedLine));
    assert_eq!(Graph::<u32>::des("1 1\n#\n1\n").err(), Some(GraphError::MalformedLine));
}

#[test]
fn invalid_identifiers_fail() {
    assert_eq!(Graph::<u32>::des("x 10\n").err(), Some(GraphError::InvalidIdentifier));
    assert_eq!(Graph::<u32>::des("-1 10\n").err(), Some(GraphError::InvalidIdentifier));
    assert_eq!(Graph::<u32>::des("4294967296 1\n").err(), Some(GraphError::InvalidIdentifier));
    assert_eq!(Graph::<u32>::des(" 1\n").err(), Some(GraphError::InvalidIdentifier));
    assert_eq!(Graph::<u32>::des("1 1\n#\n1 y\n").err(), Some(GraphError::InvalidIdentifier));
}

#[test]
fn invalid_values_fail() {
    assert_eq!(Graph::<u32>::des("1 ten\n").err(), Some(GraphError::InvalidValue));
    assert_eq!(Graph::<u32>::des("1 \n").err(), Some(GraphError::InvalidValue));
    assert_eq!(Graph::<u32>::des("1 +\n").err(), Some(GraphError::InvalidValue));
}

#[test]
fn duplicate_and_dangling_in_text_fail() {
    assert_eq!(Graph::<u32>::des("1 1\n1 2\n").err(), Some(GraphError::DuplicateIdentifier));
    assert_eq!(Graph::<u32>::des("1 1\n#\n1 2\n").err(), Some(GraphError::DanglingEdgeEndpoint));
}

#[test]
fn first_failure_is_reported() {
    assert_eq!(Graph::<u32>::des("1 x\n1 1 1\n").err(), Some(GraphError::InvalidValue));
}

#[test]
fn node_and_edge_lines() {
    let n = Node::new(12, 345u32);
    assert_eq!(n.ser(), "12 345");
    let back = Node::<u32>::des("12 345").unwrap();
    assert_eq!((back.id, back.val), (12, 345));
    assert_eq!(Node::<u32>::des("12").err(), Some(GraphError::MalformedLine));
    let e = Edge::new(0, 4294967295);
    assert_eq!(e.ser(), "0 4294967295");
    assert_eq!(Edge::des("0 4294967295"), Ok(e));
    assert_eq!(Edge::des("0 a"), Err(GraphError::InvalidIdentifier));
    assert_eq!(Edge::des("0"), Err(GraphError::MalformedLine));
}

#[test]
fn add_node_from_appends() {
    let mut g = Graph::<u32>::new();
    assert_eq!(g.add_node_from(Node::new(2, 1)), Ok(()));
    assert_eq!(g.add_node_from(Node::new(1, 2)), Ok(()));
    assert_eq!(g.add_node_from(Node::new(2, 3)), Err(GraphError::DuplicateIdentifier));
    assert_eq!(g.add_edge_from(Edge::new(2, 1)), Ok(()));
    assert_eq!(g.ser(), "2 1\n1 2\n#\n2 1\n");
}

#[test]
fn second_separator_is_an_edge_line() {
    assert_eq!(Graph::<u32>::des("1 1\n#\n#\n").err(), Some(GraphError::MalformedLine));
    assert_eq!(Graph::<u32>::des("1 1\n#\n1 1\n#\n").err(), Some(GraphError::MalformedLine));
}
