use digraph::{Graph, GraphError, Node, ParseError, Relation, TextValue, UnmarshalError};

fn sample() -> Graph<String> {
    Graph::new()
        .add_node(1, "A".to_string())
        .unwrap()
        .add_node(2, "B".to_string())
        .unwrap()
        .add_node(3, "C".to_string())
        .unwrap()
        .add_relation(1, 2)
        .unwrap()
        .add_relation(2, 3)
        .unwrap()
        .add_relation(1, 3)
        .unwrap()
}

fn ids(nodes: &[&Node<String>]) -> Vec<u32> {
    nodes.iter().map(|n| n.id).collect()
}

#[test]
fn traversal_visits_once_per_path() {
    let g = sample();
    let root = Node::new(1, "A".to_string());
    let visited = g.pass_from(&root);
    assert_eq!(ids(&visited), vec![1, 2, 3, 3]);
}

#[test]
fn traversal_stops_at_cycles_on_the_path() {
    let g = sample().add_relation(3, 1).unwrap();
    let root = Node::new(1, "A".to_string());
    assert_eq!(ids(&g.pass_from(&root)), vec![1, 2, 3, 3]);
    let g = Graph::new().add_node(7, "x".to_string()).unwrap().add_relation(7, 7).unwrap();
    let root = Node::new(7, "x".to_string());
    assert_eq!(ids(&g.pass_from(&root)), vec![7]);
}

#[test]
fn traversal_diamond_visits_join_twice() {
    let g = Graph::new()
        .add_node(1, "A".to_string())
        .unwrap()
        .add_node(2, "B".to_string())
        .unwrap()
        .add_node(3, "C".to_string())
        .unwrap()
        .add_node(4, "D".to_string())
        .unwrap()
        .add_relation(1, 2)
        .unwrap()
        .add_relation(1, 3)
        .unwrap()
        .add_relation(2, 4)
        .unwrap()
        .add_relation(3, 4)
        .unwrap();
    let root = Node::new(1, "A".to_string());
    assert_eq!(ids(&g.pass_from(&root)), vec![1, 2, 4, 3, 4]);
}

#[test]
fn serializes_to_literal_text() {
    assert_eq!(sample().marshal(), "1 A\n2 B\n3 C\n#\n1 2\n2 3\n1 3\n");
}

#[test]
fn empty_graph_serializes_to_delimiter() {
    let g: Graph<String> = Graph::new();
    assert_eq!(g.marshal(), "#\n");
}

#[test]
fn round_trip_keeps_nodes_and_relations() {
    let g = sample();
    let text = g.marshal();
    let back: Graph<String> = Graph::unmarshal(&text).unwrap();
    assert_eq!(back.marshal(), text);
    let nodes = back.get_all_nodes();
    assert_eq!(ids(&nodes), vec![1, 2, 3]);
    assert_eq!(nodes[1].value, "B");
}

#[test]
fn round_trip_with_integer_values() {
    let g: Graph<u32> = Graph::new()
        .add_node(10, 4000000000)
        .unwrap()
        .add_node(0, 0)
        .unwrap()
        .add_relation(0, 10)
        .unwrap();
    let text = g.marshal();
    assert_eq!(text, "10 4000000000\n0 0\n#\n0 10\n");
    let back: Graph<u32> = Graph::unmarshal(&text).unwrap();
    assert_eq!(back.marshal(), text);
}

#[test]
fn node_unmarshal_errors() {
    assert_eq!(Node::<String>::unmarshal("1").unwrap_err(), ParseError::MalformedLine);
    assert_eq!(Node::<String>::unmarshal("x A").unwrap_err(), ParseError::InvalidId);
    assert_eq!(Node::<String>::unmarshal("1 A B").unwrap_err(), ParseError::MalformedLine);
    assert_eq!(Node::<u32>::unmarshal("1 A").unwrap_err(), ParseError::InvalidValue);
    assert_eq!(Node::<String>::unmarshal("4294967296 A").unwrap_err(), ParseError::InvalidId);
    assert_eq!(Node::<String>::unmarshal("-1 A").unwrap_err(), ParseError::InvalidId);
}

#[test]
fn node_unmarshal_reads_id_and_value() {
    let n = Node::<String>::unmarshal("42 hello").unwrap();
    assert_eq!(n.id, 42);
    assert_eq!(n.value, "hello");
    let n = Node::<u32>::unmarshal("+7 4294967295").unwrap();
    assert_eq!(n.id, 7);
    assert_eq!(n.value, 4294967295);
    assert_eq!(n.marshal(), "7 4294967295");
}

#[test]
fn relation_marshal_and_unmarshal() {
    let r = Relation::new(12, 305);
    assert_eq!(r.marshal(), "12 305");
    let back = Relation::unmarshal("12 305").unwrap();
    assert_eq!(back, r);
    assert_eq!(back.begin(), 12);
    assert_eq!(back.end(), 305);
    assert_eq!(Relation::unmarshal("12").unwrap_err(), ParseError::MalformedLine);
    assert_eq!(Relation::unmarshal("12 x").unwrap_err(), ParseError::InvalidId);
    assert_eq!(Relation::unmarshal("1 2 3").unwrap_err(), ParseError::MalformedLine);
}

#[test]
fn duplicate_node_is_refused() {
    let err = sample().add_node(2, "Z".to_string()).unwrap_err();
    assert_eq!(err, GraphError::DuplicateNode(2));
    let err = sample().add_node_from(Node::new(3, "Z".to_string())).unwrap_err();
    assert_eq!(err, GraphError::DuplicateNode(3));
}

#[test]
fn relation_to_unknown_node_is_refused() {
    assert_eq!(sample().add_relation(1, 9).unwrap_err(), GraphError::UnknownEndpoint(1, 9));
    assert_eq!(sample().add_relation(8, 1).unwrap_err(), GraphError::UnknownEndpoint(8, 1));
    let err = sample().add_relation_from(Relation::new(8, 9)).unwrap_err();
    assert_eq!(err, GraphError::UnknownEndpoint(8, 9));
}

#[test]
fn adding_a_relation_twice_keeps_one() {
    let g = sample().add_relation(1, 2).unwrap().add_relation(1, 2).unwrap();
    assert_eq!(g.marshal(), "1 A\n2 B\n3 C\n#\n1 2\n2 3\n1 3\n");
}

#[test]
fn self_loop_is_allowed() {
    let g = sample().add_relation(2, 2).unwrap();
    let b = Node::new(2, "B".to_string());
    assert_eq!(ids(&g.get_connected(&b)), vec![3, 2]);
}

#[test]
fn connected_follows_relation_order() {
    let g = sample();
    let a = Node::new(1, "A".to_string());
    assert_eq!(ids(&g.get_connected(&a)), vec![2, 3]);
    let c = Node::new(3, "C".to_string());
    assert!(g.get_connected(&c).is_empty());
    let stranger = Node::new(99, "Q".to_string());
    assert!(g.get_connected(&stranger).is_empty());
}

#[test]
fn removing_a_node_cascades() {
    let g = sample().remove_node_by_id(2);
    assert_eq!(g.marshal(), "1 A\n3 C\n#\n1 3\n");
    let g = g.remove_node_by_id(42);
    assert_eq!(g.marshal(), "1 A\n3 C\n#\n1 3\n");
    let g = g.remove_node_by_id(3);
    assert_eq!(g.marshal(), "1 A\n#\n");
}

#[test]
fn removing_a_relation_matches_both_ends() {
    let g = sample().remove_relation(&Relation::new(2, 3));
    assert_eq!(g.marshal(), "1 A\n2 B\n3 C\n#\n1 2\n1 3\n");
    let g = g.remove_relation(&Relation::new(3, 1));
    assert_eq!(g.marshal(), "1 A\n2 B\n3 C\n#\n1 2\n1 3\n");
}

#[test]
fn unmarshal_reports_errors() {
    let r = Graph::<String>::unmarshal("1 A\n1 B\n#\n");
    assert_eq!(r.unwrap_err(), UnmarshalError::Graph(GraphError::DuplicateNode(1)));
    let r = Graph::<String>::unmarshal("1 A\n#\n1 2\n");
    assert_eq!(r.unwrap_err(), UnmarshalError::Graph(GraphError::UnknownEndpoint(1, 2)));
    let r = Graph::<String>::unmarshal("1 A\nbad\n#\n");
    assert_eq!(r.unwrap_err(), UnmarshalError::Parse(ParseError::MalformedLine));
    let r = Graph::<String>::unmarshal("1 A\n#\n1 q\n");
    assert_eq!(r.unwrap_err(), UnmarshalError::Parse(ParseError::InvalidId));
    let r = Graph::<u32>::unmarshal("1 A\n#\n");
    assert_eq!(r.unwrap_err(), UnmarshalError::Parse(ParseError::InvalidValue));
}

#[test]
fn unmarshal_without_delimiter_reads_only_nodes() {
    let g = Graph::<String>::unmarshal("1 A\n2 B").unwrap();
    assert_eq!(g.marshal(), "1 A\n2 B\n#\n");
    let r = Graph::<String>::unmarshal("1 A\n1 2\n");
    assert_eq!(r.unwrap_err(), UnmarshalError::Graph(GraphError::DuplicateNode(1)));
}

#[test]
fn unmarshal_accepts_crlf_and_empty_text() {
    let g = Graph::<String>::unmarshal("1 A\r\n2 B\r\n#\r\n1 2\r\n").unwrap();
    assert_eq!(g.marshal(), "1 A\n2 B\n#\n1 2\n");
    let g = Graph::<String>::unmarshal("").unwrap();
    assert_eq!(g.marshal(), "#\n");
}

#[test]
fn text_values_convert() {
    assert_eq!(17u32.to_text(), "17");
    assert_eq!(u32::from_text("0017"), Some(17));
    assert_eq!(u32::from_text(""), None);
    assert_eq!(u32::from_text("+"), None);
    assert_eq!("ab".to_string().to_text(), "ab");
    assert_eq!(String::from_text("ab"), Some("ab".to_string()));
}

#[test]
fn traversal_from_a_node_outside_the_graph_visits_only_it() {
    let g = sample();
    let stranger = Node::new(99, "Q".to_string());
    assert_eq!(ids(&g.pass_from(&stranger)), vec![99]);
}

#[test]
fn value_with_trailing_carriage_return_is_a_line_ending() {
    let n = Node::<String>::unmarshal("5 v\r").unwrap();
    assert_eq!(n.value, "v\r");
    let g = Graph::<String>::unmarshal("5 v\r\n#\n").unwrap();
    assert_eq!(g.get_all_nodes()[0].value, "v");
}

#[test]
fn second_delimiter_is_a_malformed_relation() {
    let r = Graph::<String>::unmarshal("1 A\n#\n#\n");
    assert_eq!(r.unwrap_err(), UnmarshalError::Parse(ParseError::MalformedLine));
    let r = Graph::<String>::unmarshal("#\n#\n");
    assert_eq!(r.unwrap_err(), UnmarshalError::Parse(ParseError::MalformedLine));
}
