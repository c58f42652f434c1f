use oxdraw::parser::{normalize_subgraph_id, parse_graph_header, parse_subgraph_header};
use oxdraw::{edge_identifier, Diagram, Direction, EdgeKind, NodeShape, NodeSpec, ParseError};

#[test]
fn two_nodes_and_one_edge() {
    let diagram = Diagram::parse("graph TD\nA-->B").unwrap();
    assert_eq!(diagram.direction, Direction::TopDown);
    assert_eq!(diagram.order, vec!["A".to_string(), "B".to_string()]);
    assert_eq!(diagram.nodes.len(), 2);
    assert_eq!(diagram.nodes[0].label, "A");
    assert_eq!(diagram.nodes[0].shape, NodeShape::Rectangle);
    assert_eq!(diagram.edges.len(), 1);
    assert_eq!(diagram.edges[0].from, "A");
    assert_eq!(diagram.edges[0].to, "B");
    assert_eq!(diagram.edges[0].kind, EdgeKind::Solid);
    assert_eq!(diagram.edges[0].label, None);
    assert!(diagram.subgraphs.is_empty());
    assert_eq!(edge_identifier(&diagram.edges[0]), "A --> B");
}

#[test]
fn unterminated_subgraph_is_an_error() {
    let result = Diagram::parse("graph TD\nsubgraph X\nA-->B");
    assert_eq!(result.err(), Some(ParseError::UnclosedSubgraph));
}

#[test]
fn single_node_diagram() {
    let diagram = Diagram::parse("graph LR\nOnly").unwrap();
    assert_eq!(diagram.direction, Direction::LeftRight);
    assert_eq!(diagram.order, vec!["Only".to_string()]);
    assert!(diagram.edges.is_empty());
    assert!(diagram.subgraphs.is_empty());
    assert_eq!(diagram.to_definition(), "graph LR\nOnly\n");
}

#[test]
fn operand_shapes() {
    let circle = NodeSpec::parse(" C((Round)) ").unwrap();
    assert_eq!(circle.id, "C");
    assert_eq!(circle.label, "Round");
    assert_eq!(circle.shape, NodeShape::Circle);
    let stadium = NodeSpec::parse("S(Soft)").unwrap();
    assert_eq!(stadium.shape, NodeShape::Stadium);
    assert_eq!(stadium.label, "Soft");
    let diamond = NodeSpec::parse("D{Choice}").unwrap();
    assert_eq!(diamond.shape, NodeShape::Diamond);
    let rect = NodeSpec::parse("R[ Box ]").unwrap();
    assert_eq!(rect.shape, NodeShape::Rectangle);
    assert_eq!(rect.label, "Box");
    let odd = NodeSpec::parse("X[open").unwrap();
    assert_eq!(odd.id, "X");
    assert_eq!(odd.label, "X[open");
    assert_eq!(NodeSpec::parse("  ").err(), Some(ParseError::EmptyNodeReference));
    assert_eq!(NodeSpec::parse("[x]").err(), Some(ParseError::MissingNodeIdentifier));
}

#[test]
fn definition_of_a_small_diagram() {
    let diagram = Diagram::parse("graph TD\nA-->B").unwrap();
    assert_eq!(diagram.to_definition(), "graph TD\nA\nB\n\nA --> B\n");
}

#[test]
fn removing_a_node_drops_its_edges_and_empty_groups() {
    let text = "graph TD\nsubgraph G[Group]\nA --> B\nend\nsubgraph H\nC\nend\nA --> C";
    let mut diagram = Diagram::parse(text).unwrap();
    assert_eq!(diagram.subgraphs.len(), 2);
    assert_eq!(diagram.node_membership[0], vec!["G".to_string()]);
    assert!(diagram.remove_node("C"));
    assert!(!diagram.remove_node("C"));
    assert_eq!(diagram.order, vec!["A".to_string(), "B".to_string()]);
    assert_eq!(diagram.edges.len(), 1);
    assert_eq!(diagram.subgraphs.len(), 1);
    assert_eq!(diagram.subgraphs[0].id, "G");
    assert_eq!(diagram.subgraphs[0].nodes, vec!["A".to_string(), "B".to_string()]);
    assert!(diagram.remove_edge_by_identifier("A --> B"));
    assert!(!diagram.remove_edge_by_identifier("A --> B"));
    assert!(diagram.edges.is_empty());
}

#[test]
fn groups_are_written_before_free_nodes_and_edges() {
    let text = "graph TD\nsubgraph G[Group]\nA --> B\nsubgraph Inner\nD\nend\nend\nC";
    let diagram = Diagram::parse(text).unwrap();
    assert_eq!(diagram.subgraphs.len(), 2);
    assert_eq!(diagram.subgraphs[0].children, vec![1]);
    assert_eq!(diagram.subgraphs[1].parent, Some(0));
    assert_eq!(diagram.node_membership[2], vec!["G".to_string(), "Inner".to_string()]);
    assert_eq!(diagram.gather_subgraph_nodes(0), vec!["A", "B", "D"]);
    assert_eq!(diagram.stacking_order(), vec![0, 1]);
    let written = diagram.to_definition();
    assert_eq!(
        written,
        "graph TD\n    subgraph G[Group]\n        A\n        B\n        subgraph Inner\n            D\n        end\n    end\n\nC\n\nA --> B\n"
    );
    let again = Diagram::parse(&written).unwrap();
    assert_eq!(again.order, vec!["A", "B", "D", "C"]);
    assert_eq!(again.to_definition(), written);
}

#[test]
fn writing_and_reading_keep_nodes_edges_and_direction() {
    let text = "graph RL\nA[Start] -->|go| B((End))\nB -.-> C{Choice}\nC --> A\nD(Round)";
    let first = Diagram::parse(text).unwrap();
    let second = Diagram::parse(&first.to_definition()).unwrap();
    assert_eq!(first.direction, second.direction);
    let mut first_ids = first.order.clone();
    let mut second_ids = second.order.clone();
    first_ids.sort();
    second_ids.sort();
    assert_eq!(first_ids, second_ids);
    for id in &first.order {
        let a = first.order.iter().position(|x| x == id).unwrap();
        let b = second.order.iter().position(|x| x == id).unwrap();
        assert_eq!(first.nodes[a].label, second.nodes[b].label);
        assert_eq!(first.nodes[a].shape, second.nodes[b].shape);
    }
    assert_eq!(first.edges.len(), second.edges.len());
    for (a, b) in first.edges.iter().zip(second.edges.iter()) {
        assert_eq!((&a.from, a.kind, &a.to, &a.label), (&b.from, b.kind, &b.to, &b.label));
    }
}

#[test]
fn every_parse_error_has_an_input() {
    let cases: Vec<(&str, ParseError)> = vec![
        ("", ParseError::MissingHeader),
        ("%% only a comment\n\n", ParseError::MissingHeader),
        ("flow TD\nA", ParseError::InvalidHeader),
        ("graph XY\nA", ParseError::UnknownDirection),
        ("graph TD\nsubgraph\nA\nend", ParseError::MissingSubgraphIdentifier),
        ("graph TD\nsubgraph [Label]\nA\nend", ParseError::EmptySubgraphIdentifier),
        ("graph TD\nsubgraph \"  \"\nA\nend", ParseError::EmptySubgraphLabel),
        ("graph TD\nsubgraph X\nA\nend\nsubgraph X\nB\nend", ParseError::DuplicateSubgraph),
        ("graph TD\nA\nend", ParseError::UnmatchedEnd),
        ("graph TD\nA -->|label B", ParseError::UnterminatedEdgeLabel),
        ("graph TD\nA -->", ParseError::EmptyNodeReference),
        ("graph TD\nA --> [B]", ParseError::MissingNodeIdentifier),
        ("graph TD\nsubgraph X\nA", ParseError::UnclosedSubgraph),
        ("graph TD\n", ParseError::NoNodes),
    ];
    for (text, expected) in cases {
        assert_eq!(Diagram::parse(text).err(), Some(expected), "input: {:?}", text);
    }
    assert_eq!(parse_graph_header("   ").err(), Some(ParseError::EmptyHeader));
}

#[test]
fn headers_and_comments() {
    let diagram = Diagram::parse("\n  %% title\n  GRAPH lr  \n  %% note\n  A --> B\n").unwrap();
    assert_eq!(diagram.direction, Direction::LeftRight);
    assert_eq!(Diagram::parse("graph\nA").err(), Some(ParseError::InvalidHeader));
    assert_eq!(Diagram::parse("graph TD\nA").unwrap().direction, Direction::TopDown);
    assert_eq!(Diagram::parse("graph TB\nA").unwrap().direction, Direction::TopDown);
    assert_eq!(Diagram::parse("graph bt\nA").unwrap().direction, Direction::BottomTop);
    assert_eq!(Diagram::parse("graph RL\t\nA").unwrap().direction, Direction::RightLeft);
    assert_eq!(Diagram::parse("graph RL extra\nA").err(), Some(ParseError::InvalidHeader));
}

#[test]
fn the_first_declaration_of_a_node_wins() {
    let diagram = Diagram::parse("graph TD\nA[First]\nA((Second)) --> B\nsubgraph G\nA\nend").unwrap();
    assert_eq!(diagram.nodes[0].label, "First");
    assert_eq!(diagram.nodes[0].shape, NodeShape::Rectangle);
    assert!(diagram.node_membership[0].is_empty());
    assert!(diagram.subgraphs[0].nodes.is_empty());
}

#[test]
fn subgraph_headers() {
    assert_eq!(
        parse_subgraph_header(" my group ").unwrap(),
        ("my_group".to_string(), "my group".to_string())
    );
    assert_eq!(
        parse_subgraph_header("g1[ Shown ]").unwrap(),
        ("g1".to_string(), "Shown".to_string())
    );
    assert_eq!(
        parse_subgraph_header("\"Quoted Name\"").unwrap(),
        ("Quoted_Name".to_string(), "Quoted Name".to_string())
    );
    assert_eq!(parse_subgraph_header("g2[]").unwrap(), ("g2".to_string(), "g2".to_string()));
    assert_eq!(normalize_subgraph_id("   "), "subgraph");
    assert_eq!(normalize_subgraph_id(" a\tb c "), "a_b_c");
}

#[test]
fn dashed_arrows_are_found_first() {
    let diagram = Diagram::parse("graph TD\nA -.-> B-->C").unwrap();
    assert_eq!(diagram.edges.len(), 1);
    assert_eq!(diagram.edges[0].kind, EdgeKind::Dashed);
    assert_eq!(diagram.edges[0].to, "B-->C");
    let labelled = Diagram::parse("graph TD\nA -->| yes | B").unwrap();
    assert_eq!(labelled.edges[0].label, Some("yes".to_string()));
    assert_eq!(Diagram::format_edge_line(&labelled.edges[0]), "A -->|yes| B");
    assert_eq!(edge_identifier(&labelled.edges[0]), "A --> B");
}

#[test]
fn failures_are_described() {
    assert_eq!(ParseError::NoNodes.message(), "diagram does not declare any nodes");
    assert_eq!(
        ParseError::UnmatchedEnd.message(),
        "encountered 'end' without matching 'subgraph'"
    );
    assert_eq!(
        ParseError::MissingHeader.message(),
        "diagram definition must start with a 'graph' declaration"
    );
}
