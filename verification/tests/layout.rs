use oxdraw::levels::compute_levels;
use oxdraw::{
    apply_node_overrides, Bundle, Diagram, GridSlot, LayoutOverrides, RouteScore, Table,
};

#[test]
fn levels_follow_the_longest_path() {
    let diagram = Diagram::parse("graph TD\nA-->B\nA-->C\nB-->D\nC-->D\nD-->E\nA-->E").unwrap();
    assert_eq!(diagram.node_levels(), vec![0, 1, 1, 2, 3]);
    let grid = diagram.compute_auto_layout();
    assert_eq!(grid.level_count, 4);
    assert_eq!(grid.max_per_level, 2);
    assert_eq!(grid.slots[0], GridSlot { layer: 0, index: 0, count: 1 });
    assert_eq!(grid.slots[1], GridSlot { layer: 1, index: 0, count: 2 });
    assert_eq!(grid.slots[2], GridSlot { layer: 1, index: 1, count: 2 });
    assert_eq!(grid.slots[3], GridSlot { layer: 2, index: 0, count: 1 });
    assert_eq!(grid.slots[4], GridSlot { layer: 3, index: 0, count: 1 });
}

#[test]
fn every_edge_of_an_acyclic_diagram_leads_to_a_higher_level() {
    let diagram =
        Diagram::parse("graph LR\nA-->B\nC-->B\nB-->D\nA-->D\nE\nD-->F\nC-->F").unwrap();
    let levels = diagram.node_levels();
    for (from, to) in diagram.edge_endpoints() {
        assert!(levels[to] > levels[from]);
    }
}

#[test]
fn bottom_to_top_counts_layers_from_the_far_end() {
    let diagram = Diagram::parse("graph BT\nA-->B\nB-->C").unwrap();
    let grid = diagram.compute_auto_layout();
    assert_eq!(grid.slots[0].layer, 2);
    assert_eq!(grid.slots[1].layer, 1);
    assert_eq!(grid.slots[2].layer, 0);
}

#[test]
fn a_cycle_gets_best_effort_levels() {
    let diagram = Diagram::parse("graph TD\nA-->B\nB-->A").unwrap();
    assert_eq!(diagram.node_levels(), vec![1, 2]);
    let grid = diagram.compute_auto_layout();
    assert_eq!(grid.level_count, 2);
    assert_eq!(grid.slots[0].layer, 0);
    assert_eq!(grid.slots[1].layer, 1);
}

#[test]
fn a_cycle_behind_a_source() {
    // S settles; A, B, C lie on a cycle that S feeds.
    let levels = compute_levels(4, &vec![(0, 1), (1, 2), (2, 3), (3, 1)]);
    assert_eq!(levels, vec![0, 1, 2, 3]);
    let levels = compute_levels(3, &vec![(2, 1), (1, 0), (0, 2)]);
    assert_eq!(levels, vec![1, 1, 2]);
}

#[test]
fn single_node_grid() {
    let diagram = Diagram::parse("graph TD\nOnly").unwrap();
    let grid = diagram.compute_auto_layout();
    assert_eq!(grid.level_count, 1);
    assert_eq!(grid.max_per_level, 1);
    assert_eq!(grid.slots, vec![GridSlot { layer: 0, index: 0, count: 1 }]);
    assert!(diagram.edge_bundles().is_empty());
}

#[test]
fn opposite_edges_form_a_bundle() {
    let diagram = Diagram::parse("graph TD\nA-->B\nB-->A\nA-->C\nB-->A").unwrap();
    let bundles = diagram.edge_bundles();
    assert_eq!(
        bundles[0],
        Some(Bundle { forward: true, slot: 0, first_forward: 0, first_backward: 1 })
    );
    assert_eq!(
        bundles[1],
        Some(Bundle { forward: false, slot: 0, first_forward: 0, first_backward: 1 })
    );
    assert_eq!(bundles[2], None);
    assert_eq!(
        bundles[3],
        Some(Bundle { forward: false, slot: 1, first_forward: 0, first_backward: 1 })
    );
}

#[test]
fn parallel_edges_in_one_direction_form_no_bundle() {
    let diagram = Diagram::parse("graph TD\nA-->B\nA-->B\nC-->C").unwrap();
    assert_eq!(diagram.edge_bundles(), vec![None, None, None]);
}

#[test]
fn scores_compare_node_then_label_then_crossings() {
    let clear = RouteScore { blocks_node: false, blocks_label: false, crossings: 0 };
    let crossing = RouteScore { blocks_node: false, blocks_label: false, crossings: 2 };
    let label = RouteScore { blocks_node: false, blocks_label: true, crossings: 0 };
    let node = RouteScore { blocks_node: true, blocks_label: false, crossings: 0 };
    assert!(clear.better_than(&crossing));
    assert!(crossing.better_than(&label));
    assert!(label.better_than(&node));
    assert!(!node.better_than(&label));
    assert!(!clear.better_than(&clear));
    let mut best = node;
    assert_eq!(RouteScore::consider(&mut best, label), (true, false));
    assert_eq!(best, label);
    assert_eq!(RouteScore::consider(&mut best, node), (false, false));
    assert_eq!(RouteScore::consider(&mut best, clear), (true, true));
    assert_eq!(best, clear);
}

#[test]
fn an_override_takes_precedence_over_the_automatic_position() {
    let order = vec!["A".to_string(), "B".to_string(), "C".to_string()];
    let auto = vec![(1.0_f32, 2.0_f32), (3.0, 4.0), (5.0, 6.0)];
    let mut table: Table<(f32, f32)> = Table::new();
    table.insert("B".to_string(), (30.5, 40.25));
    table.insert("Z".to_string(), (9.0, 9.0));
    table.insert("B".to_string(), (31.5, 41.25));
    assert_eq!(table.len(), 2);
    let positions = apply_node_overrides(&order, &auto, &table);
    assert_eq!(positions, vec![(1.0, 2.0), (31.5, 41.25), (5.0, 6.0)]);
}

#[test]
fn pruning_drops_stale_overrides() {
    let mut overrides: LayoutOverrides<(i32, i32)> = LayoutOverrides::new();
    assert!(overrides.is_empty());
    overrides.nodes.insert("A".to_string(), (1, 1));
    overrides.nodes.insert("Gone".to_string(), (2, 2));
    overrides.nodes.insert("B".to_string(), (3, 3));
    assert!(!overrides.is_empty());
    let nodes = vec!["B".to_string(), "A".to_string()];
    let edges: Vec<String> = Vec::new();
    overrides.prune(&nodes, &edges);
    assert_eq!(overrides.nodes.keys, vec!["A".to_string(), "B".to_string()]);
    assert_eq!(overrides.nodes.values, vec![(1, 1), (3, 3)]);
    assert_eq!(overrides.nodes.get(&"B".to_string()), Some(&(3, 3)));
    assert_eq!(overrides.nodes.get(&"Gone".to_string()), None);
}

#[test]
fn pruning_for_a_diagram_keeps_what_names_its_nodes_and_edges() {
    let mut diagram = Diagram::parse("graph TD\nA --> B\nB -.-> C").unwrap();
    let mut overrides: LayoutOverrides<(i32, i32)> = LayoutOverrides::new();
    overrides.nodes.insert("C".to_string(), (1, 1));
    overrides.nodes.insert("A".to_string(), (2, 2));
    overrides.edges.insert(
        "B -.-> C".to_string(),
        oxdraw::EdgeOverride { points: vec![(5, 5)] },
    );
    overrides.edges.insert("A --> B".to_string(), oxdraw::EdgeOverride { points: vec![] });
    assert_eq!(diagram.edge_identifiers(), vec!["A --> B", "B -.-> C"]);
    assert!(diagram.remove_node("C"));
    overrides.prune_for(&diagram);
    assert_eq!(overrides.nodes.keys, vec!["A"]);
    assert_eq!(overrides.nodes.values, vec![(2, 2)]);
    assert_eq!(overrides.edges.keys, vec!["A --> B"]);
    assert!(diagram.is_valid());
}

#[test]
fn a_tampered_membership_path_is_not_valid() {
    let mut diagram = Diagram::parse("graph TD\nsubgraph G\nsubgraph H\nA\nend\nend\nB").unwrap();
    assert_eq!(diagram.node_membership[0], vec!["G", "H"]);
    assert!(diagram.is_valid());
    diagram.node_membership[0] = vec!["H".to_string()];
    assert!(diagram.is_well_formed());
    assert!(!diagram.is_valid());
    diagram.node_membership[0] = vec!["G".to_string(), "H".to_string()];
    diagram.node_membership[1] = vec!["G".to_string()];
    assert!(!diagram.is_valid());
}

#[test]
fn the_layout_is_the_same_each_time() {
    let text = "graph LR\nB-->A\nA-->C\nC-->B\nD-->A\nsubgraph G\nE --> F\nend";
    let first = Diagram::parse(text).unwrap();
    let second = Diagram::parse(text).unwrap();
    assert_eq!(first.compute_auto_layout().slots, second.compute_auto_layout().slots);
    assert_eq!(first.compute_auto_layout().slots, first.compute_auto_layout().slots);
    assert_eq!(first.edge_bundles(), second.edge_bundles());
    assert_eq!(first.node_levels(), second.node_levels());
}

#[test]
fn a_source_lies_above_its_target() {
    let diagram = Diagram::parse("graph TD\nA-->B").unwrap();
    let grid = diagram.compute_auto_layout();
    assert!(grid.slots[0].layer < grid.slots[1].layer);
    assert_eq!(grid.slots[0].index, grid.slots[1].index);
    assert_eq!(diagram.edge_bundles(), vec![None]);
}

#[test]
fn a_diagram_with_a_loose_edge_is_not_laid_out() {
    let mut diagram = Diagram::parse("graph TD\nA-->B").unwrap();
    assert!(diagram.checked_auto_layout().is_ok());
    diagram.edges[0].to = "Nowhere".to_string();
    assert_eq!(diagram.checked_auto_layout().err(), Some(oxdraw::LayoutError::UnknownNode));
    diagram.edges[0].to = "B".to_string();
    diagram.nodes.pop();
    assert_eq!(diagram.checked_auto_layout().err(), Some(oxdraw::LayoutError::Invalid));
}

#[test]
fn a_search_settles_on_the_first_perfect_or_the_best_candidate() {
    let score = |node: bool, label: bool, crossings: usize| RouteScore {
        blocks_node: node,
        blocks_label: label,
        crossings,
    };
    let base = score(true, false, 1);
    assert_eq!(RouteScore::select(base, &vec![]), None);
    assert_eq!(RouteScore::select(base, &vec![score(true, false, 1), score(true, true, 0)]), None);
    assert_eq!(
        RouteScore::select(
            base,
            &vec![score(false, true, 3), score(false, false, 2), score(false, false, 2)]
        ),
        Some(1)
    );
    assert_eq!(
        RouteScore::select(
            base,
            &vec![score(false, false, 2), score(false, false, 0), score(false, false, 0)]
        ),
        Some(1)
    );
    assert_eq!(
        RouteScore::select(base, &vec![score(true, false, 0), score(true, false, 2)]),
        Some(0)
    );
}

#[test]
fn the_first_attempt_without_a_collision_is_kept() {
    use_keep_attempt(&[], None);
    use_keep_attempt(&[false], Some(0));
    use_keep_attempt(&[true, false, false], Some(1));
    use_keep_attempt(&[true, true, true], Some(2));
}

fn use_keep_attempt(collides: &[bool], expected: Option<usize>) {
    assert_eq!(oxdraw::routing::keep_attempt(&collides.to_vec()), expected);
}

#[test]
fn an_edge_override_without_waypoints_counts_as_absent() {
    let mut overrides: LayoutOverrides<(i32, i32)> = LayoutOverrides::new();
    overrides.edges.insert("A --> B".to_string(), oxdraw::EdgeOverride { points: vec![] });
    overrides.edges.insert("B --> C".to_string(), oxdraw::EdgeOverride { points: vec![(1, 2)] });
    assert!(overrides.edge_waypoints(&"A --> B".to_string()).is_none());
    assert!(overrides.edge_waypoints(&"A --> C".to_string()).is_none());
    assert_eq!(overrides.edge_waypoints(&"B --> C".to_string()).unwrap().points, vec![(1, 2)]);
    let nothing = oxdraw::NodeStyleOverride { fill: None, stroke: None, text: None };
    assert!(nothing.is_empty());
    let line = oxdraw::EdgeStyleOverride {
        line: Some(oxdraw::EdgeKind::Dashed),
        color: None,
        arrow: None,
    };
    assert!(!line.is_empty());
}

#[test]
fn overrides_are_set_and_cleared() {
    let mut overrides: LayoutOverrides<(i32, i32)> = LayoutOverrides::new();
    overrides.set_node("A".to_string(), Some((1, 2)));
    overrides.set_node("B".to_string(), Some((3, 4)));
    overrides.set_node("A".to_string(), Some((5, 6)));
    assert_eq!(overrides.nodes.keys, vec!["A", "B"]);
    assert_eq!(overrides.nodes.get(&"A".to_string()), Some(&(5, 6)));
    overrides.set_node("A".to_string(), None);
    overrides.set_node("C".to_string(), None);
    assert_eq!(overrides.nodes.keys, vec!["B"]);
    assert_eq!(overrides.nodes.values, vec![(3, 4)]);
    overrides.set_edge("A --> B".to_string(), Some(oxdraw::EdgeOverride { points: vec![(1, 1)] }));
    assert_eq!(overrides.edges.len(), 1);
    overrides.set_edge("A --> B".to_string(), Some(oxdraw::EdgeOverride { points: vec![] }));
    assert!(overrides.edges.is_empty());
    assert_eq!(overrides.nodes.remove(&"B".to_string()), Some((3, 4)));
    assert_eq!(overrides.nodes.remove(&"B".to_string()), None);
    assert!(overrides.is_empty());
}
