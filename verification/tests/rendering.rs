use oxdraw::style::{
    label_extent, normalize_label_lines, resolve_edge_stroke, resolve_node_colors,
};
use oxdraw::svg::{
    render_scene, EdgePath, Frame, GroupBox, LabelBox, LabelLine, NodeFigure, Place, Scene, Stroke,
};
use oxdraw::{
    Diagram, EdgeArrowDirection, EdgeKind, EdgeStyleOverride, NodeShape, NodeStyleOverride,
};

const HEADER: &str = "<?xml version=\"1.0\" encoding=\"UTF-8\"?>\n<svg xmlns=\"http://www.w3.org/2000/svg\" width=\"300\" height=\"200\" viewBox=\"0 0 300 200\" font-family=\"Inter, system-ui, sans-serif\">\n  <defs>\n        <marker id=\"arrow-end\" markerWidth=\"8\" markerHeight=\"8\" refX=\"6\" refY=\"4\" orient=\"auto\" markerUnits=\"strokeWidth\">\n            <path d=\"M1,1 L6,4 L1,7 z\" fill=\"context-stroke\" />\n        </marker>\n        <marker id=\"arrow-start\" markerWidth=\"8\" markerHeight=\"8\" refX=\"2\" refY=\"4\" orient=\"auto\" markerUnits=\"strokeWidth\">\n            <path d=\"M7,1 L2,4 L7,7 z\" fill=\"context-stroke\" />\n        </marker>\n  </defs>\n";

fn s(text: &str) -> String {
    text.to_string()
}

fn frame(background: &str) -> Frame {
    Frame { width: s("300"), height: s("200"), background: s(background) }
}

fn figure(shape: NodeShape, label: &str) -> NodeFigure {
    NodeFigure {
        shape,
        center_x: s("150.0"),
        center_y: s("110.0"),
        left: s("80.0"),
        top: s("80.0"),
        right: s("220.0"),
        bottom: s("140.0"),
        width: s("140.0"),
        height: s("60.0"),
        half_width: s("70.0"),
        half_height: s("30.0"),
        fill: s("#fde68a"),
        stroke: s("#2d3748"),
        text_color: s("#1a202c"),
        label: s(label),
    }
}

fn empty_scene(background: &str) -> Scene {
    Scene {
        frame: frame(background),
        groups: Vec::new(),
        edges: Vec::new(),
        labels: Vec::new(),
        nodes: Vec::new(),
    }
}

#[test]
fn an_empty_scene_is_a_background() {
    let svg = render_scene(&empty_scene("white"));
    let expected = format!(
        "{}  <rect width=\"100%\" height=\"100%\" fill=\"white\" />\n</svg>\n",
        HEADER
    );
    assert_eq!(svg, expected);
}

#[test]
fn text_from_outside_is_escaped() {
    let mut scene = empty_scene("\"><script>");
    scene.nodes.push(figure(NodeShape::Rectangle, "a < b & c"));
    let svg = render_scene(&scene);
    assert!(svg.contains("fill=\"&quot;&gt;&lt;script&gt;\" />"));
    assert!(svg.contains(">a &lt; b &amp; c</text>"));
    assert!(!svg.contains("<script>"));
}

#[test]
fn each_shape_has_its_outline() {
    let rectangle = "  <rect x=\"80.0\" y=\"80.0\" width=\"140.0\" height=\"60.0\" rx=\"8\" ry=\"8\" fill=\"#fde68a\" stroke=\"#2d3748\" stroke-width=\"2\" />\n";
    let stadium = "  <rect x=\"80.0\" y=\"80.0\" width=\"140.0\" height=\"60.0\" rx=\"30\" ry=\"30\" fill=\"#fde68a\" stroke=\"#2d3748\" stroke-width=\"2\" />\n";
    let circle = "  <ellipse cx=\"150.0\" cy=\"110.0\" rx=\"70.0\" ry=\"30.0\" fill=\"#fde68a\" stroke=\"#2d3748\" stroke-width=\"2\" />\n";
    let diamond = "  <polygon points=\"150.0,80.0 220.0,110.0 150.0,140.0 80.0,110.0\" fill=\"#fde68a\" stroke=\"#2d3748\" stroke-width=\"2\" />\n";
    let text = "  <text x=\"150.0\" y=\"110.0\" fill=\"#1a202c\" font-size=\"14\" text-anchor=\"middle\" dominant-baseline=\"middle\">N</text>\n";
    let cases = vec![
        (NodeShape::Rectangle, rectangle),
        (NodeShape::Stadium, stadium),
        (NodeShape::Circle, circle),
        (NodeShape::Diamond, diamond),
    ];
    for (shape, outline) in cases {
        let mut scene = empty_scene("white");
        scene.nodes.push(figure(shape, "N"));
        let expected = format!(
            "{}  <rect width=\"100%\" height=\"100%\" fill=\"white\" />\n{}{}</svg>\n",
            HEADER, outline, text
        );
        assert_eq!(render_scene(&scene), expected);
    }
}

#[test]
fn groups_edges_labels_and_nodes_come_in_this_order() {
    let mut scene = empty_scene("white");
    scene.nodes.push(figure(NodeShape::Circle, "N"));
    scene.groups.push(GroupBox {
        id: s("G"),
        label: s("Group"),
        x: s("1.0"),
        y: s("2.0"),
        width: s("3.0"),
        height: s("4.0"),
        label_x: s("5.0"),
        label_y: s("6.0"),
    });
    let dark = Stroke { color: s("#2d3748"), dashed: false, marker_start: false, marker_end: true };
    let red = Stroke { color: s("red"), dashed: true, marker_start: true, marker_end: false };
    scene.edges.push(EdgePath {
        points: vec![Place { x: s("1.0"), y: s("2.0") }, Place { x: s("3.0"), y: s("4.0") }],
        stroke: dark,
    });
    scene.edges.push(EdgePath {
        points: vec![
            Place { x: s("1.0"), y: s("2.0") },
            Place { x: s("3.0"), y: s("4.0") },
            Place { x: s("5.0"), y: s("6.0") },
        ],
        stroke: red,
    });
    scene.labels.push(LabelBox {
        x: s("10.0"),
        y: s("20.0"),
        width: s("36.0"),
        height: s("28.0"),
        center_x: s("28.0"),
        center_y: s("34.0"),
        color: s("#2d3748"),
        lines: vec![LabelLine { text: s("go"), y: s("34.0") }],
    });
    scene.labels.push(LabelBox {
        x: s("10.0"),
        y: s("20.0"),
        width: s("36.0"),
        height: s("44.0"),
        center_x: s("28.0"),
        center_y: s("42.0"),
        color: s("red"),
        lines: vec![
            LabelLine { text: s("one"), y: s("34.0") },
            LabelLine { text: s(" "), y: s("50.0") },
        ],
    });
    let svg = render_scene(&scene);
    let group = "  <g class=\"subgraph\" data-id=\"G\">\n    <rect x=\"1.0\" y=\"2.0\" width=\"3.0\" height=\"4.0\" rx=\"16\" ry=\"16\" fill=\"#edf2f7\" fill-opacity=\"0.7\" stroke=\"#a0aec0\" stroke-width=\"1.5\" />\n    <text x=\"5.0\" y=\"6.0\" fill=\"#2d3748\" font-size=\"14\" font-weight=\"600\" text-anchor=\"start\" dominant-baseline=\"hanging\">Group</text>\n  </g>\n";
    let line = "  <line x1=\"1.0\" y1=\"2.0\" x2=\"3.0\" y2=\"4.0\" stroke=\"#2d3748\" stroke-width=\"2\" marker-end=\"url(#arrow-end)\" />\n";
    let polyline = "  <polyline points=\"1.0,2.0 3.0,4.0 5.0,6.0\" fill=\"none\" stroke=\"red\" stroke-width=\"2\" marker-start=\"url(#arrow-start)\" stroke-dasharray=\"8 6\" />\n";
    let single = "  <g pointer-events=\"none\">\n    <rect x=\"10.0\" y=\"20.0\" width=\"36.0\" height=\"28.0\" rx=\"6\" ry=\"6\" fill=\"white\" fill-opacity=\"0.96\" stroke=\"#2d3748\" stroke-width=\"1\" />\n    <text x=\"28.0\" y=\"34.0\" fill=\"#2d3748\" font-size=\"13\" text-anchor=\"middle\" dominant-baseline=\"middle\" xml:space=\"preserve\">go</text>\n  </g>\n";
    let double = "  <g pointer-events=\"none\">\n    <rect x=\"10.0\" y=\"20.0\" width=\"36.0\" height=\"44.0\" rx=\"6\" ry=\"6\" fill=\"white\" fill-opacity=\"0.96\" stroke=\"red\" stroke-width=\"1\" />\n    <text x=\"28.0\" fill=\"#2d3748\" font-size=\"13\" text-anchor=\"middle\" xml:space=\"preserve\">\n      <tspan x=\"28.0\" y=\"34.0\" dominant-baseline=\"middle\">one</tspan>\n      <tspan x=\"28.0\" y=\"50.0\" dominant-baseline=\"middle\"> </tspan>\n    </text>\n  </g>\n";
    let node = "  <ellipse cx=\"150.0\" cy=\"110.0\" rx=\"70.0\" ry=\"30.0\" fill=\"#fde68a\" stroke=\"#2d3748\" stroke-width=\"2\" />\n  <text x=\"150.0\" y=\"110.0\" fill=\"#1a202c\" font-size=\"14\" text-anchor=\"middle\" dominant-baseline=\"middle\">N</text>\n";
    let expected = format!(
        "{}  <rect width=\"100%\" height=\"100%\" fill=\"white\" />\n{}{}{}{}{}{}</svg>\n",
        HEADER, group, line, polyline, single, double, node
    );
    assert_eq!(svg, expected);
}

#[test]
fn styles_replace_defaults_part_by_part() {
    let plain = resolve_edge_stroke(EdgeKind::Dashed, None);
    assert_eq!(plain.color, "#2d3748");
    assert!(plain.dashed);
    assert!(!plain.marker_start);
    assert!(plain.marker_end);
    let style = EdgeStyleOverride {
        line: Some(EdgeKind::Solid),
        color: Some(s("#ff0000")),
        arrow: Some(EdgeArrowDirection::Backward),
    };
    let styled = resolve_edge_stroke(EdgeKind::Dashed, Some(&style));
    assert_eq!(styled.color, "#ff0000");
    assert!(!styled.dashed);
    assert!(styled.marker_start);
    assert!(!styled.marker_end);
    let partly = EdgeStyleOverride { line: None, color: None, arrow: Some(EdgeArrowDirection::Both) };
    let both = resolve_edge_stroke(EdgeKind::Dashed, Some(&partly));
    assert_eq!(both.color, "#2d3748");
    assert!(both.dashed && both.marker_start && both.marker_end);
    let neither = EdgeStyleOverride { line: None, color: None, arrow: Some(EdgeArrowDirection::Neither) };
    let none = resolve_edge_stroke(EdgeKind::Solid, Some(&neither));
    assert!(!none.marker_start && !none.marker_end);

    let colors = resolve_node_colors(NodeShape::Circle, None);
    assert_eq!((colors.fill.as_str(), colors.stroke.as_str(), colors.text.as_str()), ("#e9d8fd", "#2d3748", "#1a202c"));
    let node_style = NodeStyleOverride { fill: Some(s("#000")), stroke: None, text: Some(s("#fff")) };
    let colors = resolve_node_colors(NodeShape::Diamond, Some(&node_style));
    assert_eq!((colors.fill.as_str(), colors.stroke.as_str(), colors.text.as_str()), ("#000", "#2d3748", "#fff"));
    assert_eq!(NodeShape::Rectangle.default_fill_color(), "#fde68a");
    assert_eq!(NodeShape::Stadium.default_fill_color(), "#c4f1f9");
    assert_eq!(NodeShape::Diamond.default_fill_color(), "#fbcfe8");
    assert_eq!(NodeShape::Stadium.as_str(), "stadium");
    assert_eq!(EdgeKind::Dashed.as_str(), "dashed");
    assert_eq!(EdgeKind::Dashed.arrow_token(), "-.->");
}

#[test]
fn label_lines() {
    assert_eq!(normalize_label_lines("one\n\nthree"), vec!["one", " ", "three"]);
    assert_eq!(normalize_label_lines(""), vec![" "]);
    assert_eq!(normalize_label_lines("ab\n"), vec!["ab", " "]);
    assert_eq!(label_extent(&normalize_label_lines("one\n\nthr\u{e9}e!")), (6, 3));
    assert_eq!(label_extent(&Vec::new()), (0, 0));
}

#[test]
fn validity_is_checked_at_run_time() {
    let mut diagram = Diagram::parse("graph TD\nsubgraph G\nA --> B\nend\nC").unwrap();
    assert!(diagram.is_valid());
    assert_eq!(diagram.subgraph_depths(), vec![0]);
    assert_eq!(diagram.top_level_subgraphs(), vec![0]);
    diagram.edges[0].to = "Missing".to_string();
    assert!(!diagram.is_valid());
    diagram.edges[0].to = "B".to_string();
    assert!(diagram.is_valid());
    diagram.order[2] = "A".to_string();
    assert!(!diagram.is_valid());
    diagram.order[2] = "C".to_string();
    diagram.subgraphs[0].nodes.push("A".to_string());
    assert!(!diagram.is_valid());
    diagram.subgraphs[0].nodes.pop();
    diagram.subgraphs[0].children.push(0);
    assert!(!diagram.is_valid());
    diagram.subgraphs[0].children.pop();
    diagram.subgraphs[0].parent = Some(0);
    assert!(!diagram.is_valid());
    diagram.subgraphs[0].parent = None;
    diagram.nodes.pop();
    assert!(!diagram.is_valid());
}

fn tenths(value: f32) -> String {
    format!("{:.1}", value)
}

#[test]
fn diagram_parse_and_render_svg() {
    let definition = r#"
        graph TD
            A[Start] -->|process| B[End]
    "#;

    let diagram = Diagram::parse(definition).unwrap();
    let grid = diagram.compute_auto_layout();
    let centers: Vec<(f32, f32)> = grid
        .slots
        .iter()
        .map(|slot| (190.0 + 160.0 * slot.index as f32, 150.0 + 160.0 * slot.layer as f32))
        .collect();

    let mut scene = empty_scene("white");
    for (index, (x, y)) in centers.iter().enumerate() {
        let node = &diagram.nodes[index];
        let colors = resolve_node_colors(node.shape, None);
        scene.nodes.push(NodeFigure {
            shape: node.shape,
            center_x: tenths(*x),
            center_y: tenths(*y),
            left: tenths(x - 70.0),
            top: tenths(y - 30.0),
            right: tenths(x + 70.0),
            bottom: tenths(y + 30.0),
            width: tenths(140.0),
            height: tenths(60.0),
            half_width: tenths(70.0),
            half_height: tenths(30.0),
            fill: colors.fill,
            stroke: colors.stroke,
            text_color: colors.text,
            label: node.label.clone(),
        });
    }
    for edge in &diagram.edges {
        let from = diagram.order.iter().position(|id| *id == edge.from).unwrap();
        let to = diagram.order.iter().position(|id| *id == edge.to).unwrap();
        scene.edges.push(EdgePath {
            points: vec![
                Place { x: tenths(centers[from].0), y: tenths(centers[from].1 + 30.0) },
                Place { x: tenths(centers[to].0), y: tenths(centers[to].1 - 30.0) },
            ],
            stroke: resolve_edge_stroke(edge.kind, None),
        });
    }
    let svg = render_scene(&scene);

    assert!(
        svg.contains("<svg"),
        "rendered svg should contain root element"
    );
    assert!(svg.contains("Start"), "node labels should appear in output");
    assert!(centers[0].1 < centers[1].1);
    assert!(svg.contains("<line x1=\"190.0\" y1=\"180.0\" x2=\"190.0\" y2=\"280.0\""));
}
