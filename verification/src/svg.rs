//! The writer of SVG documents.
//!
//! A scene holds what is drawn, with every number already written out as
//! text. The writer puts the elements in their order (background, groups,
//! edges, edge labels, nodes) and escapes every text that comes from a
//! diagram or from a style.

use vstd::prelude::*;
use crate::definition::append_str;
use crate::model::NodeShape;

use crate::text::{lines, rows, string_of};
use crate::utils::{escape_xml, escaped};

verus! {

/// The size of the canvas and the colour behind it.
#[derive(Clone, Debug)]
pub struct Frame {
    pub width: String,
    pub height: String,
    pub background: String,
}

/// The box and the label of a group.
#[derive(Clone, Debug)]
pub struct GroupBox {
    pub id: String,
    pub label: String,
    pub x: String,
    pub y: String,
    pub width: String,
    pub height: String,
    pub label_x: String,
    pub label_y: String,
}

/// How the line of an edge is drawn.
#[derive(Clone, Debug)]
pub struct Stroke {
    pub color: String,
    pub dashed: bool,
    pub marker_start: bool,
    pub marker_end: bool,
}

/// A point of a route.
#[derive(Clone, Debug)]
pub struct Place {
    pub x: String,
    pub y: String,
}

/// The route of an edge.
#[derive(Clone, Debug)]
pub struct EdgePath {
    pub points: Vec<Place>,
    pub stroke: Stroke,
}

/// A line of a label and the height at which it is written.
#[derive(Clone, Debug)]
pub struct LabelLine {
    pub text: String,
    pub y: String,
}

/// The box and the lines of an edge label.
#[derive(Clone, Debug)]
pub struct LabelBox {
    pub x: String,
    pub y: String,
    pub width: String,
    pub height: String,
    pub center_x: String,
    pub center_y: String,
    pub color: String,
    pub lines: Vec<LabelLine>,
}

/// A node: its shape, its extent, its colours and its label.
#[derive(Clone, Debug)]
pub struct NodeFigure {
    pub shape: NodeShape,
    pub center_x: String,
    pub center_y: String,
    pub left: String,
    pub top: String,
    pub right: String,
    pub bottom: String,
    pub width: String,
    pub height: String,
    pub half_width: String,
    pub half_height: String,
    pub fill: String,
    pub stroke: String,
    pub text_color: String,
    pub label: String,
}

/// All that a document shows.
#[derive(Clone, Debug)]
pub struct Scene {
    pub frame: Frame,
    pub groups: Vec<GroupBox>,
    pub edges: Vec<EdgePath>,
    pub labels: Vec<LabelBox>,
    pub nodes: Vec<NodeFigure>,
}

/// Appends `text`, escaped for XML, to `out`.
pub fn append_escaped(out: &mut Vec<char>, text: &str)
    ensures
        final(out)@ == old(out)@ + escaped(text@, text@.len() as int),
{
    let safe = escape_xml(text);
    append_str(out, safe.as_str());
}

/// The opening of the document: the canvas, the arrowheads and the background.
pub open spec fn frame_svg(frame: Frame) -> Seq<char> {
    "<?xml version=\"1.0\" encoding=\"UTF-8\"?>\n<svg xmlns=\"http://www.w3.org/2000/svg\" width=\""@
        + frame.width@
        + "\" height=\""@
        + frame.height@
        + "\" viewBox=\"0 0 "@
        + frame.width@
        + " "@
        + frame.height@
        + "\" font-family=\"Inter, system-ui, sans-serif\">\n  <defs>\n        <marker id=\"arrow-end\" markerWidth=\"8\" markerHeight=\"8\" refX=\"6\" refY=\"4\" orient=\"auto\" markerUnits=\"strokeWidth\">\n            <path d=\"M1,1 L6,4 L1,7 z\" fill=\"context-stroke\" />\n        </marker>\n        <marker id=\"arrow-start\" markerWidth=\"8\" markerHeight=\"8\" refX=\"2\" refY=\"4\" orient=\"auto\" markerUnits=\"strokeWidth\">\n            <path d=\"M7,1 L2,4 L7,7 z\" fill=\"context-stroke\" />\n        </marker>\n  </defs>\n  <rect width=\"100%\" height=\"100%\" fill=\""@
        + escaped(frame.background@, frame.background@.len() as int)
        + "\" />\n"@
}

/// Appends the element of `frame` to `out`.
pub fn write_frame(out: &mut Vec<char>, frame: &Frame)
    ensures
        final(out)@ == old(out)@ + frame_svg(*frame),
{
    append_str(out, "<?xml version=\"1.0\" encoding=\"UTF-8\"?>\n<svg xmlns=\"http://www.w3.org/2000/svg\" width=\"");
    append_str(out, frame.width.as_str());
    append_str(out, "\" height=\"");
    append_str(out, frame.height.as_str());
    append_str(out, "\" viewBox=\"0 0 ");
    append_str(out, frame.width.as_str());
    append_str(out, " ");
    append_str(out, frame.height.as_str());
    append_str(out, "\" font-family=\"Inter, system-ui, sans-serif\">\n  <defs>\n        <marker id=\"arrow-end\" markerWidth=\"8\" markerHeight=\"8\" refX=\"6\" refY=\"4\" orient=\"auto\" markerUnits=\"strokeWidth\">\n            <path d=\"M1,1 L6,4 L1,7 z\" fill=\"context-stroke\" />\n        </marker>\n        <marker id=\"arrow-start\" markerWidth=\"8\" markerHeight=\"8\" refX=\"2\" refY=\"4\" orient=\"auto\" markerUnits=\"strokeWidth\">\n            <path d=\"M7,1 L2,4 L7,7 z\" fill=\"context-stroke\" />\n        </marker>\n  </defs>\n  <rect width=\"100%\" height=\"100%\" fill=\"");
    append_escaped(out, frame.background.as_str());
    append_str(out, "\" />\n");
    proof {
        assert(out@ =~= old(out)@ + frame_svg(*frame));
    }
}

/// The element of a group: its box and its label.
pub open spec fn group_svg(group: GroupBox) -> Seq<char> {
    "  <g class=\"subgraph\" data-id=\""@
        + escaped(group.id@, group.id@.len() as int)
        + "\">\n    <rect x=\""@
        + group.x@
        + "\" y=\""@
        + group.y@
        + "\" width=\""@
        + group.width@
        + "\" height=\""@
        + group.height@
        + "\" rx=\"16\" ry=\"16\" fill=\"#edf2f7\" fill-opacity=\"0.7\" stroke=\"#a0aec0\" stroke-width=\"1.5\" />\n    <text x=\""@
        + group.label_x@
        + "\" y=\""@
        + group.label_y@
        + "\" fill=\"#2d3748\" font-size=\"14\" font-weight=\"600\" text-anchor=\"start\" dominant-baseline=\"hanging\">"@
        + escaped(group.label@, group.label@.len() as int)
        + "</text>\n  </g>\n"@
}

/// Appends the element of `group` to `out`.
pub fn write_group(out: &mut Vec<char>, group: &GroupBox)
    ensures
        final(out)@ == old(out)@ + group_svg(*group),
{
    append_str(out, "  <g class=\"subgraph\" data-id=\"");
    append_escaped(out, group.id.as_str());
    append_str(out, "\">\n    <rect x=\"");
    append_str(out, group.x.as_str());
    append_str(out, "\" y=\"");
    append_str(out, group.y.as_str());
    append_str(out, "\" width=\"");
    append_str(out, group.width.as_str());
    append_str(out, "\" height=\"");
    append_str(out, group.height.as_str());
    append_str(out, "\" rx=\"16\" ry=\"16\" fill=\"#edf2f7\" fill-opacity=\"0.7\" stroke=\"#a0aec0\" stroke-width=\"1.5\" />\n    <text x=\"");
    append_str(out, group.label_x.as_str());
    append_str(out, "\" y=\"");
    append_str(out, group.label_y.as_str());
    append_str(out, "\" fill=\"#2d3748\" font-size=\"14\" font-weight=\"600\" text-anchor=\"start\" dominant-baseline=\"hanging\">");
    append_escaped(out, group.label.as_str());
    append_str(out, "</text>\n  </g>\n");
    proof {
        assert(out@ =~= old(out)@ + group_svg(*group));
    }
}

/// The attributes of a line: colour, width, arrowheads and dashes.
pub open spec fn stroke_svg(stroke: Stroke) -> Seq<char> {
    " stroke=\""@ + escaped(stroke.color@, stroke.color@.len() as int) + "\" stroke-width=\"2\""@
        + (if stroke.marker_start {
        " marker-start=\"url(#arrow-start)\""@
    } else {
        ""@
    }) + (if stroke.marker_end {
        " marker-end=\"url(#arrow-end)\""@
    } else {
        ""@
    }) + (if stroke.dashed {
        " stroke-dasharray=\"8 6\""@
    } else {
        ""@
    })
}

/// Appends the attributes of `stroke` to `out`.
pub fn write_stroke(out: &mut Vec<char>, stroke: &Stroke)
    ensures
        final(out)@ == old(out)@ + stroke_svg(*stroke),
{
    append_str(out, " stroke=\"");
    append_escaped(out, stroke.color.as_str());
    append_str(out, "\" stroke-width=\"2\"");
    if stroke.marker_start {
        append_str(out, " marker-start=\"url(#arrow-start)\"");
    } else {
        append_str(out, "");
    }
    if stroke.marker_end {
        append_str(out, " marker-end=\"url(#arrow-end)\"");
    } else {
        append_str(out, "");
    }
    if stroke.dashed {
        append_str(out, " stroke-dasharray=\"8 6\"");
    } else {
        append_str(out, "");
    }
    proof {
        assert(out@ =~= old(out)@ + stroke_svg(*stroke));
    }
}

/// The first `upto` points of a route, as `x,y` pairs separated by blanks.
pub open spec fn points_svg(points: Seq<Place>, upto: int) -> Seq<char>
    decreases upto,
{
    if upto <= 0 {
        Seq::empty()
    } else if upto == 1 {
        points[0].x@ + ","@ + points[0].y@
    } else {
        points_svg(points, upto - 1) + " "@ + points[upto - 1].x@ + ","@ + points[upto - 1].y@
    }
}

/// Appends the points of a route to `out`.
pub fn write_points(out: &mut Vec<char>, points: &Vec<Place>)
    ensures
        final(out)@ == old(out)@ + points_svg(points@, points@.len() as int),
{
    let mut i: usize = 0;
    assert(out@ =~= old(out)@ + points_svg(points@, 0));
    while i < points.len()
        invariant
            i <= points.len(),
            out@ == old(out)@ + points_svg(points@, i as int),
        decreases points.len() - i,
    {
        if i > 0 {
            append_str(out, " ");
        }
        append_str(out, points[i].x.as_str());
        append_str(out, ",");
        append_str(out, points[i].y.as_str());
        proof {
            assert(out@ =~= old(out)@ + points_svg(points@, i + 1));
        }
        i += 1;
    }
}

/// The element of an edge: a line for a route of two points, a polyline
/// for any other route.
pub open spec fn edge_svg(edge: EdgePath) -> Seq<char> {
    if edge.points@.len() == 2 {
        "  <line x1=\""@ + edge.points@[0].x@ + "\" y1=\""@ + edge.points@[0].y@ + "\" x2=\""@
            + edge.points@[1].x@ + "\" y2=\""@ + edge.points@[1].y@ + "\""@ + stroke_svg(edge.stroke)
            + " />\n"@
    } else {
        "  <polyline points=\""@ + points_svg(edge.points@, edge.points@.len() as int)
            + "\" fill=\"none\""@ + stroke_svg(edge.stroke) + " />\n"@
    }
}

/// Appends the element of `edge` to `out`.
pub fn write_edge(out: &mut Vec<char>, edge: &EdgePath)
    ensures
        final(out)@ == old(out)@ + edge_svg(*edge),
{
    if edge.points.len() == 2 {
        append_str(out, "  <line x1=\"");
        append_str(out, edge.points[0].x.as_str());
        append_str(out, "\" y1=\"");
        append_str(out, edge.points[0].y.as_str());
        append_str(out, "\" x2=\"");
        append_str(out, edge.points[1].x.as_str());
        append_str(out, "\" y2=\"");
        append_str(out, edge.points[1].y.as_str());
        append_str(out, "\"");
        write_stroke(out, &edge.stroke);
        append_str(out, " />\n");
    } else {
        append_str(out, "  <polyline points=\"");
        write_points(out, &edge.points);
        append_str(out, "\" fill=\"none\"");
        write_stroke(out, &edge.stroke);
        append_str(out, " />\n");
    }
    proof {
        assert(out@ =~= old(out)@ + edge_svg(*edge));
    }
}

/// The first `upto` lines of a label, each a span at its own height.
pub open spec fn spans_svg(center_x: Seq<char>, rows: Seq<LabelLine>, upto: int) -> Seq<char>
    decreases upto,
{
    if upto <= 0 {
        Seq::empty()
    } else {
        spans_svg(center_x, rows, upto - 1) + "      <tspan x=\""@ + center_x + "\" y=\""@ + rows[upto
            - 1].y@ + "\" dominant-baseline=\"middle\">"@ + escaped(
            rows[upto - 1].text@,
            rows[upto - 1].text@.len() as int,
        ) + "</tspan>\n"@
    }
}

/// Appends the spans of the lines `rows` to `out`.
pub fn write_spans(out: &mut Vec<char>, center_x: &String, rows: &Vec<LabelLine>)
    ensures
        final(out)@ == old(out)@ + spans_svg(center_x@, rows@, rows@.len() as int),
{
    let mut i: usize = 0;
    assert(out@ =~= old(out)@ + spans_svg(center_x@, rows@, 0));
    while i < rows.len()
        invariant
            i <= rows.len(),
            out@ == old(out)@ + spans_svg(center_x@, rows@, i as int),
        decreases rows.len() - i,
    {
        append_str(out, "      <tspan x=\"");
        append_str(out, center_x.as_str());
        append_str(out, "\" y=\"");
        append_str(out, rows[i].y.as_str());
        append_str(out, "\" dominant-baseline=\"middle\">");
        append_escaped(out, rows[i].text.as_str());
        append_str(out, "</tspan>\n");
        proof {
            assert(out@ =~= old(out)@ + spans_svg(center_x@, rows@, i + 1));
        }
        i += 1;
    }
}

/// The text of a label: one centred line, or a span for each of several
/// lines; nothing for a label without lines.
pub open spec fn label_lines_svg(label: LabelBox) -> Seq<char> {
    if label.lines@.len() == 0 {
        Seq::empty()
    } else if label.lines@.len() == 1 {
        "    <text x=\""@ + label.center_x@ + "\" y=\""@ + label.center_y@
            + "\" fill=\"#2d3748\" font-size=\"13\" text-anchor=\"middle\" dominant-baseline=\"middle\" xml:space=\"preserve\">"@
            + escaped(label.lines@[0].text@, label.lines@[0].text@.len() as int) + "</text>\n"@
    } else {
        "    <text x=\""@ + label.center_x@
            + "\" fill=\"#2d3748\" font-size=\"13\" text-anchor=\"middle\" xml:space=\"preserve\">\n"@
            + spans_svg(label.center_x@, label.lines@, label.lines@.len() as int) + "    </text>\n"@
    }
}

/// Appends the text of `label` to `out`.
pub fn write_label_lines(out: &mut Vec<char>, label: &LabelBox)
    ensures
        final(out)@ == old(out)@ + label_lines_svg(*label),
{
    if label.lines.len() == 0 {
    } else if label.lines.len() == 1 {
        append_str(out, "    <text x=\"");
        append_str(out, label.center_x.as_str());
        append_str(out, "\" y=\"");
        append_str(out, label.center_y.as_str());
        append_str(
            out,
            "\" fill=\"#2d3748\" font-size=\"13\" text-anchor=\"middle\" dominant-baseline=\"middle\" xml:space=\"preserve\">",
        );
        append_escaped(out, label.lines[0].text.as_str());
        append_str(out, "</text>\n");
    } else {
        append_str(out, "    <text x=\"");
        append_str(out, label.center_x.as_str());
        append_str(
            out,
            "\" fill=\"#2d3748\" font-size=\"13\" text-anchor=\"middle\" xml:space=\"preserve\">\n",
        );
        write_spans(out, &label.center_x, &label.lines);
        append_str(out, "    </text>\n");
    }
    proof {
        assert(out@ =~= old(out)@ + label_lines_svg(*label));
    }
}

/// The element of an edge label: a white box and the text in it.
pub open spec fn label_svg(label: LabelBox) -> Seq<char> {
    "  <g pointer-events=\"none\">\n    <rect x=\""@
        + label.x@
        + "\" y=\""@
        + label.y@
        + "\" width=\""@
        + label.width@
        + "\" height=\""@
        + label.height@
        + "\" rx=\"6\" ry=\"6\" fill=\"white\" fill-opacity=\"0.96\" stroke=\""@
        + escaped(label.color@, label.color@.len() as int)
        + "\" stroke-width=\"1\" />\n"@
        + label_lines_svg(label)
        + "  </g>\n"@
}

/// Appends the element of `label` to `out`.
pub fn write_label(out: &mut Vec<char>, label: &LabelBox)
    ensures
        final(out)@ == old(out)@ + label_svg(*label),
{
    append_str(out, "  <g pointer-events=\"none\">\n    <rect x=\"");
    append_str(out, label.x.as_str());
    append_str(out, "\" y=\"");
    append_str(out, label.y.as_str());
    append_str(out, "\" width=\"");
    append_str(out, label.width.as_str());
    append_str(out, "\" height=\"");
    append_str(out, label.height.as_str());
    append_str(out, "\" rx=\"6\" ry=\"6\" fill=\"white\" fill-opacity=\"0.96\" stroke=\"");
    append_escaped(out, label.color.as_str());
    append_str(out, "\" stroke-width=\"1\" />\n");
    write_label_lines(out, label);
    append_str(out, "  </g>\n");
    proof {
        assert(out@ =~= old(out)@ + label_svg(*label));
    }
}

/// The outline of a rectangle: a box with slightly rounded corners.
pub open spec fn rectangle_svg(node: NodeFigure) -> Seq<char> {
    "  <rect x=\""@
        + node.left@
        + "\" y=\""@
        + node.top@
        + "\" width=\""@
        + node.width@
        + "\" height=\""@
        + node.height@
        + "\" rx=\"8\" ry=\"8\" fill=\""@
        + escaped(node.fill@, node.fill@.len() as int)
        + "\" stroke=\""@
        + escaped(node.stroke@, node.stroke@.len() as int)
        + "\" stroke-width=\"2\" />\n"@
}

/// Appends the element of `node` to `out`.
pub fn write_rectangle(out: &mut Vec<char>, node: &NodeFigure)
    ensures
        final(out)@ == old(out)@ + rectangle_svg(*node),
{
    append_str(out, "  <rect x=\"");
    append_str(out, node.left.as_str());
    append_str(out, "\" y=\"");
    append_str(out, node.top.as_str());
    append_str(out, "\" width=\"");
    append_str(out, node.width.as_str());
    append_str(out, "\" height=\"");
    append_str(out, node.height.as_str());
    append_str(out, "\" rx=\"8\" ry=\"8\" fill=\"");
    append_escaped(out, node.fill.as_str());
    append_str(out, "\" stroke=\"");
    append_escaped(out, node.stroke.as_str());
    append_str(out, "\" stroke-width=\"2\" />\n");
    proof {
        assert(out@ =~= old(out)@ + rectangle_svg(*node));
    }
}

/// The outline of a stadium: a box with fully rounded ends.
pub open spec fn stadium_svg(node: NodeFigure) -> Seq<char> {
    "  <rect x=\""@
        + node.left@
        + "\" y=\""@
        + node.top@
        + "\" width=\""@
        + node.width@
        + "\" height=\""@
        + node.height@
        + "\" rx=\"30\" ry=\"30\" fill=\""@
        + escaped(node.fill@, node.fill@.len() as int)
        + "\" stroke=\""@
        + escaped(node.stroke@, node.stroke@.len() as int)
        + "\" stroke-width=\"2\" />\n"@
}

/// Appends the element of `node` to `out`.
pub fn write_stadium(out: &mut Vec<char>, node: &NodeFigure)
    ensures
        final(out)@ == old(out)@ + stadium_svg(*node),
{
    append_str(out, "  <rect x=\"");
    append_str(out, node.left.as_str());
    append_str(out, "\" y=\"");
    append_str(out, node.top.as_str());
    append_str(out, "\" width=\"");
    append_str(out, node.width.as_str());
    append_str(out, "\" height=\"");
    append_str(out, node.height.as_str());
    append_str(out, "\" rx=\"30\" ry=\"30\" fill=\"");
    append_escaped(out, node.fill.as_str());
    append_str(out, "\" stroke=\"");
    append_escaped(out, node.stroke.as_str());
    append_str(out, "\" stroke-width=\"2\" />\n");
    proof {
        assert(out@ =~= old(out)@ + stadium_svg(*node));
    }
}

/// The outline of a circle: an ellipse that fills the extent of the node.
pub open spec fn ellipse_svg(node: NodeFigure) -> Seq<char> {
    "  <ellipse cx=\""@
        + node.center_x@
        + "\" cy=\""@
        + node.center_y@
        + "\" rx=\""@
        + node.half_width@
        + "\" ry=\""@
        + node.half_height@
        + "\" fill=\""@
        + escaped(node.fill@, node.fill@.len() as int)
        + "\" stroke=\""@
        + escaped(node.stroke@, node.stroke@.len() as int)
        + "\" stroke-width=\"2\" />\n"@
}

/// Appends the element of `node` to `out`.
pub fn write_ellipse(out: &mut Vec<char>, node: &NodeFigure)
    ensures
        final(out)@ == old(out)@ + ellipse_svg(*node),
{
    append_str(out, "  <ellipse cx=\"");
    append_str(out, node.center_x.as_str());
    append_str(out, "\" cy=\"");
    append_str(out, node.center_y.as_str());
    append_str(out, "\" rx=\"");
    append_str(out, node.half_width.as_str());
    append_str(out, "\" ry=\"");
    append_str(out, node.half_height.as_str());
    append_str(out, "\" fill=\"");
    append_escaped(out, node.fill.as_str());
    append_str(out, "\" stroke=\"");
    append_escaped(out, node.stroke.as_str());
    append_str(out, "\" stroke-width=\"2\" />\n");
    proof {
        assert(out@ =~= old(out)@ + ellipse_svg(*node));
    }
}

/// The outline of a diamond: a polygon through the middles of the four sides.
pub open spec fn polygon_svg(node: NodeFigure) -> Seq<char> {
    "  <polygon points=\""@
        + node.center_x@
        + ","@
        + node.top@
        + " "@
        + node.right@
        + ","@
        + node.center_y@
        + " "@
        + node.center_x@
        + ","@
        + node.bottom@
        + " "@
        + node.left@
        + ","@
        + node.center_y@
        + "\" fill=\""@
        + escaped(node.fill@, node.fill@.len() as int)
        + "\" stroke=\""@
        + escaped(node.stroke@, node.stroke@.len() as int)
        + "\" stroke-width=\"2\" />\n"@
}

/// Appends the element of `node` to `out`.
pub fn write_polygon(out: &mut Vec<char>, node: &NodeFigure)
    ensures
        final(out)@ == old(out)@ + polygon_svg(*node),
{
    append_str(out, "  <polygon points=\"");
    append_str(out, node.center_x.as_str());
    append_str(out, ",");
    append_str(out, node.top.as_str());
    append_str(out, " ");
    append_str(out, node.right.as_str());
    append_str(out, ",");
    append_str(out, node.center_y.as_str());
    append_str(out, " ");
    append_str(out, node.center_x.as_str());
    append_str(out, ",");
    append_str(out, node.bottom.as_str());
    append_str(out, " ");
    append_str(out, node.left.as_str());
    append_str(out, ",");
    append_str(out, node.center_y.as_str());
    append_str(out, "\" fill=\"");
    append_escaped(out, node.fill.as_str());
    append_str(out, "\" stroke=\"");
    append_escaped(out, node.stroke.as_str());
    append_str(out, "\" stroke-width=\"2\" />\n");
    proof {
        assert(out@ =~= old(out)@ + polygon_svg(*node));
    }
}

/// The outline of a node, as its shape says.
pub open spec fn outline_svg(node: NodeFigure) -> Seq<char> {
    match node.shape {
        NodeShape::Rectangle => rectangle_svg(node),
        NodeShape::Stadium => stadium_svg(node),
        NodeShape::Circle => ellipse_svg(node),
        NodeShape::Diamond => polygon_svg(node),
    }
}

/// Appends the outline of `node` to `out`.
pub fn write_outline(out: &mut Vec<char>, node: &NodeFigure)
    ensures
        final(out)@ == old(out)@ + outline_svg(*node),
{
    match node.shape {
        NodeShape::Rectangle => write_rectangle(out, node),
        NodeShape::Stadium => write_stadium(out, node),
        NodeShape::Circle => write_ellipse(out, node),
        NodeShape::Diamond => write_polygon(out, node),
    }
}

/// The element of a node: its outline and its label.
pub open spec fn node_svg(node: NodeFigure) -> Seq<char> {
    outline_svg(node)
        + "  <text x=\""@
        + node.center_x@
        + "\" y=\""@
        + node.center_y@
        + "\" fill=\""@
        + escaped(node.text_color@, node.text_color@.len() as int)
        + "\" font-size=\"14\" text-anchor=\"middle\" dominant-baseline=\"middle\">"@
        + escaped(node.label@, node.label@.len() as int)
        + "</text>\n"@
}

/// Appends the element of `node` to `out`.
pub fn write_node(out: &mut Vec<char>, node: &NodeFigure)
    ensures
        final(out)@ == old(out)@ + node_svg(*node),
{
    write_outline(out, node);
    append_str(out, "  <text x=\"");
    append_str(out, node.center_x.as_str());
    append_str(out, "\" y=\"");
    append_str(out, node.center_y.as_str());
    append_str(out, "\" fill=\"");
    append_escaped(out, node.text_color.as_str());
    append_str(out, "\" font-size=\"14\" text-anchor=\"middle\" dominant-baseline=\"middle\">");
    append_escaped(out, node.label.as_str());
    append_str(out, "</text>\n");
    proof {
        assert(out@ =~= old(out)@ + node_svg(*node));
    }
}

/// The elements of the first `upto` groups.
pub open spec fn groups_svg(items: Seq<GroupBox>, upto: int) -> Seq<char>
    decreases upto,
{
    if upto <= 0 {
        Seq::empty()
    } else {
        groups_svg(items, upto - 1) + group_svg(items[upto - 1])
    }
}

/// Appends the elements of `items` to `out`, in order.
pub fn write_groups(out: &mut Vec<char>, items: &Vec<GroupBox>)
    ensures
        final(out)@ == old(out)@ + groups_svg(items@, items@.len() as int),
{
    let mut i: usize = 0;
    assert(out@ =~= old(out)@ + groups_svg(items@, 0));
    while i < items.len()
        invariant
            i <= items.len(),
            out@ == old(out)@ + groups_svg(items@, i as int),
        decreases items.len() - i,
    {
        write_group(out, &items[i]);
        proof {
            assert(out@ =~= old(out)@ + groups_svg(items@, i + 1));
        }
        i += 1;
    }
}

/// The elements of the first `upto` edges.
pub open spec fn edges_svg(items: Seq<EdgePath>, upto: int) -> Seq<char>
    decreases upto,
{
    if upto <= 0 {
        Seq::empty()
    } else {
        edges_svg(items, upto - 1) + edge_svg(items[upto - 1])
    }
}

/// Appends the elements of `items` to `out`, in order.
pub fn write_edges(out: &mut Vec<char>, items: &Vec<EdgePath>)
    ensures
        final(out)@ == old(out)@ + edges_svg(items@, items@.len() as int),
{
    let mut i: usize = 0;
    assert(out@ =~= old(out)@ + edges_svg(items@, 0));
    while i < items.len()
        invariant
            i <= items.len(),
            out@ == old(out)@ + edges_svg(items@, i as int),
        decreases items.len() - i,
    {
        write_edge(out, &items[i]);
        proof {
            assert(out@ =~= old(out)@ + edges_svg(items@, i + 1));
        }
        i += 1;
    }
}

/// The elements of the first `upto` edge labels.
pub open spec fn labels_svg(items: Seq<LabelBox>, upto: int) -> Seq<char>
    decreases upto,
{
    if upto <= 0 {
        Seq::empty()
    } else {
        labels_svg(items, upto - 1) + label_svg(items[upto - 1])
    }
}

/// Appends the elements of `items` to `out`, in order.
pub fn write_labels(out: &mut Vec<char>, items: &Vec<LabelBox>)
    ensures
        final(out)@ == old(out)@ + labels_svg(items@, items@.len() as int),
{
    let mut i: usize = 0;
    assert(out@ =~= old(out)@ + labels_svg(items@, 0));
    while i < items.len()
        invariant
            i <= items.len(),
            out@ == old(out)@ + labels_svg(items@, i as int),
        decreases items.len() - i,
    {
        write_label(out, &items[i]);
        proof {
            assert(out@ =~= old(out)@ + labels_svg(items@, i + 1));
        }
        i += 1;
    }
}

/// The elements of the first `upto` nodes.
pub open spec fn nodes_svg(items: Seq<NodeFigure>, upto: int) -> Seq<char>
    decreases upto,
{
    if upto <= 0 {
        Seq::empty()
    } else {
        nodes_svg(items, upto - 1) + node_svg(items[upto - 1])
    }
}

/// Appends the elements of `items` to `out`, in order.
pub fn write_nodes(out: &mut Vec<char>, items: &Vec<NodeFigure>)
    ensures
        final(out)@ == old(out)@ + nodes_svg(items@, items@.len() as int),
{
    let mut i: usize = 0;
    assert(out@ =~= old(out)@ + nodes_svg(items@, 0));
    while i < items.len()
        invariant
            i <= items.len(),
            out@ == old(out)@ + nodes_svg(items@, i as int),
        decreases items.len() - i,
    {
        write_node(out, &items[i]);
        proof {
            assert(out@ =~= old(out)@ + nodes_svg(items@, i + 1));
        }
        i += 1;
    }
}

/// The document of `scene`: background, groups, edges, edge labels and
/// nodes, in this order, so that what comes later lies above what comes
/// earlier.
pub open spec fn scene_svg(scene: Scene) -> Seq<char> {
    frame_svg(scene.frame) + groups_svg(scene.groups@, scene.groups@.len() as int) + edges_svg(
        scene.edges@,
        scene.edges@.len() as int,
    ) + labels_svg(scene.labels@, scene.labels@.len() as int) + nodes_svg(
        scene.nodes@,
        scene.nodes@.len() as int,
    ) + "</svg>\n"@
}

/// Writes the document of `scene`.
pub fn render_scene(scene: &Scene) -> (r: String)
    ensures
        r@ == scene_svg(*scene),
{
    let mut text: Vec<char> = Vec::new();
    let out = &mut text;
    write_frame(out, &scene.frame);
    write_groups(out, &scene.groups);
    write_edges(out, &scene.edges);
    write_labels(out, &scene.labels);
    write_nodes(out, &scene.nodes);
    append_str(out, "</svg>\n");
    proof {
        assert(text@ =~= scene_svg(*scene));
    }
    string_of(&text)
}

} // verus!
