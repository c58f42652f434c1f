//! The grammar of diagram definitions, as functions on texts.
//!
//! A definition is read line by line. The first significant line is the
//! header; each later one opens a group, closes one, declares an edge or
//! declares a node. `parse_text` says which diagram a text denotes, or why
//! it denotes none.

use vstd::prelude::*;
use crate::model::{
    subgraph_ids, DiagramView, Direction, EdgeKind, EdgeView, NodeShape, NodeView, SubgraphView,
};
use crate::text::{
    ends_with, eq_ignore_case, find_class, find_sub, lines, starts_with, trim, underscored,
    CharClass,
};

verus! {

/// Why a definition denotes no diagram.
#[derive(Clone, Copy, Debug, PartialEq, Eq, Structural)]
pub enum ParseError {
    /// The definition has no significant line.
    MissingHeader,
    /// The header line holds nothing but white space.
    EmptyHeader,
    /// The header is not the keyword `graph` followed by one word.
    InvalidHeader,
    /// The direction token is none of TD, TB, BT, LR, RL.
    UnknownDirection,
    /// `subgraph` is followed by nothing.
    MissingSubgraphIdentifier,
    /// The identifier before a group's `[label]` is empty.
    EmptySubgraphIdentifier,
    /// A quoted group label is empty.
    EmptySubgraphLabel,
    /// Two groups have the same identifier.
    DuplicateSubgraph,
    /// `end` without an open group.
    UnmatchedEnd,
    /// An edge label lacks its closing `|`.
    UnterminatedEdgeLabel,
    /// An edge operand is empty.
    EmptyNodeReference,
    /// An edge operand begins with a shape suffix.
    MissingNodeIdentifier,
    /// A group is still open at the end of the definition.
    UnclosedSubgraph,
    /// The definition declares no node.
    NoNodes,
}

/// A node operand: what stands on one side of an edge, or alone on a line.
pub struct OperandView {
    pub id: Seq<char>,
    pub label: Seq<char>,
    pub shape: NodeShape,
}

/// The state of reading: the diagram so far and the groups that are open,
/// outermost first, by index.
pub struct Draft {
    pub d: DiagramView,
    pub open: Seq<usize>,
}

/// A line that is neither blank nor a comment. `line` is trimmed.
pub open spec fn significant(line: Seq<char>) -> bool {
    line.len() > 0 && !starts_with(line, "%%"@)
}

/// The direction that a direction token names.
pub open spec fn direction_of(token: Seq<char>) -> Result<Direction, ParseError> {
    if eq_ignore_case(token, "TD"@) || eq_ignore_case(token, "TB"@) {
        Ok(Direction::TopDown)
    } else if eq_ignore_case(token, "BT"@) {
        Ok(Direction::BottomTop)
    } else if eq_ignore_case(token, "LR"@) {
        Ok(Direction::LeftRight)
    } else if eq_ignore_case(token, "RL"@) {
        Ok(Direction::RightLeft)
    } else {
        Err(ParseError::UnknownDirection)
    }
}

/// The direction that a header line declares. The line must hold two
/// words: `graph`, in any case, and the name of a direction.
pub open spec fn header_direction(line: Seq<char>) -> Result<Direction, ParseError> {
    let a = find_class(line, CharClass::Solid, 0);
    let b = find_class(line, CharClass::Space, a);
    let c = find_class(line, CharClass::Solid, b);
    let d = find_class(line, CharClass::Space, c);
    let e = find_class(line, CharClass::Solid, d);
    if a >= line.len() {
        Err(ParseError::EmptyHeader)
    } else if !eq_ignore_case(line.subrange(a, b), "graph"@) {
        Err(ParseError::InvalidHeader)
    } else if c >= line.len() || e < line.len() {
        Err(ParseError::InvalidHeader)
    } else {
        direction_of(line.subrange(c, d))
    }
}

/// Whether `s` begins with `left`, ends with `right` and has room for both.
pub open spec fn wrapped(s: Seq<char>, left: Seq<char>, right: Seq<char>) -> bool {
    starts_with(s, left) && ends_with(s, right) && s.len() >= left.len() + right.len()
}

/// What stands between the first `k` and the last `k` characters of `s`, trimmed.
pub open spec fn inner(s: Seq<char>, k: int) -> Seq<char> {
    trim(s.subrange(k, s.len() - k))
}

/// The label and shape that the suffix `rem` of an operand gives to the node
/// `id`; `whole` is the operand itself.
pub open spec fn suffix_meaning(whole: Seq<char>, id: Seq<char>, rem: Seq<char>) -> (
    Seq<char>,
    NodeShape,
) {
    if rem.len() == 0 {
        (id, NodeShape::Rectangle)
    } else if wrapped(rem, "(("@, "))"@) {
        (inner(rem, "(("@.len() as int), NodeShape::Circle)
    } else if wrapped(rem, "("@, ")"@) {
        (inner(rem, "("@.len() as int), NodeShape::Stadium)
    } else if wrapped(rem, "["@, "]"@) {
        (inner(rem, "["@.len() as int), NodeShape::Rectangle)
    } else if wrapped(rem, "{"@, "}"@) {
        (inner(rem, "{"@.len() as int), NodeShape::Diamond)
    } else {
        (whole, NodeShape::Rectangle)
    }
}

/// The node that an operand denotes. The id is what precedes the first of
/// `[`, `(`, `{`; an empty label stands for the id.
pub open spec fn operand(raw: Seq<char>) -> Result<OperandView, ParseError> {
    let t = trim(raw);
    let id_end = find_class(t, CharClass::Opener, 0);
    let id = trim(t.subrange(0, id_end));
    let rem = trim(t.subrange(id_end, t.len() as int));
    let (label, shape) = suffix_meaning(t, id, rem);
    if t.len() == 0 {
        Err(ParseError::EmptyNodeReference)
    } else if id.len() == 0 {
        Err(ParseError::MissingNodeIdentifier)
    } else {
        Ok(OperandView { id, label: if label.len() == 0 { id } else { label }, shape })
    }
}

/// The identifier made of a group's name: trimmed, white space replaced by `_`.
pub open spec fn subgraph_id(raw: Seq<char>) -> Seq<char> {
    let t = trim(raw);
    underscored(if t.len() == 0 { "subgraph"@ } else { t })
}

/// The identifier and label that follow the keyword `subgraph`: `id[Label]`,
/// a quoted label, or a bare name.
pub open spec fn subgraph_header(raw: Seq<char>) -> Result<(Seq<char>, Seq<char>), ParseError> {
    let t = trim(raw);
    let start = find_class(t, CharClass::Bracket, 0);
    if t.len() == 0 {
        Err(ParseError::MissingSubgraphIdentifier)
    } else if start + 1 < t.len() && ends_with(t, "]"@) {
        let id_part = trim(t.subrange(0, start));
        let label_part = trim(t.subrange(start + 1, t.len() - 1));
        if id_part.len() == 0 {
            Err(ParseError::EmptySubgraphIdentifier)
        } else {
            Ok((subgraph_id(id_part), if label_part.len() == 0 { id_part } else { label_part }))
        }
    } else if t.len() >= 2 && starts_with(t, "\""@) && ends_with(t, "\""@) {
        let label = trim(t.subrange(1, t.len() - 1));
        if label.len() == 0 {
            Err(ParseError::EmptySubgraphLabel)
        } else {
            Ok((subgraph_id(label), label))
        }
    } else {
        Ok((subgraph_id(t), t))
    }
}

/// The ids of the open groups, outermost first.
pub open spec fn open_path(st: Draft) -> Seq<Seq<char>> {
    Seq::new(st.open.len(), |i: int| st.d.subgraphs[st.open[i] as int].id)
}

/// `subgraphs` with the node `id` added to the record `s`.
pub open spec fn with_member(subgraphs: Seq<SubgraphView>, s: int, id: Seq<char>) -> Seq<
    SubgraphView,
> {
    subgraphs.update(s, SubgraphView { nodes: subgraphs[s].nodes.push(id), ..subgraphs[s] })
}

/// `subgraphs` with the group `c` added to the children of the record `s`.
pub open spec fn with_child(subgraphs: Seq<SubgraphView>, s: int, c: usize) -> Seq<SubgraphView> {
    subgraphs.update(s, SubgraphView { children: subgraphs[s].children.push(c), ..subgraphs[s] })
}

/// Declares the node of `op` unless its id is known: the first declaration
/// wins. A new node belongs to the open groups and directly to the innermost.
pub open spec fn intern(st: Draft, op: OperandView) -> Draft {
    if st.d.order.contains(op.id) {
        st
    } else {
        Draft {
            d: DiagramView {
                order: st.d.order.push(op.id),
                nodes: st.d.nodes.push(NodeView { label: op.label, shape: op.shape }),
                node_membership: st.d.node_membership.push(open_path(st)),
                subgraphs: if st.open.len() > 0 {
                    with_member(st.d.subgraphs, st.open.last() as int, op.id)
                } else {
                    st.d.subgraphs
                },
                ..st.d
            },
            open: st.open,
        }
    }
}

/// Opens a new group inside the innermost open one.
pub open spec fn open_subgraph(st: Draft, id: Seq<char>, label: Seq<char>) -> Draft {
    let index = st.d.subgraphs.len() as usize;
    let record = SubgraphView {
        id,
        label,
        nodes: Seq::empty(),
        children: Seq::empty(),
        parent: if st.open.len() > 0 { Some(st.open.last()) } else { None },
        order: index,
    };
    let linked = if st.open.len() > 0 {
        with_child(st.d.subgraphs, st.open.last() as int, index)
    } else {
        st.d.subgraphs
    };
    Draft { d: DiagramView { subgraphs: linked.push(record), ..st.d }, open: st.open.push(index) }
}

/// The two operands and the kind of an edge line: the line is split at the
/// first dashed arrow if it has one, else at the first solid arrow.
pub open spec fn edge_split(line: Seq<char>) -> Option<(Seq<char>, Seq<char>, EdgeKind)> {
    let dashed = find_sub(line, "-.->"@, 0);
    let solid = find_sub(line, "-->"@, 0);
    if dashed < line.len() {
        Some(
            (
                trim(line.subrange(0, dashed)),
                trim(line.subrange(dashed + "-.->"@.len(), line.len() as int)),
                EdgeKind::Dashed,
            ),
        )
    } else if solid < line.len() {
        Some(
            (
                trim(line.subrange(0, solid)),
                trim(line.subrange(solid + "-->"@.len(), line.len() as int)),
                EdgeKind::Solid,
            ),
        )
    } else {
        None
    }
}

/// The label and the target operand of the right side of an edge line.
pub open spec fn edge_target(rhs: Seq<char>) -> Result<(Option<Seq<char>>, Seq<char>), ParseError> {
    let bar = find_class(rhs, CharClass::Bar, 1);
    if rhs.len() > 0 && rhs[0] == '|' {
        if bar < rhs.len() {
            Ok((Some(trim(rhs.subrange(1, bar))), trim(rhs.subrange(bar + 1, rhs.len() as int))))
        } else {
            Err(ParseError::UnterminatedEdgeLabel)
        }
    } else {
        Ok((None, rhs))
    }
}

/// Reads an edge line whose parts are `lhs`, `rhs` and `kind`: both operands
/// are declared, the source first, then the edge is added.
pub open spec fn edge_step(st: Draft, lhs: Seq<char>, rhs: Seq<char>, kind: EdgeKind) -> Result<
    Draft,
    ParseError,
> {
    match edge_target(rhs) {
        Err(e) => Err(e),
        Ok((label, target)) => match operand(lhs) {
            Err(e) => Err(e),
            Ok(from) => match operand(target) {
                Err(e) => Err(e),
                Ok(to) => {
                    let st2 = intern(intern(st, from), to);
                    Ok(
                        Draft {
                            d: DiagramView {
                                edges: st2.d.edges.push(
                                    EdgeView { from: from.id, to: to.id, label, kind },
                                ),
                                ..st2.d
                            },
                            open: st2.open,
                        },
                    )
                },
            },
        },
    }
}

/// Reads one line after the header. Blank lines, comments and node lines
/// that denote no node change nothing.
pub open spec fn step(st: Draft, raw: Seq<char>) -> Result<Draft, ParseError> {
    let line = trim(raw);
    if !significant(line) {
        Ok(st)
    } else if starts_with(line, "subgraph"@) {
        match subgraph_header(line.subrange("subgraph"@.len() as int, line.len() as int)) {
            Err(e) => Err(e),
            Ok((id, label)) => if subgraph_ids(st.d.subgraphs).contains(id) {
                Err(ParseError::DuplicateSubgraph)
            } else {
                Ok(open_subgraph(st, id, label))
            },
        }
    } else if eq_ignore_case(line, "end"@) {
        if st.open.len() == 0 {
            Err(ParseError::UnmatchedEnd)
        } else {
            Ok(Draft { d: st.d, open: st.open.drop_last() })
        }
    } else {
        match edge_split(line) {
            Some((lhs, rhs, kind)) => edge_step(st, lhs, rhs, kind),
            None => match operand(line) {
                Ok(op) => Ok(intern(st, op)),
                Err(_) => Ok(st),
            },
        }
    }
}

/// Reads the lines `raws` in order, from the state `st`.
pub open spec fn run(st: Draft, raws: Seq<Seq<char>>) -> Result<Draft, ParseError>
    decreases raws.len(),
{
    if raws.len() == 0 {
        Ok(st)
    } else {
        match run(st, raws.drop_last()) {
            Err(e) => Err(e),
            Ok(mid) => step(mid, raws.last()),
        }
    }
}

/// The index of the first significant line at or after `from`; the number of
/// lines if there is none.
pub open spec fn first_significant(raws: Seq<Seq<char>>, from: int) -> int
    decreases raws.len() - from,
{
    if 0 <= from < raws.len() && !significant(trim(raws[from])) {
        first_significant(raws, from + 1)
    } else {
        from
    }
}

/// The state before any line: an empty diagram that runs in `direction`.
pub open spec fn blank(direction: Direction) -> Draft {
    Draft {
        d: DiagramView {
            direction,
            nodes: Seq::empty(),
            order: Seq::empty(),
            edges: Seq::empty(),
            subgraphs: Seq::empty(),
            node_membership: Seq::empty(),
        },
        open: Seq::empty(),
    }
}

/// The diagram that the state `st` holds once every line is read.
pub open spec fn finish(st: Draft) -> Result<DiagramView, ParseError> {
    if st.open.len() > 0 {
        Err(ParseError::UnclosedSubgraph)
    } else if st.d.order.len() == 0 {
        Err(ParseError::NoNodes)
    } else {
        Ok(st.d)
    }
}

/// The diagram that the definition `text` denotes.
pub open spec fn parse_text(text: Seq<char>) -> Result<DiagramView, ParseError> {
    let raws = lines(text);
    let h = first_significant(raws, 0);
    if h >= raws.len() {
        Err(ParseError::MissingHeader)
    } else {
        match header_direction(trim(raws[h])) {
            Err(e) => Err(e),
            Ok(direction) => match run(blank(direction), raws.subrange(h + 1, raws.len() as int)) {
                Err(e) => Err(e),
                Ok(st) => finish(st),
            },
        }
    }
}

/// What is said of a failure.
pub open spec fn error_text(error: ParseError) -> Seq<char> {
    match error {
        ParseError::MissingHeader => "diagram definition must start with a 'graph' declaration"@,
        ParseError::EmptyHeader => "empty header line"@,
        ParseError::InvalidHeader => "diagram must start with 'graph' and a direction"@,
        ParseError::UnknownDirection => "unsupported direction in header; supported values are TD, BT, LR, RL"@,
        ParseError::MissingSubgraphIdentifier => "subgraph declaration missing identifier"@,
        ParseError::EmptySubgraphIdentifier => "subgraph identifier cannot be empty"@,
        ParseError::EmptySubgraphLabel => "subgraph label cannot be empty"@,
        ParseError::DuplicateSubgraph => "duplicate subgraph identifier"@,
        ParseError::UnmatchedEnd => "encountered 'end' without matching 'subgraph'"@,
        ParseError::UnterminatedEdgeLabel => "edge label missing closing '|'"@,
        ParseError::EmptyNodeReference => "encountered empty node reference"@,
        ParseError::MissingNodeIdentifier => "node identifier missing"@,
        ParseError::UnclosedSubgraph => "subgraph missing closing 'end'"@,
        ParseError::NoNodes => "diagram does not declare any nodes"@,
    }
}

impl ParseError {
    /// What is said of the failure.
    pub fn message(&self) -> (r: &'static str)
        ensures
            r@ == error_text(*self),
    {
        match self {
            ParseError::MissingHeader => "diagram definition must start with a 'graph' declaration",
            ParseError::EmptyHeader => "empty header line",
            ParseError::InvalidHeader => "diagram must start with 'graph' and a direction",
            ParseError::UnknownDirection => "unsupported direction in header; supported values are TD, BT, LR, RL",
            ParseError::MissingSubgraphIdentifier => "subgraph declaration missing identifier",
            ParseError::EmptySubgraphIdentifier => "subgraph identifier cannot be empty",
            ParseError::EmptySubgraphLabel => "subgraph label cannot be empty",
            ParseError::DuplicateSubgraph => "duplicate subgraph identifier",
            ParseError::UnmatchedEnd => "encountered 'end' without matching 'subgraph'",
            ParseError::UnterminatedEdgeLabel => "edge label missing closing '|'",
            ParseError::EmptyNodeReference => "encountered empty node reference",
            ParseError::MissingNodeIdentifier => "node identifier missing",
            ParseError::UnclosedSubgraph => "subgraph missing closing 'end'",
            ParseError::NoNodes => "diagram does not declare any nodes",
        }
    }
}

} // verus!
