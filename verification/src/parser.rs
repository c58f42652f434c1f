//! The reader of diagram definitions.

use vstd::prelude::*;
use crate::grammar::{
    blank, direction_of, edge_split, edge_step, edge_target, first_significant, header_direction,
    inner, intern, open_path, open_subgraph, operand, parse_text, run, significant, step,
    subgraph_header, subgraph_id, suffix_meaning, with_child, with_member, wrapped, Draft,
    OperandView, ParseError,
};
use crate::wellformed::{draft_valid, lemma_run_failure, lemma_step_valid, open_in_range};
use crate::model::{
    Diagram, DiagramView, Direction, Edge, EdgeKind, Node, NodeShape, NodeView, Subgraph,
    subgraph_ids,
};
use crate::text::{
    chars_of, copy_of, ends_with_in, eq_ignore_case_in, find_class_in, find_sub_in,
    lemma_find_sub_bounds, rows, same_chars, slice_of, split_lines, starts_with_in, lines,
    position_of, string_of, texts, trim, trimmed, underscored_of, CharClass,
};

verus! {

/// A node operand as it was read: id, label and shape.
#[derive(Clone, Debug)]
pub struct NodeSpec {
    pub id: String,
    pub label: String,
    pub shape: NodeShape,
}

impl View for NodeSpec {
    type V = OperandView;

    open spec fn view(&self) -> OperandView {
        OperandView { id: self.id@, label: self.label@, shape: self.shape }
    }
}

/// Reads a direction token.
fn direction_token(token: &Vec<char>) -> (r: Result<Direction, ParseError>)
    ensures
        r == direction_of(token@),
{
    if eq_ignore_case_in(token, &chars_of("TD")) || eq_ignore_case_in(token, &chars_of("TB")) {
        Ok(Direction::TopDown)
    } else if eq_ignore_case_in(token, &chars_of("BT")) {
        Ok(Direction::BottomTop)
    } else if eq_ignore_case_in(token, &chars_of("LR")) {
        Ok(Direction::LeftRight)
    } else if eq_ignore_case_in(token, &chars_of("RL")) {
        Ok(Direction::RightLeft)
    } else {
        Err(ParseError::UnknownDirection)
    }
}

/// Reads a header line.
pub fn header_of(line: &Vec<char>) -> (r: Result<Direction, ParseError>)
    ensures
        r == header_direction(line@),
{
    let a = find_class_in(line, CharClass::Solid, 0);
    let b = find_class_in(line, CharClass::Space, a);
    let c = find_class_in(line, CharClass::Solid, b);
    let d = find_class_in(line, CharClass::Space, c);
    let e = find_class_in(line, CharClass::Solid, d);
    if a >= line.len() {
        return Err(ParseError::EmptyHeader);
    }
    let keyword = slice_of(line, a, b);
    if !eq_ignore_case_in(&keyword, &chars_of("graph")) {
        return Err(ParseError::InvalidHeader);
    }
    if c >= line.len() || e < line.len() {
        return Err(ParseError::InvalidHeader);
    }
    let token = slice_of(line, c, d);
    direction_token(&token)
}

/// Reads the header line `line` of a definition.
pub fn parse_graph_header(line: &str) -> (r: Result<Direction, ParseError>)
    ensures
        r == header_direction(line@),
{
    header_of(&chars_of(line))
}

/// Whether `s` is wrapped in `left` and `right`.
fn is_wrapped(s: &Vec<char>, left: &Vec<char>, right: &Vec<char>) -> (r: bool)
    ensures
        r == wrapped(s@, left@, right@),
{
    starts_with_in(s, left) && ends_with_in(s, right) && left.len() <= s.len() && right.len()
        <= s.len() - left.len()
}

/// What stands between the first `k` and the last `k` characters of `s`, trimmed.
fn inner_of(s: &Vec<char>, k: usize) -> (r: Vec<char>)
    requires
        2 * k <= s.len(),
    ensures
        r@ == inner(s@, k as int),
{
    trimmed(&slice_of(s, k, s.len() - k))
}

/// The label and shape that a suffix gives.
fn suffix_of(whole: &Vec<char>, id: &Vec<char>, rem: &Vec<char>) -> (r: (Vec<char>, NodeShape))
    ensures
        (r.0@, r.1) == suffix_meaning(whole@, id@, rem@),
{
    let l2 = chars_of("((");
    let r2 = chars_of("))");
    let lp = chars_of("(");
    let rp = chars_of(")");
    let lb = chars_of("[");
    let rb = chars_of("]");
    let lc = chars_of("{");
    let rc = chars_of("}");
    proof {
        reveal_strlit("((");
        reveal_strlit("))");
        reveal_strlit("(");
        reveal_strlit(")");
        reveal_strlit("[");
        reveal_strlit("]");
        reveal_strlit("{");
        reveal_strlit("}");
    }
    if rem.len() == 0 {
        (copy_of(id), NodeShape::Rectangle)
    } else if is_wrapped(rem, &l2, &r2) {
        (inner_of(rem, 2), NodeShape::Circle)
    } else if is_wrapped(rem, &lp, &rp) {
        (inner_of(rem, 1), NodeShape::Stadium)
    } else if is_wrapped(rem, &lb, &rb) {
        (inner_of(rem, 1), NodeShape::Rectangle)
    } else if is_wrapped(rem, &lc, &rc) {
        (inner_of(rem, 1), NodeShape::Diamond)
    } else {
        (copy_of(whole), NodeShape::Rectangle)
    }
}

impl NodeSpec {
    /// Reads the operand `raw`.
    pub fn parse_chars(raw: &Vec<char>) -> (r: Result<NodeSpec, ParseError>)
        ensures
            match operand(raw@) {
                Ok(op) => r is Ok && r->Ok_0@ == op,
                Err(e) => r == Err::<NodeSpec, ParseError>(e),
            },
    {
        let t = trimmed(raw);
        if t.len() == 0 {
            return Err(ParseError::EmptyNodeReference);
        }
        let id_end = find_class_in(&t, CharClass::Opener, 0);
        let id = trimmed(&slice_of(&t, 0, id_end));
        if id.len() == 0 {
            return Err(ParseError::MissingNodeIdentifier);
        }
        let rem = trimmed(&slice_of(&t, id_end, t.len()));
        let (label, shape) = suffix_of(&t, &id, &rem);
        let label = if label.len() == 0 {
            string_of(&id)
        } else {
            string_of(&label)
        };
        Ok(NodeSpec { id: string_of(&id), label, shape })
    }

    /// Reads the operand `raw`: the id is what precedes the first of `[`,
    /// `(`, `{`; the suffix gives label and shape.
    pub fn parse(raw: &str) -> (r: Result<NodeSpec, ParseError>)
        ensures
            match operand(raw@) {
                Ok(op) => r is Ok && r->Ok_0@ == op,
                Err(e) => r == Err::<NodeSpec, ParseError>(e),
            },
    {
        NodeSpec::parse_chars(&chars_of(raw))
    }
}

/// Makes a group identifier of `raw`.
pub fn subgraph_id_of(raw: &Vec<char>) -> (r: Vec<char>)
    ensures
        r@ == subgraph_id(raw@),
{
    let t = trimmed(raw);
    if t.len() == 0 {
        underscored_of(&chars_of("subgraph"))
    } else {
        underscored_of(&t)
    }
}

/// Makes a group identifier of `raw`: trimmed, with `_` for white space.
pub fn normalize_subgraph_id(raw: &str) -> (r: String)
    ensures
        r@ == subgraph_id(raw@),
{
    string_of(&subgraph_id_of(&chars_of(raw)))
}

/// Reads what follows the keyword `subgraph`.
pub fn subgraph_header_of(raw: &Vec<char>) -> (r: Result<(Vec<char>, Vec<char>), ParseError>)
    ensures
        match subgraph_header(raw@) {
            Ok(h) => r is Ok && r->Ok_0.0@ == h.0 && r->Ok_0.1@ == h.1,
            Err(e) => r == Err::<(Vec<char>, Vec<char>), ParseError>(e),
        },
{
    let t = trimmed(raw);
    if t.len() == 0 {
        return Err(ParseError::MissingSubgraphIdentifier);
    }
    let start = find_class_in(&t, CharClass::Bracket, 0);
    let quote = chars_of("\"");
    if start < t.len() - 1 && ends_with_in(&t, &chars_of("]")) {
        let id_part = trimmed(&slice_of(&t, 0, start));
        if id_part.len() == 0 {
            return Err(ParseError::EmptySubgraphIdentifier);
        }
        let label_part = trimmed(&slice_of(&t, start + 1, t.len() - 1));
        let id = subgraph_id_of(&id_part);
        if label_part.len() == 0 {
            Ok((id, id_part))
        } else {
            Ok((id, label_part))
        }
    } else if t.len() >= 2 && starts_with_in(&t, &quote) && ends_with_in(&t, &quote) {
        let label = trimmed(&slice_of(&t, 1, t.len() - 1));
        if label.len() == 0 {
            return Err(ParseError::EmptySubgraphLabel);
        }
        Ok((subgraph_id_of(&label), label))
    } else {
        Ok((subgraph_id_of(&t), t))
    }
}

/// Reads what follows the keyword `subgraph`: the group's identifier and label.
pub fn parse_subgraph_header(raw: &str) -> (r: Result<(String, String), ParseError>)
    ensures
        match subgraph_header(raw@) {
            Ok(h) => r is Ok && r->Ok_0.0@ == h.0 && r->Ok_0.1@ == h.1,
            Err(e) => r == Err::<(String, String), ParseError>(e),
        },
{
    match subgraph_header_of(&chars_of(raw)) {
        Ok((id, label)) => Ok((string_of(&id), string_of(&label))),
        Err(e) => Err(e),
    }
}

/// The reading state that a diagram under construction and its open groups make.
pub open spec fn draft_of(d: Diagram, open: Seq<usize>) -> Draft {
    Draft { d: d@, open }
}

/// Adds the node of `spec` to `d` unless its id is known. Returns the id and
/// whether the node is new.
pub fn insert_node_spec(spec: NodeSpec, d: &mut Diagram) -> (r: (String, bool))
    ensures
        r.0@ == spec@.id,
        r.1 == !old(d)@.order.contains(spec@.id),
        r.1 ==> final(d)@ == (DiagramView {
            order: old(d)@.order.push(spec@.id),
            nodes: old(d)@.nodes.push(NodeView { label: spec@.label, shape: spec@.shape }),
            ..old(d)@
        }),
        !r.1 ==> *final(d) == *old(d),
{
    let NodeSpec { id, label, shape } = spec;
    match position_of(&d.order, &id) {
        Some(_) => (id, false),
        None => {
            d.order.push(id.clone());
            d.nodes.push(Node { label, shape });
            proof {
                assert(final(d)@.order =~= old(d)@.order.push(id@));
                assert(final(d)@.nodes =~= old(d)@.nodes.push(
                    NodeView { label: label@, shape: shape },
                ));
            }
            (id, true)
        },
    }
}

/// The ids of the open groups of `d`, outermost first.
fn open_ids(d: &Diagram, open: &Vec<usize>) -> (path: Vec<String>)
    requires
        open_in_range(draft_of(*d, open@)),
    ensures
        texts(path@) == open_path(draft_of(*d, open@)),
{
    let mut path: Vec<String> = Vec::new();
    let mut i: usize = 0;
    while i < open.len()
        invariant
            i <= open.len(),
            open_in_range(draft_of(*d, open@)),
            texts(path@) == open_path(draft_of(*d, open@)).take(i as int),
        decreases open.len() - i,
    {
        let s = open[i];
        assert(open@[i as int] < d@.subgraphs.len());
        let ghost before = texts(path@);
        let id = d.subgraphs[s].id.clone();
        path.push(id);
        proof {
            assert(id@ == d@.subgraphs[s as int].id);
            assert(texts(path@) =~= before.push(id@));
            assert(texts(path@) =~= open_path(draft_of(*d, open@)).take(i + 1));
        }
        i += 1;
    }
    proof {
        assert(texts(path@) =~= open_path(draft_of(*d, open@)));
    }
    path
}

/// Records where the new node `node_id` lies: inside the open groups, and
/// directly inside the innermost of them.
pub fn record_node_membership(node_id: &String, d: &mut Diagram, open: &Vec<usize>)
    requires
        open_in_range(draft_of(*old(d), open@)),
    ensures
        final(d)@ == (DiagramView {
            node_membership: old(d)@.node_membership.push(open_path(draft_of(*old(d), open@))),
            subgraphs: if open@.len() > 0 {
                with_member(old(d)@.subgraphs, open@.last() as int, node_id@)
            } else {
                old(d)@.subgraphs
            },
            ..old(d)@
        }),
{
    let path = open_ids(d, open);
    d.node_membership.push(path);
    proof {
        assert(d@.node_membership =~= old(d)@.node_membership.push(
            open_path(draft_of(*old(d), open@)),
        ));
    }
    if open.len() > 0 {
        let top = open[open.len() - 1];
        assert(open@[open.len() - 1] < old(d)@.subgraphs.len());
        let ghost before = d.subgraphs@;
        d.subgraphs[top].nodes.push(node_id.clone());
        proof {
            assert(texts(d.subgraphs@[top as int].nodes@) =~= texts(before[top as int].nodes@).push(
                node_id@,
            ));
            assert(d@.subgraphs =~= with_member(old(d)@.subgraphs, top as int, node_id@));
        }
    }
}

/// Reads the operand `raw` and adds its node to `d` unless its id is known.
/// Returns the id and whether the node is new.
pub fn intern_node(raw: &Vec<char>, d: &mut Diagram) -> (r: Result<(String, bool), ParseError>)
    ensures
        match operand(raw@) {
            Err(e) => r == Err::<(String, bool), ParseError>(e) && *final(d) == *old(d),
            Ok(op) => {
                &&& r is Ok
                &&& r->Ok_0.0@ == op.id
                &&& r->Ok_0.1 == !old(d)@.order.contains(op.id)
                &&& r->Ok_0.1 ==> final(d)@ == (DiagramView {
                    order: old(d)@.order.push(op.id),
                    nodes: old(d)@.nodes.push(NodeView { label: op.label, shape: op.shape }),
                    ..old(d)@
                })
                &&& !r->Ok_0.1 ==> *final(d) == *old(d)
            },
        },
{
    match NodeSpec::parse_chars(raw) {
        Err(e) => Err(e),
        Ok(spec) => Ok(insert_node_spec(spec, d)),
    }
}

/// Reads the operand `raw` and declares its node: `intern_node`, then
/// `record_node_membership` for a new node.
fn declare(raw: &Vec<char>, d: &mut Diagram, open: &Vec<usize>) -> (r: Result<String, ParseError>)
    requires
        open_in_range(draft_of(*old(d), open@)),
    ensures
        match operand(raw@) {
            Err(e) => r == Err::<String, ParseError>(e),
            Ok(op) => {
                &&& r is Ok
                &&& r->Ok_0@ == op.id
                &&& draft_of(*final(d), open@) == intern(draft_of(*old(d), open@), op)
                &&& open_in_range(draft_of(*final(d), open@))
            },
        },
{
    match intern_node(raw, d) {
        Err(e) => Err(e),
        Ok((id, is_new)) => {
            if is_new {
                record_node_membership(&id, d, open);
            }
            Ok(id)
        },
    }
}

/// Splits the right side of an edge line into label and target operand.
fn edge_target_of(rhs: &Vec<char>) -> (r: Result<(Option<Vec<char>>, Vec<char>), ParseError>)
    ensures
        match edge_target(rhs@) {
            Err(e) => r == Err::<(Option<Vec<char>>, Vec<char>), ParseError>(e),
            Ok(t) => {
                &&& r is Ok
                &&& r->Ok_0.1@ == t.1
                &&& match t.0 {
                    Some(l) => r->Ok_0.0 is Some && r->Ok_0.0->Some_0@ == l,
                    None => r->Ok_0.0 is None,
                }
            },
        },
{
    if rhs.len() > 0 && rhs[0] == '|' {
        let bar = find_class_in(rhs, CharClass::Bar, 1);
        if bar < rhs.len() {
            let label = trimmed(&slice_of(rhs, 1, bar));
            let target = trimmed(&slice_of(rhs, bar + 1, rhs.len()));
            Ok((Some(label), target))
        } else {
            Err(ParseError::UnterminatedEdgeLabel)
        }
    } else {
        Ok((None, copy_of(rhs)))
    }
}

/// Splits an edge line at its arrow.
fn edge_split_of(line: &Vec<char>) -> (r: Option<(Vec<char>, Vec<char>, EdgeKind)>)
    ensures
        match edge_split(line@) {
            None => r is None,
            Some(p) => r is Some && r->Some_0.0@ == p.0 && r->Some_0.1@ == p.1 && r->Some_0.2
                == p.2,
        },
{
    let dashed_arrow = chars_of("-.->");
    let solid_arrow = chars_of("-->");
    let dashed = find_sub_in(line, &dashed_arrow, 0);
    let solid = find_sub_in(line, &solid_arrow, 0);
    proof {
        lemma_find_sub_bounds(line@, dashed_arrow@, 0);
        lemma_find_sub_bounds(line@, solid_arrow@, 0);
    }
    if dashed < line.len() {
        let lhs = trimmed(&slice_of(line, 0, dashed));
        let rhs = trimmed(&slice_of(line, dashed + dashed_arrow.len(), line.len()));
        Some((lhs, rhs, EdgeKind::Dashed))
    } else if solid < line.len() {
        let lhs = trimmed(&slice_of(line, 0, solid));
        let rhs = trimmed(&slice_of(line, solid + solid_arrow.len(), line.len()));
        Some((lhs, rhs, EdgeKind::Solid))
    } else {
        None
    }
}

/// Reads `line` as an edge line: declares both operands and adds the edge.
/// Returns whether `line` is an edge line.
pub fn parse_edge_line(line: &Vec<char>, d: &mut Diagram, open: &Vec<usize>) -> (r: Result<
    bool,
    ParseError,
>)
    requires
        open_in_range(draft_of(*old(d), open@)),
    ensures
        match edge_split(line@) {
            None => r == Ok::<bool, ParseError>(false) && *final(d) == *old(d),
            Some(p) => match edge_step(draft_of(*old(d), open@), p.0, p.1, p.2) {
                Err(e) => r == Err::<bool, ParseError>(e),
                Ok(st) => r == Ok::<bool, ParseError>(true) && draft_of(*final(d), open@) == st
                    && open_in_range(st),
            },
        },
{
    let (lhs, rhs, kind) = match edge_split_of(line) {
        None => {
            return Ok(false);
        },
        Some(parts) => parts,
    };
    let (label, target) = match edge_target_of(&rhs) {
        Err(e) => {
            return Err(e);
        },
        Ok(t) => t,
    };
    if let Err(e) = NodeSpec::parse_chars(&lhs) {
        return Err(e);
    }
    if let Err(e) = NodeSpec::parse_chars(&target) {
        return Err(e);
    }
    let from = match declare(&lhs, d, open) {
        Err(e) => {
            return Err(e);
        },
        Ok(id) => id,
    };
    let to = match declare(&target, d, open) {
        Err(e) => {
            return Err(e);
        },
        Ok(id) => id,
    };
    let label = match label {
        Some(l) => Some(string_of(&l)),
        None => None,
    };
    let ghost before = d@;
    let edge = Edge { from, to, label, kind };
    d.edges.push(edge);
    proof {
        assert(d@.edges =~= before.edges.push(edge@));
    }
    Ok(true)
}

/// Reads `line` as a node line. A line that denotes no node changes nothing.
pub fn parse_node_line(line: &Vec<char>, d: &mut Diagram, open: &Vec<usize>) -> (r: bool)
    requires
        open_in_range(draft_of(*old(d), open@)),
    ensures
        r == (operand(line@) is Ok),
        match operand(line@) {
            Ok(op) => draft_of(*final(d), open@) == intern(draft_of(*old(d), open@), op),
            Err(_) => *final(d) == *old(d),
        },
        open_in_range(draft_of(*final(d), open@)),
{
    if let Err(_) = NodeSpec::parse_chars(line) {
        return false;
    }
    match declare(line, d, open) {
        Ok(_) => true,
        Err(_) => false,
    }
}

/// Whether a group of `d` has the id `id`.
fn has_subgraph(d: &Diagram, id: &Vec<char>) -> (r: bool)
    ensures
        r == subgraph_ids(d@.subgraphs).contains(id@),
{
    let mut i: usize = 0;
    while i < d.subgraphs.len()
        invariant
            i <= d.subgraphs.len(),
            forall|j: int| 0 <= j < i ==> (#[trigger] subgraph_ids(d@.subgraphs)[j]) != id@,
        decreases d.subgraphs.len() - i,
    {
        let same = same_chars(&chars_of(d.subgraphs[i].id.as_str()), id);
        if same {
            proof {
                assert(subgraph_ids(d@.subgraphs)[i as int] == id@);
            }
            return true;
        }
        i += 1;
    }
    false
}

/// Opens the group `id` inside the innermost open group.
fn begin_subgraph(id: Vec<char>, label: Vec<char>, d: &mut Diagram, open: &mut Vec<usize>)
    requires
        open_in_range(draft_of(*old(d), old(open)@)),
    ensures
        draft_of(*final(d), final(open)@) == open_subgraph(
            draft_of(*old(d), old(open)@),
            id@,
            label@,
        ),
        open_in_range(draft_of(*final(d), final(open)@)),
{
    let index = d.subgraphs.len();
    let ghost before = d.subgraphs@;
    let parent = if open.len() > 0 {
        let top = open[open.len() - 1];
        assert(open@[open.len() - 1] < before.len());
        d.subgraphs[top].children.push(index);
        proof {
            assert(d.subgraphs@[top as int].children@ =~= before[top as int].children@.push(index));
            assert(d@.subgraphs =~= with_child(old(d)@.subgraphs, top as int, index));
        }
        Some(top)
    } else {
        None
    };
    let ghost linked = d@.subgraphs;
    let record = Subgraph {
        id: string_of(&id),
        label: string_of(&label),
        nodes: Vec::new(),
        children: Vec::new(),
        parent,
        order: index,
    };
    d.subgraphs.push(record);
    open.push(index);
    proof {
        assert(record@.nodes =~= Seq::<Seq<char>>::empty());
        assert(record@.children =~= Seq::<usize>::empty());
        assert(d@.subgraphs =~= linked.push(record@));
        let st = draft_of(*old(d), old(open)@);
        assert(d@ == open_subgraph(st, id@, label@).d);
        assert forall|i: int| 0 <= i < open@.len() implies (#[trigger] open@[i])
            < d@.subgraphs.len() by {
            if i < old(open)@.len() {
                assert(open@[i] == old(open)@[i]);
            }
        }
    }
}

/// Reads one line after the header.
pub fn read_line(raw: &Vec<char>, d: &mut Diagram, open: &mut Vec<usize>) -> (r: Result<
    (),
    ParseError,
>)
    requires
        open_in_range(draft_of(*old(d), old(open)@)),
    ensures
        match step(draft_of(*old(d), old(open)@), raw@) {
            Err(e) => r == Err::<(), ParseError>(e),
            Ok(st) => r is Ok && draft_of(*final(d), final(open)@) == st && open_in_range(st),
        },
{
    let line = trimmed(raw);
    if line.len() == 0 || starts_with_in(&line, &chars_of("%%")) {
        return Ok(());
    }
    let keyword = chars_of("subgraph");
    if starts_with_in(&line, &keyword) {
        let rest = slice_of(&line, keyword.len(), line.len());
        return match subgraph_header_of(&rest) {
            Err(e) => Err(e),
            Ok((id, label)) => {
                if has_subgraph(d, &id) {
                    Err(ParseError::DuplicateSubgraph)
                } else {
                    begin_subgraph(id, label, d, open);
                    Ok(())
                }
            },
        };
    }
    if eq_ignore_case_in(&line, &chars_of("end")) {
        if open.len() == 0 {
            return Err(ParseError::UnmatchedEnd);
        }
        let ghost before = open@;
        open.pop();
        proof {
            assert(open@ =~= before.drop_last());
            assert forall|i: int| 0 <= i < open@.len() implies (#[trigger] open@[i])
                < d@.subgraphs.len() by {
                assert(open@[i] == before[i]);
            }
        }
        return Ok(());
    }
    match parse_edge_line(&line, d, open) {
        Err(e) => Err(e),
        Ok(true) => Ok(()),
        Ok(false) => {
            parse_node_line(&line, d, open);
            Ok(())
        },
    }
}

impl Diagram {
    /// Reads a definition: the diagram that `definition` denotes, or the
    /// reason why it denotes none. A diagram that is returned is fully
    /// valid and has at least one node.
    pub fn parse(definition: &str) -> (r: Result<Diagram, ParseError>)
        ensures
            match parse_text(definition@) {
                Ok(m) => r is Ok && r->Ok_0@ == m && r->Ok_0.valid() && m.order.len() > 0,
                Err(e) => r == Err::<Diagram, ParseError>(e),
            },
    {
        let chars = chars_of(definition);
        let raws = split_lines(&chars);
        let ghost rs = rows(raws@);
        let mut h: usize = 0;
        while h < raws.len() && !is_significant(&trimmed(&raws[h]))
            invariant
                h <= raws.len(),
                rs == rows(raws@),
                first_significant(rs, 0) == first_significant(rs, h as int),
            decreases raws.len() - h,
        {
            h += 1;
        }
        if h >= raws.len() {
            return Err(ParseError::MissingHeader);
        }
        let direction = match header_of(&trimmed(&raws[h])) {
            Err(e) => {
                return Err(e);
            },
            Ok(direction) => direction,
        };
        let mut d = Diagram {
            direction,
            nodes: Vec::new(),
            order: Vec::new(),
            edges: Vec::new(),
            subgraphs: Vec::new(),
            node_membership: Vec::new(),
        };
        let mut open: Vec<usize> = Vec::new();
        let ghost rest = rs.subrange(h + 1, rs.len() as int);
        let mut i: usize = h + 1;
        proof {
            assert(d@.nodes =~= blank(direction).d.nodes);
            assert(d@.order =~= blank(direction).d.order);
            assert(d@.edges =~= blank(direction).d.edges);
            assert(d@.subgraphs =~= blank(direction).d.subgraphs);
            assert(d@.node_membership =~= blank(direction).d.node_membership);
            assert(open@ =~= blank(direction).open);
            assert(rest.take(0) =~= Seq::<Seq<char>>::empty());
            assert(subgraph_ids(d@.subgraphs) =~= Seq::<Seq<char>>::empty());
        }
        while i < raws.len()
            invariant
                h + 1 <= i <= raws.len(),
                rs == rows(raws@),
                rs == lines(definition@),
                first_significant(rs, 0) == h,
                header_direction(trim(rs[h as int])) == Ok::<Direction, ParseError>(direction),
                rest == rs.subrange(h + 1, rs.len() as int),
                run(blank(direction), rest.take(i - h - 1)) == Ok::<Draft, ParseError>(
                    draft_of(d, open@),
                ),
                draft_valid(draft_of(d, open@)),
            decreases raws.len() - i,
        {
            let ghost before = draft_of(d, open@);
            let ghost k = i - h - 1;
            proof {
                assert(rest.take(k + 1).drop_last() =~= rest.take(k));
                assert(rest.take(k + 1).last() == raws@[i as int]@);
                assert(run(blank(direction), rest.take(k + 1)) == step(before, raws@[i as int]@));
            }
            match read_line(&raws[i], &mut d, &mut open) {
                Err(e) => {
                    proof {
                        lemma_run_failure(blank(direction), rest, k + 1);
                    }
                    return Err(e);
                },
                Ok(()) => {},
            }
            let count = d.subgraphs.len();
            proof {
                lemma_step_valid(before, raws@[i as int]@);
            }
            i += 1;
        }
        proof {
            assert(rest.take(i - h - 1) =~= rest);
        }
        if open.len() > 0 {
            return Err(ParseError::UnclosedSubgraph);
        }
        if d.order.len() == 0 {
            return Err(ParseError::NoNodes);
        }
        Ok(d)
    }
}

/// Whether the trimmed line `line` is neither blank nor a comment.
fn is_significant(line: &Vec<char>) -> (r: bool)
    ensures
        r == significant(line@),
{
    line.len() > 0 && !starts_with_in(line, &chars_of("%%"))
}

} // verus!
