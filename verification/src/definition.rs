//! Writing a diagram back as a definition text.

use vstd::prelude::*;
use crate::model::{Diagram, DiagramView, Direction, Edge, EdgeKind, EdgeView, Node, NodeShape};
use crate::text::{chars_of, copy_of, position_of, rows, same_chars, string_of};

verus! {

/// The token that names `direction` in a header.
pub open spec fn direction_token(direction: Direction) -> Seq<char> {
    match direction {
        Direction::TopDown => "TD"@,
        Direction::LeftRight => "LR"@,
        Direction::BottomTop => "BT"@,
        Direction::RightLeft => "RL"@,
    }
}

/// The arrow that stands for `kind` in an edge line.
pub open spec fn arrow_text(kind: EdgeKind) -> Seq<char> {
    match kind {
        EdgeKind::Solid => "-->"@,
        EdgeKind::Dashed => "-.->"@,
    }
}

/// The name of `kind`.
pub open spec fn kind_name(kind: EdgeKind) -> Seq<char> {
    match kind {
        EdgeKind::Solid => "solid"@,
        EdgeKind::Dashed => "dashed"@,
    }
}

/// The name of `shape`.
pub open spec fn shape_name(shape: NodeShape) -> Seq<char> {
    match shape {
        NodeShape::Rectangle => "rectangle"@,
        NodeShape::Stadium => "stadium"@,
        NodeShape::Circle => "circle"@,
        NodeShape::Diamond => "diamond"@,
    }
}

/// The colour that fills a node of `shape` unless a style says otherwise.
pub open spec fn shape_fill(shape: NodeShape) -> Seq<char> {
    match shape {
        NodeShape::Rectangle => "#fde68a"@,
        NodeShape::Stadium => "#c4f1f9"@,
        NodeShape::Circle => "#e9d8fd"@,
        NodeShape::Diamond => "#fbcfe8"@,
    }
}

/// The declaration of the node `id` with `label` and `shape`. A rectangle
/// whose label is its id is declared by the id alone.
pub open spec fn node_text(shape: NodeShape, id: Seq<char>, label: Seq<char>) -> Seq<char> {
    match shape {
        NodeShape::Rectangle => if label == id {
            id
        } else {
            id + "["@ + label + "]"@
        },
        NodeShape::Stadium => id + "("@ + label + ")"@,
        NodeShape::Circle => id + "(("@ + label + "))"@,
        NodeShape::Diamond => id + "{"@ + label + "}"@,
    }
}

/// The identifier of an edge: source, arrow and target, separated by blanks.
/// Two edges with the same source, kind and target share it.
pub open spec fn edge_id(e: EdgeView) -> Seq<char> {
    e.from + " "@ + arrow_text(e.kind) + " "@ + e.to
}

/// The line that declares the edge `e`.
pub open spec fn edge_text(e: EdgeView) -> Seq<char> {
    match e.label {
        Some(label) => e.from + " "@ + arrow_text(e.kind) + "|"@ + label + "|"@ + " "@ + e.to,
        None => e.from + " "@ + arrow_text(e.kind) + " "@ + e.to,
    }
}

/// Four blanks for each level of `depth`.
pub open spec fn indent(depth: nat) -> Seq<char>
    decreases depth,
{
    if depth == 0 {
        Seq::empty()
    } else {
        indent((depth - 1) as nat) + "    "@
    }
}

/// The head of a group's block: its id, and its label where that differs.
pub open spec fn group_head(id: Seq<char>, label: Seq<char>) -> Seq<char> {
    if label == id {
        id
    } else {
        id + "["@ + label + "]"@
    }
}

/// The declarations of those among the first `upto` nodes that lie directly
/// in the group `s`, in declaration order, indented by `depth`.
pub open spec fn member_lines(d: DiagramView, s: int, depth: nat, upto: int) -> Seq<Seq<char>>
    decreases upto,
{
    if upto <= 0 {
        Seq::empty()
    } else {
        let i = upto - 1;
        let before = member_lines(d, s, depth, i);
        if d.subgraphs[s].nodes.contains(d.order[i]) {
            before.push(indent(depth) + node_text(d.nodes[i].shape, d.order[i], d.nodes[i].label))
        } else {
            before
        }
    }
}

/// The block of the group `s` at nesting depth `depth`: head, direct nodes,
/// child groups, `end`.
pub open spec fn group_lines(d: DiagramView, s: int, depth: nat) -> Seq<Seq<char>>
    decreases d.subgraphs.len() - s, 1int, 0int,
{
    if 0 <= s < d.subgraphs.len() {
        let g = d.subgraphs[s];
        seq![indent(depth) + "subgraph "@ + group_head(g.id, g.label)] + member_lines(
            d,
            s,
            depth + 1,
            d.order.len() as int,
        ) + child_lines(d, s, depth + 1, g.children.len() as int) + seq![indent(depth) + "end"@]
    } else {
        Seq::empty()
    }
}

/// The blocks of the first `upto` children of the group `s`.
pub open spec fn child_lines(d: DiagramView, s: int, depth: nat, upto: int) -> Seq<Seq<char>>
    decreases d.subgraphs.len() - s, 0int, upto,
{
    if 0 <= s < d.subgraphs.len() && 0 < upto <= d.subgraphs[s].children.len() {
        let c = d.subgraphs[s].children[upto - 1] as int;
        child_lines(d, s, depth, upto - 1) + if s < c < d.subgraphs.len() {
            group_lines(d, c, depth)
        } else {
            Seq::empty()
        }
    } else {
        Seq::empty()
    }
}

/// The groups without a parent among the first `upto` records, in arena order.
pub open spec fn roots(d: DiagramView, upto: int) -> Seq<usize>
    decreases upto,
{
    if upto <= 0 {
        Seq::empty()
    } else if d.subgraphs[upto - 1].parent is None {
        roots(d, upto - 1).push((upto - 1) as usize)
    } else {
        roots(d, upto - 1)
    }
}

/// The blocks of the first `upto` of the groups `tops`, with an empty line
/// after each but the last of `tops`.
pub open spec fn root_lines(d: DiagramView, tops: Seq<usize>, upto: int) -> Seq<Seq<char>>
    decreases upto,
{
    if upto <= 0 {
        Seq::empty()
    } else {
        let block = root_lines(d, tops, upto - 1) + group_lines(d, tops[upto - 1] as int, 1);
        if upto != tops.len() {
            block.push(Seq::empty())
        } else {
            block
        }
    }
}

/// Whether the node `id` lies directly in one of the first `upto` groups.
pub open spec fn grouped(d: DiagramView, id: Seq<char>, upto: int) -> bool
    decreases upto,
{
    if upto <= 0 {
        false
    } else {
        grouped(d, id, upto - 1) || d.subgraphs[upto - 1].nodes.contains(id)
    }
}

/// Whether one of the first `upto` nodes lies in no group.
pub open spec fn some_free(d: DiagramView, upto: int) -> bool
    decreases upto,
{
    if upto <= 0 {
        false
    } else {
        some_free(d, upto - 1) || !grouped(d, d.order[upto - 1], d.subgraphs.len() as int)
    }
}

/// The declarations of those among the first `upto` nodes that lie in no group.
pub open spec fn free_lines(d: DiagramView, upto: int) -> Seq<Seq<char>>
    decreases upto,
{
    if upto <= 0 {
        Seq::empty()
    } else {
        let i = upto - 1;
        let before = free_lines(d, i);
        if grouped(d, d.order[i], d.subgraphs.len() as int) {
            before
        } else {
            before.push(node_text(d.nodes[i].shape, d.order[i], d.nodes[i].label))
        }
    }
}

/// The lines of the first `upto` edges.
pub open spec fn edge_lines(d: DiagramView, upto: int) -> Seq<Seq<char>>
    decreases upto,
{
    if upto <= 0 {
        Seq::empty()
    } else {
        edge_lines(d, upto - 1).push(edge_text(d.edges[upto - 1]))
    }
}

/// `ls` without the empty lines at its end.
pub open spec fn without_trailing_blanks(ls: Seq<Seq<char>>) -> Seq<Seq<char>>
    decreases ls.len(),
{
    if ls.len() > 0 && ls.last().len() == 0 {
        without_trailing_blanks(ls.drop_last())
    } else {
        ls
    }
}

/// The first `upto` lines of `ls`, each but the first preceded by a line feed.
pub open spec fn joined(ls: Seq<Seq<char>>, upto: int) -> Seq<char>
    decreases upto,
{
    if upto <= 0 {
        Seq::empty()
    } else if upto == 1 {
        ls[0]
    } else {
        joined(ls, upto - 1) + "\n"@ + ls[upto - 1]
    }
}

/// The lines of the definition of `d`, before trailing blanks are cut:
/// header; the blocks of the top-level groups; the nodes that lie in no
/// group; the edges; with an empty line between the parts that are present.
pub open spec fn definition_lines(d: DiagramView) -> Seq<Seq<char>> {
    let tops = roots(d, d.subgraphs.len() as int);
    let head = seq!["graph "@ + direction_token(d.direction)] + root_lines(
        d,
        tops,
        tops.len() as int,
    );
    let gap = if d.subgraphs.len() > 0 && some_free(d, d.order.len() as int) {
        head.push(Seq::empty())
    } else {
        head
    };
    let body = gap + free_lines(d, d.order.len() as int);
    let sep = if d.edges.len() > 0 {
        body.push(Seq::empty())
    } else {
        body
    };
    sep + edge_lines(d, d.edges.len() as int)
}

/// The definition text of `d`: its lines, each ended by a line feed.
pub open spec fn definition_text(d: DiagramView) -> Seq<char> {
    let ls = without_trailing_blanks(definition_lines(d));
    joined(ls, ls.len() as int) + "\n"@
}

/// Appends the characters of `src` to `dst`.
pub fn append(dst: &mut Vec<char>, src: &Vec<char>)
    ensures
        final(dst)@ == old(dst)@ + src@,
{
    let mut i: usize = 0;
    while i < src.len()
        invariant
            i <= src.len(),
            dst@ == old(dst)@ + src@.take(i as int),
        decreases src.len() - i,
    {
        dst.push(src[i]);
        proof {
            assert(dst@ =~= old(dst)@ + src@.take(i + 1));
        }
        i += 1;
    }
    proof {
        assert(src@.take(src@.len() as int) =~= src@);
    }
}

/// Appends the characters of `src` to `dst`.
pub fn append_str(dst: &mut Vec<char>, src: &str)
    ensures
        final(dst)@ == old(dst)@ + src@,
{
    let chars = chars_of(src);
    append(dst, &chars);
}

impl NodeShape {
    /// The name of the shape.
    pub fn as_str(&self) -> (r: &'static str)
        ensures
            r@ == shape_name(*self),
    {
        match self {
            NodeShape::Rectangle => "rectangle",
            NodeShape::Stadium => "stadium",
            NodeShape::Circle => "circle",
            NodeShape::Diamond => "diamond",
        }
    }

    /// The colour that fills a node of this shape unless a style says otherwise.
    pub fn default_fill_color(&self) -> (r: &'static str)
        ensures
            r@ == shape_fill(*self),
    {
        match self {
            NodeShape::Rectangle => "#fde68a",
            NodeShape::Stadium => "#c4f1f9",
            NodeShape::Circle => "#e9d8fd",
            NodeShape::Diamond => "#fbcfe8",
        }
    }

    /// The declaration of the node `id` with `label` and this shape, as characters.
    pub fn spec_chars(&self, id: &Vec<char>, label: &Vec<char>) -> (r: Vec<char>)
        ensures
            r@ == node_text(*self, id@, label@),
    {
        let mut out: Vec<char> = Vec::new();
        append(&mut out, id);
        assert(out@ =~= id@);
        match self {
            NodeShape::Rectangle => {
                if !same_chars(label, id) {
                    append_str(&mut out, "[");
                    append(&mut out, label);
                    append_str(&mut out, "]");
                }
            },
            NodeShape::Stadium => {
                append_str(&mut out, "(");
                append(&mut out, label);
                append_str(&mut out, ")");
            },
            NodeShape::Circle => {
                append_str(&mut out, "((");
                append(&mut out, label);
                append_str(&mut out, "))");
            },
            NodeShape::Diamond => {
                append_str(&mut out, "{");
                append(&mut out, label);
                append_str(&mut out, "}");
            },
        }
        out
    }

    /// The declaration of the node `id` with `label` and this shape.
    pub fn format_spec(&self, id: &str, label: &str) -> (r: String)
        ensures
            r@ == node_text(*self, id@, label@),
    {
        string_of(&self.spec_chars(&chars_of(id), &chars_of(label)))
    }
}

impl Direction {
    /// The token that names the direction in a header.
    pub fn as_token(&self) -> (r: &'static str)
        ensures
            r@ == direction_token(*self),
    {
        match self {
            Direction::TopDown => "TD",
            Direction::LeftRight => "LR",
            Direction::BottomTop => "BT",
            Direction::RightLeft => "RL",
        }
    }
}

impl EdgeKind {
    /// The arrow that stands for the kind in an edge line.
    pub fn arrow_token(&self) -> (r: &'static str)
        ensures
            r@ == arrow_text(*self),
    {
        match self {
            EdgeKind::Solid => "-->",
            EdgeKind::Dashed => "-.->",
        }
    }

    /// The name of the kind.
    pub fn as_str(&self) -> (r: &'static str)
        ensures
            r@ == kind_name(*self),
    {
        match self {
            EdgeKind::Solid => "solid",
            EdgeKind::Dashed => "dashed",
        }
    }
}

/// The identifier of `edge`: source, arrow and target, separated by blanks.
pub fn edge_identifier(edge: &Edge) -> (r: String)
    ensures
        r@ == edge_id(edge@),
{
    let mut out: Vec<char> = Vec::new();
    append_str(&mut out, edge.from.as_str());
    append_str(&mut out, " ");
    append_str(&mut out, edge.kind.arrow_token());
    append_str(&mut out, " ");
    append_str(&mut out, edge.to.as_str());
    proof {
        assert(out@ =~= edge_id(edge@));
    }
    string_of(&out)
}

/// Four blanks for each level of `depth`.
fn indent_of(depth: usize) -> (r: Vec<char>)
    ensures
        r@ == indent(depth as nat),
{
    let mut out: Vec<char> = Vec::new();
    let mut i: usize = 0;
    while i < depth
        invariant
            i <= depth,
            out@ == indent(i as nat),
        decreases depth - i,
    {
        append_str(&mut out, "    ");
        i += 1;
    }
    out
}

/// The head of a group's block.
fn group_head_of(id: &Vec<char>, label: &Vec<char>) -> (r: Vec<char>)
    ensures
        r@ == group_head(id@, label@),
{
    let mut out: Vec<char> = Vec::new();
    append(&mut out, id);
    assert(out@ =~= id@);
    if !same_chars(label, id) {
        append_str(&mut out, "[");
        append(&mut out, label);
        append_str(&mut out, "]");
    }
    out
}

/// Whether the node `id` lies directly in a group of `d`.
fn is_grouped(d: &Diagram, id: &String) -> (r: bool)
    ensures
        r == grouped(d@, id@, d@.subgraphs.len() as int),
{
    let mut s: usize = 0;
    while s < d.subgraphs.len()
        invariant
            s <= d.subgraphs.len(),
            !grouped(d@, id@, s as int),
        decreases d.subgraphs.len() - s,
    {
        if position_of(&d.subgraphs[s].nodes, id).is_some() {
            assert(grouped(d@, id@, s + 1));
            proof {
                lemma_grouped_grows(d@, id@, s + 1, d@.subgraphs.len() as int);
            }
            return true;
        }
        s += 1;
    }
    false
}

/// What lies in one of the first `a` groups lies in one of the first `b`.
proof fn lemma_grouped_grows(d: DiagramView, id: Seq<char>, a: int, b: int)
    requires
        a <= b,
        grouped(d, id, a),
    ensures
        grouped(d, id, b),
    decreases b - a,
{
    if a < b {
        lemma_grouped_grows(d, id, a, b - 1);
    }
}

impl Diagram {
    /// The line that declares the node `id`.
    pub fn format_node_line(id: &str, node: &Node) -> (r: String)
        ensures
            r@ == node_text(node@.shape, id@, node@.label),
    {
        node.shape.format_spec(id, node.label.as_str())
    }

    /// The line that declares `edge`.
    pub fn format_edge_line(edge: &Edge) -> (r: String)
        ensures
            r@ == edge_text(edge@),
    {
        string_of(&Diagram::edge_line_chars(edge))
    }

    /// The line that declares `edge`, as characters.
    fn edge_line_chars(edge: &Edge) -> (r: Vec<char>)
        ensures
            r@ == edge_text(edge@),
    {
        let mut out: Vec<char> = Vec::new();
        append_str(&mut out, edge.from.as_str());
        append_str(&mut out, " ");
        append_str(&mut out, edge.kind.arrow_token());
        match &edge.label {
            Some(label) => {
                append_str(&mut out, "|");
                append_str(&mut out, label.as_str());
                append_str(&mut out, "|");
                append_str(&mut out, " ");
                append_str(&mut out, edge.to.as_str());
                proof {
                    assert(out@ =~= edge_text(edge@));
                }
            },
            None => {
                append_str(&mut out, " ");
                append_str(&mut out, edge.to.as_str());
                proof {
                    assert(out@ =~= edge_text(edge@));
                }
            },
        }
        out
    }

    /// The declaration of the node `i`, as characters.
    fn node_line_chars(&self, i: usize) -> (r: Vec<char>)
        requires
            i < self.order.len(),
            i < self.nodes.len(),
        ensures
            r@ == node_text(self@.nodes[i as int].shape, self@.order[i as int], self@.nodes[i as int].label),
    {
        self.nodes[i].shape.spec_chars(
            &chars_of(self.order[i].as_str()),
            &chars_of(self.nodes[i].label.as_str()),
        )
    }

    /// Appends the block of the group `s` to `lines`.
    pub fn emit_subgraph_definition(&self, s: usize, depth: usize, lines: &mut Vec<Vec<char>>)
        requires
            self.wf(),
            s < self.subgraphs.len(),
            depth <= s + 1,
        ensures
            rows(final(lines)@) == rows(old(lines)@) + group_lines(self@, s as int, depth as nat),
        decreases self.subgraphs.len() - s,
    {
        let ghost start = rows(lines@);
        let sub = &self.subgraphs[s];
        let mut head = indent_of(depth);
        append_str(&mut head, "subgraph ");
        let name = group_head_of(&chars_of(sub.id.as_str()), &chars_of(sub.label.as_str()));
        append(&mut head, &name);
        lines.push(head);
        proof {
            assert(rows(lines@) =~= start + seq![
                indent(depth as nat) + "subgraph "@ + group_head(self@.subgraphs[s as int].id, self@.subgraphs[s as int].label),
            ]);
        }
        let ghost after_head = rows(lines@);
        let mut inner_indent = indent_of(depth);
        append_str(&mut inner_indent, "    ");
        let mut i: usize = 0;
        while i < self.order.len()
            invariant
                i <= self.order.len(),
                self.wf(),
                s < self.subgraphs.len(),
                sub == &self.subgraphs[s as int],
                inner_indent@ == indent((depth + 1) as nat),
                rows(lines@) == after_head + member_lines(self@, s as int, (depth + 1) as nat, i as int),
            decreases self.order.len() - i,
        {
            if position_of(&sub.nodes, &self.order[i]).is_some() {
                let mut line = copy_of(&inner_indent);
                let text = self.node_line_chars(i);
                append(&mut line, &text);
                let ghost before = rows(lines@);
                lines.push(line);
                proof {
                    assert(rows(lines@) =~= before.push(line@));
                }
            }
            proof {
                assert(rows(lines@) =~= after_head + member_lines(self@, s as int, (depth + 1) as nat, i + 1));
            }
            i += 1;
        }
        let ghost after_members = rows(lines@);
        let mut k: usize = 0;
        while k < sub.children.len()
            invariant
                k <= sub.children.len(),
                self.wf(),
                s < self.subgraphs.len(),
                depth <= s + 1,
                sub == &self.subgraphs[s as int],
                rows(lines@) == after_members + child_lines(self@, s as int, (depth + 1) as nat, k as int),
            decreases sub.children.len() - k,
        {
            let c = sub.children[k];
            proof {
                assert(self@.subgraph_wf(s as int));
                assert(self@.subgraphs[s as int].children[k as int] == c);
            }
            let ghost before = rows(lines@);
            self.emit_subgraph_definition(c, depth + 1, lines);
            proof {
                assert(rows(lines@) =~= after_members + child_lines(self@, s as int, (depth + 1) as nat, k + 1));
            }
            k += 1;
        }
        let mut tail = indent_of(depth);
        append_str(&mut tail, "end");
        let ghost before = rows(lines@);
        lines.push(tail);
        proof {
            assert(rows(lines@) =~= before.push(tail@));
            assert(rows(lines@) =~= start + group_lines(self@, s as int, depth as nat));
        }
    }

    /// The indices of the groups without a parent, in arena order.
    pub fn top_level_subgraphs(&self) -> (r: Vec<usize>)
        ensures
            r@ == roots(self@, self@.subgraphs.len() as int),
            forall|k: int| 0 <= k < r@.len() ==> (#[trigger] r@[k]) < self.subgraphs.len(),
    {
        let mut out: Vec<usize> = Vec::new();
        let mut s: usize = 0;
        while s < self.subgraphs.len()
            invariant
                s <= self.subgraphs.len(),
                out@ == roots(self@, s as int),
                forall|k: int| 0 <= k < out@.len() ==> (#[trigger] out@[k]) < self.subgraphs.len(),
            decreases self.subgraphs.len() - s,
        {
            if self.subgraphs[s].parent.is_none() {
                out.push(s);
            }
            s += 1;
        }
        out
    }

    /// Writes the diagram as a definition: header, top-level groups, nodes
    /// outside groups, edges. Reading the text back is `Diagram::parse`.
    pub fn to_definition(&self) -> (r: String)
        requires
            self.wf(),
        ensures
            r@ == definition_text(self@),
    {
        let mut lines: Vec<Vec<char>> = Vec::new();
        let mut header: Vec<char> = Vec::new();
        append_str(&mut header, "graph ");
        append_str(&mut header, self.direction.as_token());
        lines.push(header);
        proof {
            assert(rows(lines@) =~= seq!["graph "@ + direction_token(self@.direction)]);
        }
        let ghost first = rows(lines@);
        let tops = self.top_level_subgraphs();
        let mut t: usize = 0;
        while t < tops.len()
            invariant
                t <= tops.len(),
                self.wf(),
                forall|k: int| 0 <= k < tops@.len() ==> (#[trigger] tops@[k]) < self.subgraphs.len(),
                rows(lines@) == first + root_lines(self@, tops@, t as int),
            decreases tops.len() - t,
        {
            let ghost before = rows(lines@);
            assert(tops@[t as int] < self.subgraphs.len());
            self.emit_subgraph_definition(tops[t], 1, &mut lines);
            if t + 1 != tops.len() {
                let ghost mid = rows(lines@);
                lines.push(Vec::new());
                proof {
                    assert(rows(lines@) =~= mid.push(Seq::empty()));
                }
            }
            proof {
                assert(rows(lines@) =~= first + root_lines(self@, tops@, t + 1));
            }
            t += 1;
        }
        let ghost head = rows(lines@);
        let mut any_free = false;
        let mut i: usize = 0;
        while i < self.order.len()
            invariant
                i <= self.order.len(),
                any_free == some_free(self@, i as int),
            decreases self.order.len() - i,
        {
            if !is_grouped(self, &self.order[i]) {
                any_free = true;
            }
            i += 1;
        }
        if self.subgraphs.len() > 0 && any_free {
            lines.push(Vec::new());
            proof {
                assert(rows(lines@) =~= head.push(Seq::empty()));
            }
        }
        let ghost gap = rows(lines@);
        let mut i: usize = 0;
        while i < self.order.len()
            invariant
                i <= self.order.len(),
                self.wf(),
                rows(lines@) == gap + free_lines(self@, i as int),
            decreases self.order.len() - i,
        {
            if !is_grouped(self, &self.order[i]) {
                let line = self.node_line_chars(i);
                let ghost before = rows(lines@);
                lines.push(line);
                proof {
                    assert(rows(lines@) =~= before.push(line@));
                }
            }
            proof {
                assert(rows(lines@) =~= gap + free_lines(self@, i + 1));
            }
            i += 1;
        }
        let ghost body = rows(lines@);
        if self.edges.len() > 0 {
            lines.push(Vec::new());
            proof {
                assert(rows(lines@) =~= body.push(Seq::empty()));
            }
        }
        let ghost sep = rows(lines@);
        let mut e: usize = 0;
        while e < self.edges.len()
            invariant
                e <= self.edges.len(),
                rows(lines@) == sep + edge_lines(self@, e as int),
            decreases self.edges.len() - e,
        {
            let line = Diagram::edge_line_chars(&self.edges[e]);
            let ghost before = rows(lines@);
            lines.push(line);
            proof {
                assert(rows(lines@) =~= before.push(line@));
                assert(rows(lines@) =~= sep + edge_lines(self@, e + 1));
            }
            e += 1;
        }
        assert(rows(lines@) == definition_lines(self@));
        let mut count: usize = lines.len();
        proof {
            assert(rows(lines@).take(lines@.len() as int) =~= rows(lines@));
        }
        while count > 0 && lines[count - 1].len() == 0
            invariant
                count <= lines.len(),
                without_trailing_blanks(rows(lines@)) == without_trailing_blanks(
                    rows(lines@).take(count as int),
                ),
            decreases count,
        {
            proof {
                assert(rows(lines@).take(count as int).drop_last() =~= rows(lines@).take(
                    count - 1,
                ));
            }
            count -= 1;
        }
        proof {
            assert(rows(lines@).take(lines@.len() as int) =~= rows(lines@));
        }
        let ghost kept = rows(lines@).take(count as int);
        assert(kept == without_trailing_blanks(definition_lines(self@)));
        let mut out: Vec<char> = Vec::new();
        let mut j: usize = 0;
        while j < count
            invariant
                j <= count <= lines.len(),
                kept == rows(lines@).take(count as int),
                out@ == joined(kept, j as int),
            decreases count - j,
        {
            if j > 0 {
                append_str(&mut out, "\n");
            }
            append(&mut out, &lines[j]);
            proof {
                assert(kept[j as int] == lines@[j as int]@);
                assert(out@ =~= joined(kept, j + 1));
            }
            j += 1;
        }
        append_str(&mut out, "\n");
        string_of(&out)
    }
}

} // verus!
