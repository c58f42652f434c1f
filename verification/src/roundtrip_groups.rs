//! Writing a diagram with groups and reading the text back.

use vstd::prelude::*;
use crate::definition::{
    child_lines, definition_lines, definition_text, direction_token, edge_lines, edge_text,
    free_lines, group_head, group_lines, grouped, indent, joined, member_lines, node_text,
    root_lines, roots, some_free, without_trailing_blanks,
};
use crate::grammar::{
    blank, finish, first_significant, intern, open_subgraph, operand, parse_text, run, step,
    subgraph_header, Draft, OperandView, ParseError,
};
use crate::model::{subgraph_ids, DiagramView, NodeShape};
use crate::roundtrip::{
    bare, good_edge_label, good_id, good_label, lemma_edge_line, lemma_header_round_trip,
    lemma_lines_of_joined, lemma_node_line, lemma_run_concat, lemma_step_blank, writable,
};
use crate::text::{
    ends_with, eq_ignore_case, in_class, is_space, lines, position, lemma_position, starts_with,
    trim, underscored, CharClass,
};
use crate::text_laws::{
    free_of, lemma_find_at, lemma_find_nothing, lemma_trim_padded, lemma_trim_tight, tight,
};

verus! {

/// The groups that are read back as they are written: the id not empty,
/// without white space and without `[`, and not beginning with a quote; the
/// label not empty, without white space at either end and on one line.
pub open spec fn good_group(id: Seq<char>, label: Seq<char>) -> bool {
    &&& id.len() > 0
    &&& free_of(id, CharClass::Space)
    &&& free_of(id, CharClass::Bracket)
    &&& id[0] != '"'
    &&& label.len() > 0
    &&& tight(label)
    &&& free_of(label, CharClass::Newline)
}

/// An indentation is made of blanks.
pub proof fn lemma_indent_blank(depth: nat)
    ensures
        forall|i: int| 0 <= i < indent(depth).len() ==> #[trigger] indent(depth)[i] == ' ',
    decreases depth,
{
    reveal_strlit("    ");
    if depth > 0 {
        lemma_indent_blank((depth - 1) as nat);
        let before = indent((depth - 1) as nat);
        assert forall|i: int| 0 <= i < indent(depth).len() implies #[trigger] indent(depth)[i]
            == ' ' by {
            if i < before.len() {
                assert(indent(depth)[i] == before[i]);
            } else {
                assert(indent(depth)[i] == "    "@[i - before.len()]);
            }
        }
    }
}

/// An indented line is read as the line itself, where that is not empty
/// and has no white space at either end.
pub proof fn lemma_indented(depth: nat, line: Seq<char>)
    requires
        line.len() > 0,
        tight(line),
    ensures
        trim(indent(depth) + line) == line,
        free_of(line, CharClass::Newline) ==> free_of(indent(depth) + line, CharClass::Newline),
        (indent(depth) + line).len() > 0,
{
    lemma_indent_blank(depth);
    let pad = indent(depth);
    let none = Seq::<char>::empty();
    assert(pad + line =~= pad + line + none);
    assert forall|i: int| 0 <= i < pad.len() implies is_space(#[trigger] pad[i]) by {
        assert(pad[i] == ' ');
    }
    lemma_trim_padded(pad, line, none);
    if free_of(line, CharClass::Newline) {
        let whole = pad + line;
        assert forall|i: int| 0 <= i < whole.len() implies !in_class(
            CharClass::Newline,
            #[trigger] whole[i],
        ) by {
            if i < pad.len() {
                assert(whole[i] == pad[i]);
            } else {
                assert(whole[i] == line[i - pad.len()]);
            }
        }
    }
}

/// An indented node line declares its node.
pub proof fn lemma_step_member(
    st: Draft,
    depth: nat,
    shape: NodeShape,
    id: Seq<char>,
    label: Seq<char>,
)
    requires
        good_id(id),
        good_label(shape, label),
    ensures
        step(st, indent(depth) + node_text(shape, id, label)) == Ok::<Draft, ParseError>(
            intern(st, OperandView { id, label, shape }),
        ),
        free_of(indent(depth) + node_text(shape, id, label), CharClass::Newline),
        (indent(depth) + node_text(shape, id, label)).len() > 0,
{
    lemma_node_line(shape, id, label);
    lemma_indented(depth, node_text(shape, id, label));
}

/// A text without white space stays as it is when white space is replaced.
proof fn lemma_underscored_same(s: Seq<char>)
    requires
        free_of(s, CharClass::Space),
    ensures
        underscored(s) == s,
        tight(s),
{
    assert forall|i: int| 0 <= i < s.len() implies underscored(s)[i] == s[i] by {
        assert(!in_class(CharClass::Space, s[i]));
    }
    assert(underscored(s) =~= s);
    if s.len() > 0 {
        assert(!in_class(CharClass::Space, s[0]));
        assert(!in_class(CharClass::Space, s[s.len() - 1]));
    }
}

/// The head of a good group is read as its id and its label.
proof fn lemma_group_head(id: Seq<char>, label: Seq<char>)
    requires
        good_group(id, label),
    ensures
        group_head(id, label).len() > 0,
        tight(group_head(id, label)),
        free_of(group_head(id, label), CharClass::Newline),
        subgraph_header(" "@ + group_head(id, label)) == Ok::<(Seq<char>, Seq<char>), ParseError>(
            (id, label),
        ),
{
    reveal_strlit(" ");
    reveal_strlit("[");
    reveal_strlit("]");
    reveal_strlit("\"");
    reveal_strlit("subgraph");
    let head = group_head(id, label);
    let none = Seq::<char>::empty();
    let n = id.len() as int;
    lemma_underscored_same(id);
    lemma_trim_tight(id);
    assert forall|i: int| 0 <= i < n implies !in_class(CharClass::Newline, #[trigger] id[i]) by {
        assert(!in_class(CharClass::Space, id[i]));
    }
    if label == id {
        assert(head == id);
        assert(" "@ + head =~= " "@ + head + none);
        lemma_trim_padded(" "@, head, none);
        lemma_find_nothing(head, CharClass::Bracket, 0);
        assert(!starts_with(head, "\""@)) by {
            if starts_with(head, "\""@) {
                assert(head.subrange(0, 1)[0] == head[0]);
            }
        }
    } else {
        assert(head == id + "["@ + label + "]"@);
        assert(head[0] == id[0]);
        assert(head[head.len() - 1] == ']');
        assert(" "@ + head =~= " "@ + head + none);
        lemma_trim_padded(" "@, head, none);
        assert(head[n] == '[');
        assert forall|i: int| 0 <= i < n implies !in_class(
            CharClass::Bracket,
            #[trigger] head[i],
        ) by {
            assert(head[i] == id[i]);
        }
        lemma_find_at(head, CharClass::Bracket, 0, n);
        assert(head.subrange(head.len() - 1, head.len() as int) =~= "]"@);
        assert(ends_with(head, "]"@));
        assert(head.subrange(0, n) =~= id);
        assert(head.subrange(n + 1, head.len() - 1) =~= label);
        lemma_trim_tight(label);
        assert forall|i: int| 0 <= i < head.len() implies !in_class(
            CharClass::Newline,
            #[trigger] head[i],
        ) by {
            if i < n {
                assert(head[i] == id[i]);
            } else if n < i < n + 1 + label.len() {
                assert(head[i] == label[i - n - 1]);
            }
        }
    }
}

/// The line that opens a good group is read as opening it, unless a group
/// with its id is already known.
pub proof fn lemma_step_open(st: Draft, depth: nat, id: Seq<char>, label: Seq<char>)
    requires
        good_group(id, label),
    ensures
        step(st, indent(depth) + "subgraph "@ + group_head(id, label)) == (if subgraph_ids(
            st.d.subgraphs,
        ).contains(id) {
            Err::<Draft, ParseError>(ParseError::DuplicateSubgraph)
        } else {
            Ok::<Draft, ParseError>(open_subgraph(st, id, label))
        }),
        free_of(indent(depth) + "subgraph "@ + group_head(id, label), CharClass::Newline),
        (indent(depth) + "subgraph "@ + group_head(id, label)).len() > 0,
{
    reveal_strlit("subgraph ");
    reveal_strlit("subgraph");
    reveal_strlit("%%");
    reveal_strlit(" ");
    lemma_group_head(id, label);
    let head = group_head(id, label);
    let line = "subgraph "@ + head;
    let key = "subgraph "@;
    assert(key.len() == 9);
    assert(key[0] == 's' && key[1] == 'u' && key[2] == 'b' && key[3] == 'g' && key[4] == 'r'
        && key[5] == 'a' && key[6] == 'p' && key[7] == 'h' && key[8] == ' ');
    assert(line[0] == 's');
    assert(line[line.len() - 1] == head[head.len() - 1]);
    lemma_indented(depth, line);
    assert(indent(depth) + "subgraph "@ + head =~= indent(depth) + line);
    assert(line.subrange(0, 8) =~= "subgraph"@);
    assert(!starts_with(line, "%%"@)) by {
        if starts_with(line, "%%"@) {
            assert(line.subrange(0, 2)[0] == line[0]);
        }
    }
    assert(line.subrange(8, line.len() as int) =~= " "@ + head);
    assert forall|i: int| 0 <= i < line.len() implies !in_class(
        CharClass::Newline,
        #[trigger] line[i],
    ) by {
        if i < 9 {
            assert(line[i] == key[i]);
        } else {
            assert(line[i] == head[i - 9]);
        }
    }
}

/// The line `end` closes the innermost open group.
pub proof fn lemma_step_end(st: Draft, depth: nat)
    ensures
        step(st, indent(depth) + "end"@) == (if st.open.len() == 0 {
            Err::<Draft, ParseError>(ParseError::UnmatchedEnd)
        } else {
            Ok::<Draft, ParseError>(Draft { d: st.d, open: st.open.drop_last() })
        }),
        free_of(indent(depth) + "end"@, CharClass::Newline),
        (indent(depth) + "end"@).len() > 0,
{
    reveal_strlit("end");
    reveal_strlit("subgraph");
    reveal_strlit("%%");
    let line = "end"@;
    assert(line.len() == 3 && line[0] == 'e' && line[1] == 'n' && line[2] == 'd');
    lemma_indented(depth, line);
    assert(!starts_with(line, "%%"@)) by {
        if starts_with(line, "%%"@) {
            assert(line.subrange(0, 2)[0] == line[0]);
        }
    }
    assert(eq_ignore_case(line, "end"@));
}

/// Whether the group `v` lies in the tree below the group `s`: it is `s`,
/// or its parent lies in that tree.
pub open spec fn in_tree(d: DiagramView, s: int, v: int) -> bool
    decreases v,
{
    0 <= v < d.subgraphs.len() && (v == s || match d.subgraphs[v].parent {
        Some(p) => p < v && in_tree(d, s, p as int),
        None => false,
    })
}

/// Whether the group `v` lies in the tree below one of the first `upto`
/// children of the group `s`.
pub open spec fn in_children(d: DiagramView, s: int, upto: int, v: int) -> bool
    decreases upto,
{
    upto > 0 && (in_children(d, s, upto - 1, v) || in_tree(
        d,
        d.subgraphs[s].children[upto - 1] as int,
        v,
    ))
}

/// Whether the group `v` lies in the tree below one of the first `upto` of
/// the groups `tops`.
pub open spec fn in_roots(d: DiagramView, tops: Seq<usize>, upto: int, v: int) -> bool
    decreases upto,
{
    upto > 0 && (in_roots(d, tops, upto - 1, v) || in_tree(d, tops[upto - 1] as int, v))
}

/// A group lies at or after the root of every tree that it lies in.
pub proof fn lemma_tree_above(d: DiagramView, s: int, v: int)
    requires
        in_tree(d, s, v),
    ensures
        s <= v,
    decreases v,
{
    if v != s {
        lemma_tree_above(d, s, d.subgraphs[v].parent->Some_0 as int);
    }
}

/// What lies below a child lies below its parent.
pub proof fn lemma_tree_step(d: DiagramView, s: int, c: int, v: int)
    requires
        d.subgraphs.len() <= usize::MAX,
        0 <= c < d.subgraphs.len(),
        d.subgraphs[c].parent == Some(s as usize),
        0 <= s < c,
        in_tree(d, c, v),
    ensures
        in_tree(d, s, v),
    decreases v,
{
    if v != c {
        lemma_tree_step(d, s, c, d.subgraphs[v].parent->Some_0 as int);
    } else {
        assert(in_tree(d, s, s));
        assert(d.subgraphs[c].parent->Some_0 as int == s);
    }
}

/// Two trees that share a group lie one in the other.
pub proof fn lemma_tree_nested(d: DiagramView, a: int, b: int, v: int)
    requires
        a < b,
        in_tree(d, a, v),
        in_tree(d, b, v),
    ensures
        in_tree(d, a, b),
    decreases v,
{
    if v != b {
        lemma_tree_above(d, b, v);
        lemma_tree_nested(d, a, b, d.subgraphs[v].parent->Some_0 as int);
    }
}

/// A child whose tree holds `v`, where a tree of the first `upto` children does.
pub proof fn lemma_children_witness(d: DiagramView, s: int, upto: int, v: int) -> (k: int)
    requires
        in_children(d, s, upto, v),
    ensures
        0 <= k < upto,
        in_tree(d, d.subgraphs[s].children[k] as int, v),
    decreases upto,
{
    if in_tree(d, d.subgraphs[s].children[upto - 1] as int, v) {
        upto - 1
    } else {
        lemma_children_witness(d, s, upto - 1, v)
    }
}

/// What lies below a child lies below one of the children up to it.
pub proof fn lemma_children_has(d: DiagramView, s: int, k: int, upto: int, v: int)
    requires
        0 <= k < upto,
        in_tree(d, d.subgraphs[s].children[k] as int, v),
    ensures
        in_children(d, s, upto, v),
    decreases upto,
{
    if k < upto - 1 {
        lemma_children_has(d, s, k, upto - 1, v);
    }
}

/// One of the first `upto` groups whose tree holds `v`, where one does.
pub proof fn lemma_roots_witness(d: DiagramView, tops: Seq<usize>, upto: int, v: int) -> (k: int)
    requires
        in_roots(d, tops, upto, v),
    ensures
        0 <= k < upto,
        in_tree(d, tops[k] as int, v),
    decreases upto,
{
    if in_tree(d, tops[upto - 1] as int, v) {
        upto - 1
    } else {
        lemma_roots_witness(d, tops, upto - 1, v)
    }
}

/// What lies below one of the groups lies below one of the groups up to it.
pub proof fn lemma_roots_has(d: DiagramView, tops: Seq<usize>, k: int, upto: int, v: int)
    requires
        0 <= k < upto,
        in_tree(d, tops[k] as int, v),
    ensures
        in_roots(d, tops, upto, v),
    decreases upto,
{
    if k < upto - 1 {
        lemma_roots_has(d, tops, k, upto - 1, v);
    }
}

/// The tree below a group is the group and the trees below its children.
pub proof fn lemma_tree_split(d: DiagramView, s: int, v: int)
    requires
        d.wf(),
        d.subgraphs.len() <= usize::MAX,
        0 <= s < d.subgraphs.len(),
    ensures
        in_tree(d, s, v) <==> (v == s || in_children(
            d,
            s,
            d.subgraphs[s].children.len() as int,
            v,
        )),
    decreases v,
{
    let kids = d.subgraphs[s].children;
    let m = kids.len() as int;
    assert(d.subgraph_wf(s));
    if in_children(d, s, m, v) {
        let k = lemma_children_witness(d, s, m, v);
        assert(s < kids[k] < d.subgraphs.len());
        lemma_tree_step(d, s, kids[k] as int, v);
    }
    if in_tree(d, s, v) && v != s {
        let p = d.subgraphs[v].parent->Some_0 as int;
        assert(d.subgraph_wf(v));
        if p == s {
            let k = choose|k: int| 0 <= k < kids.len() && #[trigger] kids[k] == v as usize;
            lemma_children_has(d, s, k, m, v);
        } else {
            lemma_tree_split(d, s, p);
            let k = lemma_children_witness(d, s, m, p);
            lemma_children_has(d, s, k, m, v);
        }
    }
}

/// The groups without a parent, in rising order.
pub proof fn lemma_roots_facts(d: DiagramView, upto: int)
    requires
        0 <= upto <= d.subgraphs.len(),
        d.subgraphs.len() <= usize::MAX,
    ensures
        forall|k: int|
            0 <= k < roots(d, upto).len() ==> (#[trigger] roots(d, upto)[k]) < upto
                && d.subgraphs[roots(d, upto)[k] as int].parent is None,
        forall|k: int, l: int|
            0 <= k < l < roots(d, upto).len() ==> roots(d, upto)[k] < roots(d, upto)[l],
        forall|v: int|
            0 <= v < upto && (#[trigger] d.subgraphs[v]).parent is None ==> roots(d, upto).contains(
                v as usize,
            ),
    decreases upto,
{
    if upto > 0 {
        lemma_roots_facts(d, upto - 1);
        let before = roots(d, upto - 1);
        let now = roots(d, upto);
        assert forall|v: int|
            0 <= v < upto && (#[trigger] d.subgraphs[v]).parent is None implies now.contains(
            v as usize,
        ) by {
            if v < upto - 1 {
                assert(before.contains(v as usize));
                let k = choose|k: int| 0 <= k < before.len() && #[trigger] before[k] == v as usize;
                assert(now[k] == v as usize);
            } else {
                assert(now[now.len() - 1] == v as usize);
            }
        }
    }
}

/// Every group lies in the tree below a group without a parent.
pub proof fn lemma_all_in_roots(d: DiagramView, v: int)
    requires
        d.wf(),
        d.subgraphs.len() <= usize::MAX,
        0 <= v < d.subgraphs.len(),
    ensures
        in_roots(
            d,
            roots(d, d.subgraphs.len() as int),
            roots(d, d.subgraphs.len() as int).len() as int,
            v,
        ),
    decreases v,
{
    let n = d.subgraphs.len() as int;
    let tops = roots(d, n);
    lemma_roots_facts(d, n);
    assert(d.subgraph_wf(v));
    match d.subgraphs[v].parent {
        None => {
            assert(tops.contains(v as usize));
            let k = choose|k: int| 0 <= k < tops.len() && #[trigger] tops[k] == v as usize;
            lemma_roots_has(d, tops, k, tops.len() as int, v);
        },
        Some(p) => {
            lemma_all_in_roots(d, p as int);
            let k = lemma_roots_witness(d, tops, tops.len() as int, p as int);
            lemma_roots_has(d, tops, k, tops.len() as int, v);
        },
    }
}

/// Whether a group with the id of the group `v` of `d` has been opened.
pub open spec fn opened(st: Draft, d: DiagramView, v: int) -> bool {
    subgraph_ids(st.d.subgraphs).contains(d.subgraphs[v].id)
}

/// Whether the state holds declarations of `d` alone: every node that is
/// declared is a node of `d`, with its label and shape; every open group
/// is a record of the arena.
pub open spec fn reading(st: Draft, d: DiagramView) -> bool {
    &&& st.d.nodes.len() == st.d.order.len()
    &&& forall|j: int|
        0 <= j < st.d.order.len() ==> d.order.contains(#[trigger] st.d.order[j]) && st.d.nodes[j]
            == d.nodes[position(d.order, st.d.order[j])]
    &&& forall|k: int| 0 <= k < st.open.len() ==> (#[trigger] st.open[k]) < st.d.subgraphs.len()
}

/// Whether `st2` continues `st`: the same open groups, edges and direction,
/// and every node that was declared still is.
pub open spec fn continues(st: Draft, st2: Draft) -> bool {
    &&& st2.open == st.open
    &&& st2.d.edges == st.d.edges
    &&& st2.d.direction == st.d.direction
    &&& forall|x: Seq<char>| st.d.order.contains(x) ==> st2.d.order.contains(x)
}

/// The operand that the node `i` of `d` is written as.
pub open spec fn node_operand(d: DiagramView, i: int) -> OperandView {
    OperandView { id: d.order[i], label: d.nodes[i].label, shape: d.nodes[i].shape }
}

/// Declaring a node of `d` keeps to the declarations of `d`.
pub proof fn lemma_intern_effect(d: DiagramView, st: Draft, i: int)
    requires
        d.wf(),
        reading(st, d),
        0 <= i < d.order.len(),
    ensures
        reading(intern(st, node_operand(d, i)), d),
        continues(st, intern(st, node_operand(d, i))),
        intern(st, node_operand(d, i)).d.order.contains(d.order[i]),
        subgraph_ids(intern(st, node_operand(d, i)).d.subgraphs) == subgraph_ids(st.d.subgraphs),
{
    let op = node_operand(d, i);
    let st2 = intern(st, op);
    if !st.d.order.contains(op.id) {
        let n = st.d.order.len() as int;
        assert(st2.d.order[n] == op.id);
        assert(d.order[i] == op.id);
        lemma_position(d.order, op.id);
        assert(position(d.order, op.id) == i) by {
            let p = position(d.order, op.id);
            if p != i {
                assert(d.order[p] == d.order[i]);
            }
        }
        assert forall|x: Seq<char>| st.d.order.contains(x) implies st2.d.order.contains(x) by {
            let k = choose|k: int| 0 <= k < st.d.order.len() && #[trigger] st.d.order[k] == x;
            assert(st2.d.order[k] == x);
        }
        assert forall|j: int| 0 <= j < st2.d.order.len() implies d.order.contains(
            #[trigger] st2.d.order[j],
        ) && st2.d.nodes[j] == d.nodes[position(d.order, st2.d.order[j])] by {
            if j < n {
                assert(st2.d.order[j] == st.d.order[j]);
                assert(d.order.contains(st.d.order[j]));
            }
        }
        if st.open.len() > 0 {
            assert(st.open[st.open.len() - 1] < st.d.subgraphs.len());
        }
        assert(subgraph_ids(st2.d.subgraphs) =~= subgraph_ids(st.d.subgraphs));
    }
}

/// Opening a group adds its id to the ids that are known, and nothing else.
pub proof fn lemma_open_effect(d: DiagramView, st: Draft, id: Seq<char>, label: Seq<char>)
    requires
        reading(st, d),
    ensures
        reading(open_subgraph(st, id, label), d),
        open_subgraph(st, id, label).d.order == st.d.order,
        open_subgraph(st, id, label).d.edges == st.d.edges,
        open_subgraph(st, id, label).d.direction == st.d.direction,
        open_subgraph(st, id, label).open.len() == st.open.len() + 1,
        open_subgraph(st, id, label).open.drop_last() == st.open,
        forall|x: Seq<char>|
            subgraph_ids(open_subgraph(st, id, label).d.subgraphs).contains(x) <==> (x == id
                || subgraph_ids(st.d.subgraphs).contains(x)),
{
    let st2 = open_subgraph(st, id, label);
    let n = st.d.subgraphs.len() as int;
    if st.open.len() > 0 {
        assert(st.open[st.open.len() - 1] < n);
    }
    assert(st2.d.subgraphs.len() == n + 1);
    let ids = subgraph_ids(st.d.subgraphs);
    let ids2 = subgraph_ids(st2.d.subgraphs);
    assert(ids2 =~= ids.push(id));
    assert(st2.open.drop_last() =~= st.open);
    assert forall|x: Seq<char>| ids2.contains(x) <==> (x == id || ids.contains(x)) by {
        if ids.contains(x) {
            let k = choose|k: int| 0 <= k < ids.len() && #[trigger] ids[k] == x;
            assert(ids2[k] == x);
        }
        if x == id {
            assert(ids2[n] == x);
        }
        if ids2.contains(x) {
            let k = choose|k: int| 0 <= k < ids2.len() && #[trigger] ids2[k] == x;
            if k < n {
                assert(ids[k] == x);
            }
        }
    }
    assert forall|k: int| 0 <= k < st2.open.len() implies (#[trigger] st2.open[k])
        < st2.d.subgraphs.len() by {
        if k < st.open.len() {
            assert(st2.open[k] == st.open[k]);
        }
    }
}

/// Whether everything in `d` is read back as it is written: the ids and
/// labels of its nodes, the labels of its edges, and its groups.
pub open spec fn writable_all(d: DiagramView) -> bool {
    &&& writable(d)
    &&& forall|s: int|
        0 <= s < d.subgraphs.len() ==> good_group((#[trigger] d.subgraphs[s]).id, d.subgraphs[s].label)
}

/// Whether no line of `ls` holds a line feed.
pub open spec fn clean(ls: Seq<Seq<char>>) -> bool {
    forall|k: int| 0 <= k < ls.len() ==> free_of(#[trigger] ls[k], CharClass::Newline)
}

/// Reading one line is one step.
pub proof fn lemma_run_single(st: Draft, line: Seq<char>)
    ensures
        run(st, seq![line]) == step(st, line),
{
    let one = seq![line];
    assert(one.drop_last() =~= Seq::<Seq<char>>::empty());
    assert(one.last() == line);
    assert(run(st, one.drop_last()) == Ok::<Draft, ParseError>(st));
}

/// Lines without line feeds, one run after the other, are lines without line feeds.
pub proof fn lemma_clean_concat(a: Seq<Seq<char>>, b: Seq<Seq<char>>)
    requires
        clean(a),
        clean(b),
    ensures
        clean(a + b),
{
    assert forall|k: int| 0 <= k < (a + b).len() implies free_of(
        #[trigger] (a + b)[k],
        CharClass::Newline,
    ) by {
        if k < a.len() {
            assert((a + b)[k] == a[k]);
        } else {
            assert((a + b)[k] == b[k - a.len()]);
        }
    }
}

/// Reading the lines of the direct nodes of a group declares these nodes.
pub proof fn lemma_read_members(d: DiagramView, s: int, depth: nat, upto: int, st: Draft) -> (st2:
    Draft)
    requires
        d.wf(),
        writable(d),
        reading(st, d),
        0 <= s < d.subgraphs.len(),
        0 <= upto <= d.order.len(),
    ensures
        run(st, member_lines(d, s, depth, upto)) == Ok::<Draft, ParseError>(st2),
        reading(st2, d),
        continues(st, st2),
        subgraph_ids(st2.d.subgraphs) == subgraph_ids(st.d.subgraphs),
        forall|i: int|
            0 <= i < upto && d.subgraphs[s].nodes.contains(#[trigger] d.order[i])
                ==> st2.d.order.contains(d.order[i]),
        clean(member_lines(d, s, depth, upto)),
    decreases upto,
{
    if upto <= 0 {
        st
    } else {
        let i = upto - 1;
        let mid = lemma_read_members(d, s, depth, i, st);
        let before = member_lines(d, s, depth, i);
        if d.subgraphs[s].nodes.contains(d.order[i]) {
            let op = node_operand(d, i);
            let line = indent(depth) + node_text(op.shape, op.id, op.label);
            assert(member_lines(d, s, depth, upto) == before.push(line));
            assert(good_id(d.order[i]));
            assert(good_label(d.nodes[i].shape, d.nodes[i].label));
            lemma_step_member(mid, depth, op.shape, op.id, op.label);
            lemma_intern_effect(d, mid, i);
            let st2 = intern(mid, op);
            assert(before.push(line).drop_last() =~= before);
            assert(run(st, before.push(line)) == step(mid, line));
            assert forall|j: int|
                0 <= j < upto && d.subgraphs[s].nodes.contains(
                    #[trigger] d.order[j],
                ) implies st2.d.order.contains(d.order[j]) by {
                if j < i {
                    assert(mid.d.order.contains(d.order[j]));
                }
            }
            assert forall|k: int| 0 <= k < before.push(line).len() implies free_of(
                #[trigger] before.push(line)[k],
                CharClass::Newline,
            ) by {
                if k < before.len() {
                    assert(before.push(line)[k] == before[k]);
                }
            }
            st2
        } else {
            mid
        }
    }
}

/// Reading the block of a group of which nothing has been opened opens the
/// groups of its tree and declares the nodes that they list.
pub proof fn lemma_read_group(d: DiagramView, s: int, depth: nat, st: Draft) -> (st2: Draft)
    requires
        d.wf(),
        d.subgraphs.len() <= usize::MAX,
        writable_all(d),
        reading(st, d),
        0 <= s < d.subgraphs.len(),
        forall|v: int| in_tree(d, s, v) ==> !#[trigger] opened(st, d, v),
    ensures
        run(st, group_lines(d, s, depth)) == Ok::<Draft, ParseError>(st2),
        reading(st2, d),
        continues(st, st2),
        forall|v: int|
            0 <= v < d.subgraphs.len() ==> (#[trigger] opened(st2, d, v) <==> (opened(st, d, v)
                || in_tree(d, s, v))),
        forall|v: int, k: int|
            in_tree(d, s, v) && 0 <= k < d.subgraphs[v].nodes.len() ==> st2.d.order.contains(
                #[trigger] d.subgraphs[v].nodes[k],
            ),
        clean(group_lines(d, s, depth)),
        group_lines(d, s, depth).len() > 0,
        group_lines(d, s, depth).last().len() > 0,
    decreases d.subgraphs.len() - s, 1int, 0int,
{
    let g = d.subgraphs[s];
    let n = d.order.len() as int;
    let m = g.children.len() as int;
    let first = indent(depth) + "subgraph "@ + group_head(g.id, g.label);
    let last = indent(depth) + "end"@;
    let members = member_lines(d, s, depth + 1, n);
    let children = child_lines(d, s, depth + 1, m);
    let all = group_lines(d, s, depth);
    assert(all == seq![first] + members + children + seq![last]);
    assert(good_group(d.subgraphs[s].id, d.subgraphs[s].label));
    // the opening line
    assert(in_tree(d, s, s));
    assert(!opened(st, d, s));
    lemma_step_open(st, depth, g.id, g.label);
    lemma_open_effect(d, st, g.id, g.label);
    let st1 = open_subgraph(st, g.id, g.label);
    lemma_run_single(st, first);
    // the direct nodes
    let st2 = lemma_read_members(d, s, depth + 1, n, st1);
    // the children
    assert forall|v: int| in_tree(d, s, v) && v != s implies !#[trigger] opened(st2, d, v) by {
        assert(!opened(st, d, v));
        if opened(st2, d, v) {
            assert(subgraph_ids(st1.d.subgraphs).contains(d.subgraphs[v].id));
            assert(d.subgraphs[v].id == g.id);
            assert(subgraph_ids(d.subgraphs)[v] == subgraph_ids(d.subgraphs)[s]);
        }
    }
    let st3 = lemma_read_children(d, s, depth + 1, m, st2);
    // the closing line
    lemma_step_end(st3, depth);
    lemma_run_single(st3, last);
    assert(st3.open == st1.open);
    let st4 = Draft { d: st3.d, open: st3.open.drop_last() };
    assert(st4.open == st.open);
    lemma_run_concat(st, seq![first], members);
    lemma_run_concat(st, seq![first] + members, children);
    lemma_run_concat(st, seq![first] + members + children, seq![last]);
    assert(run(st, all) == Ok::<Draft, ParseError>(st4));
    assert(reading(st4, d)) by {
        assert forall|k: int| 0 <= k < st4.open.len() implies (#[trigger] st4.open[k])
            < st4.d.subgraphs.len() by {
            assert(st4.open[k] == st3.open[k]);
        }
    }
    assert forall|v: int| 0 <= v < d.subgraphs.len() implies (#[trigger] opened(st4, d, v) <==> (
    opened(st, d, v) || in_tree(d, s, v))) by {
        lemma_tree_split(d, s, v);
        assert(opened(st3, d, v) <==> (opened(st2, d, v) || in_children(d, s, m, v)));
        assert(opened(st2, d, v) <==> opened(st1, d, v));
        assert(opened(st1, d, v) <==> (d.subgraphs[v].id == g.id || opened(st, d, v)));
        if d.subgraphs[v].id == g.id {
            assert(subgraph_ids(d.subgraphs)[v] == subgraph_ids(d.subgraphs)[s]);
            assert(v == s);
        }
    }
    assert forall|v: int, k: int|
        in_tree(d, s, v) && 0 <= k < d.subgraphs[v].nodes.len() implies st4.d.order.contains(
        #[trigger] d.subgraphs[v].nodes[k],
    ) by {
        lemma_tree_split(d, s, v);
        if v == s {
            let x = d.subgraphs[s].nodes[k];
            assert(d.order.contains(d.subgraphs[s].nodes[k]));
            let i = choose|i: int| 0 <= i < d.order.len() && #[trigger] d.order[i] == x;
            assert(d.subgraphs[s].nodes.contains(d.order[i]));
            assert(st2.d.order.contains(d.order[i]));
        }
    }
    assert(clean(all)) by {
        assert(clean(seq![first]));
        assert(clean(seq![last]));
        lemma_clean_concat(seq![first], members);
        lemma_clean_concat(seq![first] + members, children);
        lemma_clean_concat(seq![first] + members + children, seq![last]);
    }
    assert(all.last() == last);
    st4
}

/// Reading the blocks of the first `upto` children of a group opens the
/// groups of their trees and declares the nodes that they list.
pub proof fn lemma_read_children(d: DiagramView, s: int, depth: nat, upto: int, st: Draft) -> (st2:
    Draft)
    requires
        d.wf(),
        d.subgraphs.len() <= usize::MAX,
        writable_all(d),
        reading(st, d),
        0 <= s < d.subgraphs.len(),
        0 <= upto <= d.subgraphs[s].children.len(),
        forall|v: int| in_tree(d, s, v) && v != s ==> !#[trigger] opened(st, d, v),
    ensures
        run(st, child_lines(d, s, depth, upto)) == Ok::<Draft, ParseError>(st2),
        reading(st2, d),
        continues(st, st2),
        forall|v: int|
            0 <= v < d.subgraphs.len() ==> (#[trigger] opened(st2, d, v) <==> (opened(st, d, v)
                || in_children(d, s, upto, v))),
        forall|v: int, k: int|
            in_children(d, s, upto, v) && 0 <= k < d.subgraphs[v].nodes.len()
                ==> st2.d.order.contains(#[trigger] d.subgraphs[v].nodes[k]),
        clean(child_lines(d, s, depth, upto)),
    decreases d.subgraphs.len() - s, 0int, upto,
{
    if upto <= 0 {
        st
    } else {
        let mid = lemma_read_children(d, s, depth, upto - 1, st);
        let kids = d.subgraphs[s].children;
        let c = kids[upto - 1] as int;
        assert(d.subgraph_wf(s));
        assert(s < kids[upto - 1] < d.subgraphs.len());
        assert(d.subgraphs[kids[upto - 1] as int].parent == Some(s as usize));
        let before = child_lines(d, s, depth, upto - 1);
        assert(child_lines(d, s, depth, upto) == before + group_lines(d, c, depth));
        assert forall|v: int| in_tree(d, c, v) implies !#[trigger] opened(mid, d, v) by {
            lemma_tree_above(d, c, v);
            lemma_tree_step(d, s, c, v);
            assert(!opened(st, d, v));
            if in_children(d, s, upto - 1, v) {
                let k = lemma_children_witness(d, s, upto - 1, v);
                let other = kids[k] as int;
                assert(kids[k] < kids[upto - 1]);
                assert(s < kids[k] < d.subgraphs.len());
                lemma_tree_nested(d, other, c, v);
                lemma_tree_above(d, other, s);
            }
        }
        let st2 = lemma_read_group(d, c, depth, mid);
        lemma_run_concat(st, before, group_lines(d, c, depth));
        lemma_clean_concat(before, group_lines(d, c, depth));
        assert forall|v: int, k: int|
            in_children(d, s, upto, v) && 0 <= k
                < d.subgraphs[v].nodes.len() implies st2.d.order.contains(
            #[trigger] d.subgraphs[v].nodes[k],
        ) by {
            if in_children(d, s, upto - 1, v) {
                assert(mid.d.order.contains(d.subgraphs[v].nodes[k]));
            }
        }
        st2
    }
}

/// Reading the blocks of the first `upto` top-level groups opens the groups
/// of their trees and declares the nodes that they list.
pub proof fn lemma_read_roots(d: DiagramView, upto: int, st: Draft) -> (st2: Draft)
    requires
        d.wf(),
        d.subgraphs.len() <= usize::MAX,
        writable_all(d),
        reading(st, d),
        0 <= upto <= roots(d, d.subgraphs.len() as int).len(),
        forall|v: int| 0 <= v < d.subgraphs.len() ==> !#[trigger] opened(st, d, v),
    ensures
        run(st, root_lines(d, roots(d, d.subgraphs.len() as int), upto)) == Ok::<
            Draft,
            ParseError,
        >(st2),
        reading(st2, d),
        continues(st, st2),
        forall|v: int|
            0 <= v < d.subgraphs.len() ==> (#[trigger] opened(st2, d, v) <==> in_roots(
                d,
                roots(d, d.subgraphs.len() as int),
                upto,
                v,
            )),
        forall|v: int, k: int|
            in_roots(d, roots(d, d.subgraphs.len() as int), upto, v) && 0 <= k
                < d.subgraphs[v].nodes.len() ==> st2.d.order.contains(
                #[trigger] d.subgraphs[v].nodes[k],
            ),
        clean(root_lines(d, roots(d, d.subgraphs.len() as int), upto)),
        upto > 0 && upto == roots(d, d.subgraphs.len() as int).len() ==> root_lines(
            d,
            roots(d, d.subgraphs.len() as int),
            upto,
        ).len() > 0 && root_lines(d, roots(d, d.subgraphs.len() as int), upto).last().len() > 0,
    decreases upto,
{
    let tops = roots(d, d.subgraphs.len() as int);
    if upto <= 0 {
        st
    } else {
        let mid = lemma_read_roots(d, upto - 1, st);
        lemma_roots_facts(d, d.subgraphs.len() as int);
        let r = tops[upto - 1] as int;
        assert(tops[upto - 1] < d.subgraphs.len());
        assert(d.subgraphs[tops[upto - 1] as int].parent is None);
        let before = root_lines(d, tops, upto - 1);
        let block = group_lines(d, r, 1);
        assert forall|v: int| in_tree(d, r, v) implies !#[trigger] opened(mid, d, v) by {
            if in_roots(d, tops, upto - 1, v) {
                let k = lemma_roots_witness(d, tops, upto - 1, v);
                assert(tops[k] < tops[upto - 1]);
                lemma_tree_nested(d, tops[k] as int, r, v);
            }
        }
        let st2 = lemma_read_group(d, r, 1, mid);
        lemma_run_concat(st, before, block);
        lemma_clean_concat(before, block);
        assert forall|v: int, k: int|
            in_roots(d, tops, upto, v) && 0 <= k
                < d.subgraphs[v].nodes.len() implies st2.d.order.contains(
            #[trigger] d.subgraphs[v].nodes[k],
        ) by {
            if in_roots(d, tops, upto - 1, v) {
                assert(mid.d.order.contains(d.subgraphs[v].nodes[k]));
            }
        }
        if upto != tops.len() {
            let none = Seq::<char>::empty();
            lemma_step_blank(st2);
            lemma_run_concat(st, before + block, seq![none]);
            assert(root_lines(d, tops, upto) == (before + block).push(none));
            assert((before + block).push(none) =~= before + block + seq![none]);
            assert(clean(seq![none]));
            lemma_clean_concat(before + block, seq![none]);
        } else {
            assert(root_lines(d, tops, upto) == before + block);
            assert((before + block).last() == block.last());
        }
        st2
    }
}

/// A group that lists the node `id`, where one of the first `upto` does.
pub proof fn lemma_grouped_witness(d: DiagramView, id: Seq<char>, upto: int) -> (v: int)
    requires
        grouped(d, id, upto),
    ensures
        0 <= v < upto,
        d.subgraphs[v].nodes.contains(id),
    decreases upto,
{
    if d.subgraphs[upto - 1].nodes.contains(id) {
        upto - 1
    } else {
        lemma_grouped_witness(d, id, upto - 1)
    }
}

/// Reading the lines of the nodes outside groups declares these nodes.
pub proof fn lemma_read_free(d: DiagramView, upto: int, st: Draft) -> (st2: Draft)
    requires
        d.wf(),
        writable(d),
        reading(st, d),
        0 <= upto <= d.order.len(),
    ensures
        run(st, free_lines(d, upto)) == Ok::<Draft, ParseError>(st2),
        reading(st2, d),
        continues(st, st2),
        forall|i: int|
            0 <= i < upto && !grouped(d, #[trigger] d.order[i], d.subgraphs.len() as int)
                ==> st2.d.order.contains(d.order[i]),
        clean(free_lines(d, upto)),
        some_free(d, upto) <==> free_lines(d, upto).len() > 0,
        free_lines(d, upto).len() > 0 ==> free_lines(d, upto).last().len() > 0,
    decreases upto,
{
    if upto <= 0 {
        st
    } else {
        let i = upto - 1;
        let mid = lemma_read_free(d, i, st);
        let before = free_lines(d, i);
        if !grouped(d, d.order[i], d.subgraphs.len() as int) {
            let op = node_operand(d, i);
            let line = node_text(op.shape, op.id, op.label);
            assert(free_lines(d, upto) == before.push(line));
            assert(good_id(d.order[i]));
            assert(good_label(d.nodes[i].shape, d.nodes[i].label));
            lemma_node_line(op.shape, op.id, op.label);
            lemma_intern_effect(d, mid, i);
            let st2 = intern(mid, op);
            assert(before.push(line).drop_last() =~= before);
            assert(run(st, before.push(line)) == step(mid, line));
            assert forall|j: int|
                0 <= j < upto && !grouped(
                    d,
                    #[trigger] d.order[j],
                    d.subgraphs.len() as int,
                ) implies st2.d.order.contains(d.order[j]) by {
                if j < i {
                    assert(mid.d.order.contains(d.order[j]));
                }
            }
            assert forall|k: int| 0 <= k < before.push(line).len() implies free_of(
                #[trigger] before.push(line)[k],
                CharClass::Newline,
            ) by {
                if k < before.len() {
                    assert(before.push(line)[k] == before[k]);
                }
            }
            st2
        } else {
            mid
        }
    }
}

/// Reading the lines of the first `j` edges adds these edges, where every
/// node is declared.
pub proof fn lemma_read_edges(d: DiagramView, j: int, st: Draft) -> (st2: Draft)
    requires
        d.wf(),
        writable(d),
        0 <= j <= d.edges.len(),
        forall|i: int| 0 <= i < d.order.len() ==> st.d.order.contains(#[trigger] d.order[i]),
    ensures
        run(st, edge_lines(d, j)) == Ok::<Draft, ParseError>(st2),
        st2.open == st.open,
        st2.d == (DiagramView { edges: st.d.edges + d.edges.take(j), ..st.d }),
        clean(edge_lines(d, j)),
        edge_lines(d, j).len() == j,
        j > 0 ==> edge_lines(d, j).last().len() > 0,
    decreases j,
{
    if j <= 0 {
        assert(st.d.edges + d.edges.take(0) =~= st.d.edges);
        st
    } else {
        let mid = lemma_read_edges(d, j - 1, st);
        let e = d.edges[j - 1];
        let line = edge_text(e);
        let before = edge_lines(d, j - 1);
        assert(edge_lines(d, j) == before.push(line));
        assert(before.push(line).drop_last() =~= before);
        assert(run(st, before.push(line)) == step(mid, line));
        assert(d.order.contains(d.edges[j - 1].from) && d.order.contains(d.edges[j - 1].to));
        let a = choose|a: int| 0 <= a < d.order.len() && #[trigger] d.order[a] == e.from;
        let b = choose|b: int| 0 <= b < d.order.len() && #[trigger] d.order[b] == e.to;
        assert(good_id(d.order[a]) && good_id(d.order[b]));
        assert(good_edge_label(d.edges[j - 1].label));
        assert(mid.d.order == st.d.order);
        assert(st.d.order.contains(d.order[a]) && st.d.order.contains(d.order[b]));
        lemma_edge_line(e, mid);
        assert(intern(mid, bare(e.from)) == mid);
        assert(intern(mid, bare(e.to)) == mid);
        let st2 = Draft { d: DiagramView { edges: mid.d.edges.push(e), ..mid.d }, open: mid.open };
        assert((st.d.edges + d.edges.take(j - 1)).push(e) =~= st.d.edges + d.edges.take(j));
        assert forall|k: int| 0 <= k < before.push(line).len() implies free_of(
            #[trigger] before.push(line)[k],
            CharClass::Newline,
        ) by {
            if k < before.len() {
                assert(before.push(line)[k] == before[k]);
            }
        }
        st2
    }
}

/// Whether `r` has the nodes of `d`: each node of `r` is a node of `d`
/// with the same label and shape, and each node of `d` is a node of `r`.
pub open spec fn same_nodes(d: DiagramView, r: DiagramView) -> bool {
    &&& r.nodes.len() == r.order.len()
    &&& forall|j: int|
        0 <= j < r.order.len() ==> d.order.contains(#[trigger] r.order[j]) && r.nodes[j]
            == d.nodes[position(d.order, r.order[j])]
    &&& forall|i: int| 0 <= i < d.order.len() ==> r.order.contains(#[trigger] d.order[i])
}

/// The lines of a text that is written from lines without line feeds, the
/// last of which is not empty: these lines, and an empty line after them.
pub proof fn lemma_text_of_lines(all: Seq<Seq<char>>)
    requires
        all.len() > 0,
        clean(all),
        all.last().len() > 0,
    ensures
        without_trailing_blanks(all) == all,
        lines(joined(all, all.len() as int) + "\n"@) == all.push(Seq::<char>::empty()),
{
    lemma_lines_of_joined(all, all.len() as int);
    assert(all.take(all.len() as int) =~= all);
}

/// Reading the parts of a definition one after the other.
pub proof fn lemma_run_parts(
    start: Draft,
    block: Seq<Seq<char>>,
    gap: Seq<Seq<char>>,
    nodes: Seq<Seq<char>>,
    sep: Seq<Seq<char>>,
    edges: Seq<Seq<char>>,
    st1: Draft,
    st2: Draft,
    st3: Draft,
)
    requires
        run(start, block) == Ok::<Draft, ParseError>(st1),
        run(st1, nodes) == Ok::<Draft, ParseError>(st2),
        run(st2, edges) == Ok::<Draft, ParseError>(st3),
        gap.len() == 0 || gap == seq![Seq::<char>::empty()],
        sep.len() == 0 || sep == seq![Seq::<char>::empty()],
    ensures
        run(start, block + gap + nodes + sep + edges + seq![Seq::<char>::empty()]) == Ok::<
            Draft,
            ParseError,
        >(st3),
{
    let none = Seq::<char>::empty();
    lemma_step_blank(st1);
    lemma_step_blank(st2);
    lemma_step_blank(st3);
    assert(run(st1, gap) == Ok::<Draft, ParseError>(st1)) by {
        if gap.len() == 0 {
            assert(gap =~= Seq::<Seq<char>>::empty());
        }
    }
    assert(run(st2, sep) == Ok::<Draft, ParseError>(st2)) by {
        if sep.len() == 0 {
            assert(sep =~= Seq::<Seq<char>>::empty());
        }
    }
    lemma_run_concat(start, block, gap);
    lemma_run_concat(start, block + gap, nodes);
    lemma_run_concat(start, block + gap + nodes, sep);
    lemma_run_concat(start, block + gap + nodes + sep, edges);
    lemma_run_concat(start, block + gap + nodes + sep + edges, seq![none]);
}

/// Once the blocks of the top-level groups and the lines of the nodes
/// outside groups are read, every node is declared.
pub proof fn lemma_all_declared(d: DiagramView, st1: Draft, st2: Draft)
    requires
        d.wf(),
        d.subgraphs.len() <= usize::MAX,
        continues(st1, st2),
        forall|v: int, k: int|
            in_roots(
                d,
                roots(d, d.subgraphs.len() as int),
                roots(d, d.subgraphs.len() as int).len() as int,
                v,
            ) && 0 <= k < d.subgraphs[v].nodes.len() ==> st1.d.order.contains(
                #[trigger] d.subgraphs[v].nodes[k],
            ),
        forall|i: int|
            0 <= i < d.order.len() && !grouped(d, #[trigger] d.order[i], d.subgraphs.len() as int)
                ==> st2.d.order.contains(d.order[i]),
    ensures
        forall|i: int| 0 <= i < d.order.len() ==> st2.d.order.contains(#[trigger] d.order[i]),
{
    let count = d.subgraphs.len() as int;
    assert forall|i: int| 0 <= i < d.order.len() implies st2.d.order.contains(
        #[trigger] d.order[i],
    ) by {
        if grouped(d, d.order[i], count) {
            let v = lemma_grouped_witness(d, d.order[i], count);
            lemma_all_in_roots(d, v);
            let listed = d.subgraphs[v].nodes;
            let k = choose|k: int| 0 <= k < listed.len() && #[trigger] listed[k] == d.order[i];
            assert(st1.d.order.contains(d.subgraphs[v].nodes[k]));
        }
    }
}

/// The lines of the definition of `d` are its parts, one after the other.
pub proof fn lemma_definition_parts(d: DiagramView)
    ensures
        definition_lines(d) == seq!["graph "@ + direction_token(d.direction)] + root_lines(
            d,
            roots(d, d.subgraphs.len() as int),
            roots(d, d.subgraphs.len() as int).len() as int,
        ) + (if d.subgraphs.len() > 0 && some_free(d, d.order.len() as int) {
            seq![Seq::<char>::empty()]
        } else {
            Seq::<Seq<char>>::empty()
        }) + free_lines(d, d.order.len() as int) + (if d.edges.len() > 0 {
            seq![Seq::<char>::empty()]
        } else {
            Seq::<Seq<char>>::empty()
        }) + edge_lines(d, d.edges.len() as int),
{
    let none = Seq::<char>::empty();
    let head = seq!["graph "@ + direction_token(d.direction)] + root_lines(
        d,
        roots(d, d.subgraphs.len() as int),
        roots(d, d.subgraphs.len() as int).len() as int,
    );
    assert(head.push(none) =~= head + seq![none]);
    assert(head =~= head + Seq::<Seq<char>>::empty());
    let gap = if d.subgraphs.len() > 0 && some_free(d, d.order.len() as int) {
        head.push(none)
    } else {
        head
    };
    let body = gap + free_lines(d, d.order.len() as int);
    assert(body.push(none) =~= body + seq![none]);
    assert(body =~= body + Seq::<Seq<char>>::empty());
}

/// The parts of the definition of `d`: the blocks of the top-level groups,
/// the lines of the nodes outside groups, and the lines of the edges.
pub open spec fn part_block(d: DiagramView) -> Seq<Seq<char>> {
    root_lines(
        d,
        roots(d, d.subgraphs.len() as int),
        roots(d, d.subgraphs.len() as int).len() as int,
    )
}

/// The empty line between the groups and the nodes outside groups, where
/// both are present.
pub open spec fn part_gap(d: DiagramView) -> Seq<Seq<char>> {
    if d.subgraphs.len() > 0 && some_free(d, d.order.len() as int) {
        seq![Seq::<char>::empty()]
    } else {
        Seq::<Seq<char>>::empty()
    }
}

/// The empty line before the edges, where there are edges.
pub open spec fn part_sep(d: DiagramView) -> Seq<Seq<char>> {
    if d.edges.len() > 0 {
        seq![Seq::<char>::empty()]
    } else {
        Seq::<Seq<char>>::empty()
    }
}

/// Reading the parts of the definition of `d`, one after the other, from
/// the blank state: the three states that are reached.
proof fn lemma_round_trip_states(d: DiagramView) -> (r: (Draft, Draft, Draft))
    requires
        d.wf(),
        d.order.len() > 0,
        d.subgraphs.len() <= usize::MAX,
        writable_all(d),
    ensures
        run(blank(d.direction), part_block(d)) == Ok::<Draft, ParseError>(r.0),
        run(r.0, free_lines(d, d.order.len() as int)) == Ok::<Draft, ParseError>(r.1),
        run(r.1, edge_lines(d, d.edges.len() as int)) == Ok::<Draft, ParseError>(r.2),
        continues(blank(d.direction), r.0),
        continues(r.0, r.1),
        reading(r.1, d),
        r.2.open == r.1.open,
        r.2.d == (DiagramView {
            edges: r.1.d.edges + d.edges.take(d.edges.len() as int),
            ..r.1.d
        }),
        forall|i: int| 0 <= i < d.order.len() ==> r.1.d.order.contains(#[trigger] d.order[i]),
        clean(part_block(d)),
        clean(free_lines(d, d.order.len() as int)),
        clean(edge_lines(d, d.edges.len() as int)),
        part_block(d).len() > 0 ==> part_block(d).last().len() > 0,
        free_lines(d, d.order.len() as int).len() > 0 ==> free_lines(
            d,
            d.order.len() as int,
        ).last().len() > 0,
        edge_lines(d, d.edges.len() as int).len() == d.edges.len(),
        d.edges.len() > 0 ==> edge_lines(d, d.edges.len() as int).last().len() > 0,
{
    let n = d.order.len() as int;
    let m = d.edges.len() as int;
    let count = d.subgraphs.len() as int;
    let tops = roots(d, count);
    let start = blank(d.direction);
    assert(reading(start, d));
    assert forall|v: int| 0 <= v < count implies !#[trigger] opened(start, d, v) by {
        assert(subgraph_ids(start.d.subgraphs).len() == 0);
    }
    let st1 = lemma_read_roots(d, tops.len() as int, start);
    let st2 = lemma_read_free(d, n, st1);
    lemma_all_declared(d, st1, st2);
    let st3 = lemma_read_edges(d, m, st2);
    if tops.len() == 0 {
        assert(part_block(d).len() == 0);
    }
    (st1, st2, st3)
}

/// The lines of the text that is written for `d`: the lines of its
/// definition, and an empty line after them.
proof fn lemma_round_trip_text(d: DiagramView)
    requires
        clean(part_block(d)),
        clean(free_lines(d, d.order.len() as int)),
        clean(edge_lines(d, d.edges.len() as int)),
        part_block(d).len() > 0 ==> part_block(d).last().len() > 0,
        free_lines(d, d.order.len() as int).len() > 0 ==> free_lines(
            d,
            d.order.len() as int,
        ).last().len() > 0,
        edge_lines(d, d.edges.len() as int).len() == d.edges.len(),
        d.edges.len() > 0 ==> edge_lines(d, d.edges.len() as int).last().len() > 0,
        some_free(d, d.order.len() as int) <==> free_lines(d, d.order.len() as int).len() > 0,
    ensures
        lines(definition_text(d)) == (seq!["graph "@ + direction_token(d.direction)] + part_block(
            d,
        ) + part_gap(d) + free_lines(d, d.order.len() as int) + part_sep(d) + edge_lines(
            d,
            d.edges.len() as int,
        )).push(Seq::<char>::empty()),
{
    let none = Seq::<char>::empty();
    let header = "graph "@ + direction_token(d.direction);
    let block = part_block(d);
    let gap = part_gap(d);
    let nodes = free_lines(d, d.order.len() as int);
    let sep = part_sep(d);
    let edges = edge_lines(d, d.edges.len() as int);
    lemma_header_round_trip(d.direction);
    let all = definition_lines(d);
    lemma_definition_parts(d);
    assert(all == seq![header] + block + gap + nodes + sep + edges);
    assert(clean(all)) by {
        assert(clean(seq![header]));
        assert(clean(gap));
        assert(clean(sep));
        lemma_clean_concat(seq![header], block);
        lemma_clean_concat(seq![header] + block, gap);
        lemma_clean_concat(seq![header] + block + gap, nodes);
        lemma_clean_concat(seq![header] + block + gap + nodes, sep);
        lemma_clean_concat(seq![header] + block + gap + nodes + sep, edges);
    }
    assert(all.len() > 0 && all.last().len() > 0) by {
        if d.edges.len() > 0 {
            assert(all.last() == edges.last());
        } else if nodes.len() > 0 {
            assert(all.last() == nodes.last());
        } else if block.len() > 0 {
            assert(all.last() == block.last());
        } else {
            assert(all.last() == header);
        }
    }
    lemma_text_of_lines(all);
}

/// Writing a diagram and reading the text back gives a diagram with the
/// same direction, the same nodes with their labels and shapes, and the
/// same edges in the same order. This holds of the diagrams whose ids and
/// labels are read back as they are written; an id such as `end`, or one
/// that holds an arrow, is not.
pub proof fn lemma_round_trip(d: DiagramView)
    requires
        d.wf(),
        d.order.len() > 0,
        d.subgraphs.len() <= usize::MAX,
        writable_all(d),
    ensures
        parse_text(definition_text(d)) is Ok,
        parse_text(definition_text(d))->Ok_0.direction == d.direction,
        parse_text(definition_text(d))->Ok_0.edges == d.edges,
        same_nodes(d, parse_text(definition_text(d))->Ok_0),
{
    let none = Seq::<char>::empty();
    let header = "graph "@ + direction_token(d.direction);
    let start = blank(d.direction);
    let block = part_block(d);
    let gap = part_gap(d);
    let nodes = free_lines(d, d.order.len() as int);
    let sep = part_sep(d);
    let edges = edge_lines(d, d.edges.len() as int);
    let (st1, st2, st3) = lemma_round_trip_states(d);
    assert(some_free(d, d.order.len() as int) <==> nodes.len() > 0) by {
        lemma_free_count(d, d.order.len() as int);
    }
    lemma_round_trip_text(d);
    lemma_header_round_trip(d.direction);
    let raws = lines(definition_text(d));
    let all = seq![header] + block + gap + nodes + sep + edges;
    assert(raws == all.push(none));
    assert(raws[0] == header);
    assert(first_significant(raws, 0) == 0);
    let rest = raws.subrange(1, raws.len() as int);
    assert(rest =~= block + gap + nodes + sep + edges + seq![none]);
    lemma_run_parts(start, block, gap, nodes, sep, edges, st1, st2, st3);
    lemma_round_trip_end(d, start, st1, st2, st3);
}

/// A node outside groups is written exactly where one of the nodes lies
/// outside groups.
proof fn lemma_free_count(d: DiagramView, upto: int)
    requires
        0 <= upto,
    ensures
        some_free(d, upto) <==> free_lines(d, upto).len() > 0,
    decreases upto,
{
    if upto > 0 {
        lemma_free_count(d, upto - 1);
    }
}

/// What the last state of reading holds, once every part is read.
proof fn lemma_round_trip_end(d: DiagramView, start: Draft, st1: Draft, st2: Draft, st3: Draft)
    requires
        d.order.len() > 0,
        start == blank(d.direction),
        continues(start, st1),
        continues(st1, st2),
        reading(st2, d),
        st3.open == st2.open,
        st3.d == (DiagramView {
            edges: st2.d.edges + d.edges.take(d.edges.len() as int),
            ..st2.d
        }),
        forall|i: int| 0 <= i < d.order.len() ==> st2.d.order.contains(#[trigger] d.order[i]),
    ensures
        finish(st3) == Ok::<DiagramView, ParseError>(st3.d),
        st3.d.direction == d.direction,
        st3.d.edges == d.edges,
        same_nodes(d, st3.d),
{
    assert(st3.d.order.contains(d.order[0]));
    assert(st3.d.order.len() > 0);
    assert(st3.open.len() == 0);
    assert(st3.d.edges =~= d.edges) by {
        assert(d.edges.take(d.edges.len() as int) =~= d.edges);
    }
    assert forall|j: int| 0 <= j < st3.d.order.len() implies d.order.contains(
        #[trigger] st3.d.order[j],
    ) && st3.d.nodes[j] == d.nodes[position(d.order, st3.d.order[j])] by {
        assert(d.order.contains(st2.d.order[j]));
    }
}

} // verus!
