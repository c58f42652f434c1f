//! Writing a diagram and reading the text back.

use vstd::prelude::*;
use crate::definition::{
    arrow_text, definition_lines, definition_text, direction_token, edge_lines, edge_text,
    free_lines, grouped, joined, node_text, root_lines, roots, without_trailing_blanks,
};
use crate::grammar::{
    blank, edge_split, edge_target, first_significant, header_direction, inner, intern, open_path,
    operand, parse_text, run, significant, step, wrapped, Draft, OperandView, ParseError,
};
use crate::model::{DiagramView, Direction, EdgeKind, EdgeView, NodeShape};
use crate::text::{
    eq_ignore_case, find_class, find_sub, has_at, in_class, is_space, lines, lower, starts_with,
    trim, CharClass,
};
use crate::text_laws::{
    free_of, lemma_find_at, lemma_find_nothing, lemma_lines_concat, lemma_lines_single,
    lemma_sub_absent, lemma_sub_at, lemma_trim_blank, lemma_trim_padded, lemma_trim_tight, tight,
};

verus! {

/// The first `k` lines, each ended by a line feed, split into these lines
/// and an empty line, where no line holds a line feed.
pub proof fn lemma_lines_of_joined(ls: Seq<Seq<char>>, k: int)
    requires
        1 <= k <= ls.len(),
        forall|i: int| 0 <= i < ls.len() ==> free_of(#[trigger] ls[i], CharClass::Newline),
    ensures
        lines(joined(ls, k) + "\n"@) == ls.take(k).push(Seq::<char>::empty()),
    decreases k,
{
    reveal_strlit("\n");
    if k == 1 {
        lemma_lines_single(ls[0]);
        assert(ls.take(1).push(Seq::<char>::empty()) =~= seq![ls[0], Seq::<char>::empty()]);
    } else {
        lemma_lines_of_joined(ls, k - 1);
        let a = joined(ls, k - 1) + "\n"@;
        let b = ls[k - 1] + "\n"@;
        assert(joined(ls, k) + "\n"@ =~= a + b);
        assert(a[a.len() - 1] == '\n');
        lemma_lines_concat(a, b, 0);
        lemma_lines_single(ls[k - 1]);
        assert(ls.take(k - 1).push(Seq::<char>::empty()).drop_last() =~= ls.take(k - 1));
        assert(ls.take(k - 1) + seq![ls[k - 1], Seq::<char>::empty()] =~= ls.take(k).push(
            Seq::<char>::empty(),
        ));
    }
}

/// The header that is written for a direction is read as that direction.
pub proof fn lemma_header_round_trip(direction: Direction)
    ensures
        trim("graph "@ + direction_token(direction)) == "graph "@ + direction_token(direction),
        significant("graph "@ + direction_token(direction)),
        free_of("graph "@ + direction_token(direction), CharClass::Newline),
        header_direction("graph "@ + direction_token(direction)) == Ok::<Direction, ParseError>(
            direction,
        ),
{
    reveal_strlit("graph ");
    reveal_strlit("graph");
    reveal_strlit("TD");
    reveal_strlit("TB");
    reveal_strlit("LR");
    reveal_strlit("BT");
    reveal_strlit("RL");
    reveal_strlit("%%");
    let token = direction_token(direction);
    let line = "graph "@ + token;
    assert(line.len() == 8);
    assert(line[0] == 'g' && line[1] == 'r' && line[2] == 'a' && line[3] == 'p' && line[4] == 'h'
        && line[5] == ' ');
    assert(line[6] == token[0] && line[7] == token[1]);
    assert(!is_space(line[6]) && !is_space(line[7]));
    lemma_trim_tight(line);
    assert(!starts_with(line, "%%"@)) by {
        if starts_with(line, "%%"@) {
            assert(line.subrange(0, 2)[0] == line[0]);
        }
    }
    lemma_find_at(line, CharClass::Solid, 0, 0);
    lemma_find_at(line, CharClass::Space, 0, 5);
    lemma_find_at(line, CharClass::Solid, 5, 6);
    lemma_find_nothing(line, CharClass::Space, 6);
    assert(find_class(line, CharClass::Solid, 8) == 8);
    assert(line.subrange(0, 5) =~= "graph"@);
    assert(line.subrange(6, 8) =~= token);
    assert(eq_ignore_case("graph"@, "graph"@));
    assert(lower('T') == 't' && lower('D') == 'd' && lower('B') == 'b' && lower('L') == 'l'
        && lower('R') == 'r');
    match direction {
        Direction::TopDown => {
            assert(eq_ignore_case(token, "TD"@));
        },
        Direction::BottomTop => {
            assert(!eq_ignore_case(token, "TD"@)) by {
                assert(lower(token[0]) != lower("TD"@[0]));
            }
            assert(!eq_ignore_case(token, "TB"@)) by {
                assert(lower(token[0]) != lower("TB"@[0]));
            }
            assert(eq_ignore_case(token, "BT"@));
        },
        Direction::LeftRight => {
            assert(!eq_ignore_case(token, "TD"@)) by {
                assert(lower(token[0]) != lower("TD"@[0]));
            }
            assert(!eq_ignore_case(token, "TB"@)) by {
                assert(lower(token[0]) != lower("TB"@[0]));
            }
            assert(!eq_ignore_case(token, "BT"@)) by {
                assert(lower(token[0]) != lower("BT"@[0]));
            }
            assert(eq_ignore_case(token, "LR"@));
        },
        Direction::RightLeft => {
            assert(!eq_ignore_case(token, "TD"@)) by {
                assert(lower(token[0]) != lower("TD"@[0]));
            }
            assert(!eq_ignore_case(token, "TB"@)) by {
                assert(lower(token[0]) != lower("TB"@[0]));
            }
            assert(!eq_ignore_case(token, "BT"@)) by {
                assert(lower(token[0]) != lower("BT"@[0]));
            }
            assert(!eq_ignore_case(token, "LR"@)) by {
                assert(lower(token[0]) != lower("LR"@[0]));
            }
            assert(eq_ignore_case(token, "RL"@));
        },
    }
    assert forall|i: int| 0 <= i < line.len() implies !in_class(
        CharClass::Newline,
        #[trigger] line[i],
    ) by {
        if i >= 6 {
            assert(line[i] == token[i - 6]);
        }
    }
}

/// Whether `c` may stand in an id or a label that is written and read back:
/// any character but the line feed and `>`, which ends an arrow.
pub open spec fn plain_char(c: char) -> bool {
    c != '\n' && c != '>'
}

/// Whether every character of `s` is plain.
pub open spec fn plain(s: Seq<char>) -> bool {
    forall|i: int| 0 <= i < s.len() ==> plain_char(#[trigger] s[i])
}

/// The ids that are read back as they are written: not empty, without
/// white space at either end, without `[`, `(`, `{`, not beginning with `|`,
/// with a keyword or with the comment token.
pub open spec fn good_id(id: Seq<char>) -> bool {
    &&& id.len() > 0
    &&& tight(id)
    &&& plain(id)
    &&& free_of(id, CharClass::Opener)
    &&& id[0] != '|'
    &&& !starts_with(id, "subgraph"@)
    &&& !starts_with(id, "%%"@)
    &&& !eq_ignore_case(id, "end"@)
}

/// The node labels that are read back as they are written: not empty and
/// without white space at either end; that of a stadium not in brackets of
/// its own, which would be read as the double brackets of a circle.
pub open spec fn good_label(shape: NodeShape, label: Seq<char>) -> bool {
    &&& label.len() > 0
    &&& tight(label)
    &&& plain(label)
    &&& shape == NodeShape::Stadium ==> !(label[0] == '(' && label[label.len() - 1] == ')')
}

/// What holds of a line that is read as a node line and denotes the node
/// `op`.
pub open spec fn reads_as_node(line: Seq<char>, op: OperandView) -> bool {
    &&& line.len() > 0
    &&& tight(line)
    &&& trim(line) == line
    &&& significant(line)
    &&& free_of(line, CharClass::Newline)
    &&& !starts_with(line, "subgraph"@)
    &&& !eq_ignore_case(line, "end"@)
    &&& edge_split(line) is None
    &&& operand(line) == Ok::<OperandView, ParseError>(op)
}

/// No keyword and no comment begins a line that begins with a good id,
/// followed by nothing or by a character that no keyword holds.
pub proof fn lemma_no_keyword(id: Seq<char>, rest: Seq<char>)
    requires
        good_id(id),
        rest.len() > 0 ==> in_class(CharClass::Opener, rest[0]) || rest[0] == ' ',
    ensures
        !starts_with(id + rest, "subgraph"@),
        !starts_with(id + rest, "%%"@),
        !eq_ignore_case(id + rest, "end"@),
        (id + rest).len() > 0,
{
    reveal_strlit("subgraph");
    reveal_strlit("%%");
    reveal_strlit("end");
    let line = id + rest;
    let n = id.len() as int;
    let kw = "subgraph"@;
    assert(kw.len() == 8);
    assert(kw[0] == 's' && kw[1] == 'u' && kw[2] == 'b' && kw[3] == 'g' && kw[4] == 'r' && kw[5]
        == 'a' && kw[6] == 'p' && kw[7] == 'h');
    if starts_with(line, kw) {
        let head = line.subrange(0, 8);
        if n >= 8 {
            assert(id.subrange(0, 8) =~= head);
            assert(false);
        } else {
            assert(head[n] == line[n]);
            assert(line[n] == rest[0]);
            assert(false);
        }
    }
    let pc = "%%"@;
    assert(pc.len() == 2 && pc[0] == '%' && pc[1] == '%');
    if starts_with(line, pc) {
        let head = line.subrange(0, 2);
        if n >= 2 {
            assert(id.subrange(0, 2) =~= head);
            assert(false);
        } else {
            assert(head[n] == line[n]);
            assert(line[n] == rest[0]);
            assert(false);
        }
    }
    let end = "end"@;
    assert(end.len() == 3 && end[0] == 'e' && end[1] == 'n' && end[2] == 'd');
    if eq_ignore_case(line, end) {
        if rest.len() == 0 {
            assert(line =~= id);
            assert(false);
        } else {
            assert(n < 3);
            assert(line[n] == rest[0]);
            assert(lower(line[n]) == lower(end[n]));
            assert(false);
        }
    }
}

/// A line without `>` holds no arrow.
pub proof fn lemma_no_arrow(line: Seq<char>)
    requires
        forall|i: int| 0 <= i < line.len() ==> #[trigger] line[i] != '>',
    ensures
        edge_split(line) is None,
{
    reveal_strlit("-.->");
    reveal_strlit("-->");
    lemma_sub_absent(line, "-.->"@, '>', 0);
    lemma_sub_absent(line, "-->"@, '>', 0);
}

/// A good id alone on a line is read as a rectangle whose label is the id.
pub proof fn lemma_bare_line(id: Seq<char>)
    requires
        good_id(id),
    ensures
        reads_as_node(id, OperandView { id, label: id, shape: NodeShape::Rectangle }),
{
    let none = Seq::<char>::empty();
    lemma_no_keyword(id, none);
    assert(id + none =~= id);
    lemma_trim_tight(id);
    lemma_no_arrow(id);
    lemma_find_nothing(id, CharClass::Opener, 0);
    let n = id.len() as int;
    assert(id.subrange(0, n) =~= id);
    assert(id.subrange(n, n) =~= none);
    lemma_trim_tight(none);
}

/// A good id followed by a good label in brackets makes a line that is
/// kept as it is, and that is no keyword, no comment and no edge line.
proof fn lemma_bracketed_kind(id: Seq<char>, left: Seq<char>, label: Seq<char>, right: Seq<char>)
    requires
        good_id(id),
        plain(label),
        1 <= left.len() == right.len(),
        in_class(CharClass::Opener, left[0]),
        forall|i: int| 0 <= i < left.len() ==> plain_char(#[trigger] left[i]) && !is_space(left[i]),
        forall|i: int|
            0 <= i < right.len() ==> plain_char(#[trigger] right[i]) && !is_space(right[i]),
    ensures
        ({
            let line = id + left + label + right;
            &&& trim(line) == line
            &&& significant(line)
            &&& free_of(line, CharClass::Newline)
            &&& !starts_with(line, "subgraph"@)
            &&& !eq_ignore_case(line, "end"@)
            &&& edge_split(line) is None
        }),
{
    let rem = left + label + right;
    let line = id + left + label + right;
    let n = id.len() as int;
    let k = left.len() as int;
    assert(line =~= id + rem);
    assert(rem[0] == left[0]);
    lemma_no_keyword(id, rem);
    assert(line[0] == id[0]);
    assert(line[line.len() - 1] == right[right.len() - 1]);
    lemma_trim_tight(line);
    assert forall|i: int| 0 <= i < line.len() implies plain_char(#[trigger] line[i]) by {
        if i < n {
            assert(line[i] == id[i]);
        } else if i < n + k {
            assert(line[i] == left[i - n]);
        } else if i < n + k + label.len() {
            assert(line[i] == label[i - n - k]);
        } else {
            assert(line[i] == right[i - n - k - label.len()]);
        }
    }
    lemma_no_arrow(line);
}

/// A good id followed by a good label in brackets is read as the id, with
/// the brackets and what stands between them as its suffix.
proof fn lemma_bracketed_parts(id: Seq<char>, left: Seq<char>, label: Seq<char>, right: Seq<char>)
    requires
        good_id(id),
        label.len() > 0,
        tight(label),
        1 <= left.len() == right.len(),
        in_class(CharClass::Opener, left[0]),
        forall|i: int| 0 <= i < left.len() ==> !is_space(#[trigger] left[i]),
        forall|i: int| 0 <= i < right.len() ==> !is_space(#[trigger] right[i]),
    ensures
        ({
            let line = id + left + label + right;
            let rem = left + label + right;
            &&& find_class(line, CharClass::Opener, 0) == id.len()
            &&& trim(line.subrange(0, id.len() as int)) == id
            &&& trim(line.subrange(id.len() as int, line.len() as int)) == rem
            &&& wrapped(rem, left, right)
            &&& inner(rem, left.len() as int) == label
        }),
{
    let rem = left + label + right;
    let line = id + left + label + right;
    let n = id.len() as int;
    let k = left.len() as int;
    assert(line =~= id + rem);
    assert(line[n] == left[0]);
    assert forall|i: int| 0 <= i < n implies !in_class(CharClass::Opener, #[trigger] line[i]) by {
        assert(line[i] == id[i]);
    }
    lemma_find_at(line, CharClass::Opener, 0, n);
    assert(line.subrange(0, n) =~= id);
    lemma_trim_tight(id);
    assert(line.subrange(n, line.len() as int) =~= rem);
    assert(rem[0] == left[0]);
    assert(rem[rem.len() - 1] == right[right.len() - 1]);
    lemma_trim_tight(rem);
    assert(rem.subrange(0, k) =~= left);
    assert(rem.subrange(rem.len() - k, rem.len() as int) =~= right);
    assert(rem.subrange(k, rem.len() - k) =~= label);
    lemma_trim_tight(label);
}

/// Both of the above.
proof fn lemma_bracketed_line(id: Seq<char>, left: Seq<char>, label: Seq<char>, right: Seq<char>)
    requires
        good_id(id),
        label.len() > 0,
        tight(label),
        plain(label),
        1 <= left.len() == right.len(),
        in_class(CharClass::Opener, left[0]),
        forall|i: int| 0 <= i < left.len() ==> plain_char(#[trigger] left[i]) && !is_space(left[i]),
        forall|i: int|
            0 <= i < right.len() ==> plain_char(#[trigger] right[i]) && !is_space(right[i]),
    ensures
        ({
            let line = id + left + label + right;
            let rem = left + label + right;
            &&& trim(line) == line
            &&& significant(line)
            &&& free_of(line, CharClass::Newline)
            &&& !starts_with(line, "subgraph"@)
            &&& !eq_ignore_case(line, "end"@)
            &&& edge_split(line) is None
            &&& find_class(line, CharClass::Opener, 0) == id.len()
            &&& trim(line.subrange(0, id.len() as int)) == id
            &&& trim(line.subrange(id.len() as int, line.len() as int)) == rem
            &&& wrapped(rem, left, right)
            &&& inner(rem, left.len() as int) == label
        }),
{
    lemma_bracketed_kind(id, left, label, right);
    lemma_bracketed_parts(id, left, label, right);
}

/// The line that is written for a node with a good id and a good label is
/// read as a node line and denotes that node.
pub proof fn lemma_node_line(shape: NodeShape, id: Seq<char>, label: Seq<char>)
    requires
        good_id(id),
        good_label(shape, label),
    ensures
        reads_as_node(node_text(shape, id, label), OperandView { id, label, shape }),
{
    reveal_strlit("((");
    reveal_strlit("))");
    reveal_strlit("(");
    reveal_strlit(")");
    reveal_strlit("[");
    reveal_strlit("]");
    reveal_strlit("{");
    reveal_strlit("}");
    let line = node_text(shape, id, label);
    match shape {
        NodeShape::Rectangle => {
            if label == id {
                lemma_bare_line(id);
            } else {
                lemma_bracketed_line(id, "["@, label, "]"@);
                let rem = "["@ + label + "]"@;
                assert(rem[0] == '[');
                assert(!wrapped(rem, "(("@, "))"@)) by {
                    if starts_with(rem, "(("@) {
                        assert(rem.subrange(0, 2)[0] == rem[0]);
                    }
                }
                assert(!wrapped(rem, "("@, ")"@)) by {
                    if starts_with(rem, "("@) {
                        assert(rem.subrange(0, 1)[0] == rem[0]);
                    }
                }
            }
        },
        NodeShape::Stadium => {
            lemma_bracketed_line(id, "("@, label, ")"@);
            let rem = "("@ + label + ")"@;
            assert(!wrapped(rem, "(("@, "))"@)) by {
                if wrapped(rem, "(("@, "))"@) {
                    assert(rem.subrange(0, 2)[1] == rem[1]);
                    assert(rem[1] == label[0]);
                    let m = rem.len() as int;
                    assert(rem.subrange(m - 2, m)[0] == rem[m - 2]);
                    assert(rem[m - 2] == label[label.len() - 1]);
                }
            }
        },
        NodeShape::Circle => {
            lemma_bracketed_line(id, "(("@, label, "))"@);
        },
        NodeShape::Diamond => {
            lemma_bracketed_line(id, "{"@, label, "}"@);
            let rem = "{"@ + label + "}"@;
            assert(rem[0] == '{');
            assert(!wrapped(rem, "(("@, "))"@)) by {
                if starts_with(rem, "(("@) {
                    assert(rem.subrange(0, 2)[0] == rem[0]);
                }
            }
            assert(!wrapped(rem, "("@, ")"@)) by {
                if starts_with(rem, "("@) {
                    assert(rem.subrange(0, 1)[0] == rem[0]);
                }
            }
            assert(!wrapped(rem, "["@, "]"@)) by {
                if starts_with(rem, "["@) {
                    assert(rem.subrange(0, 1)[0] == rem[0]);
                }
            }
        },
    }
}

/// The edge labels that are read back as they are written: without white
/// space at either end and without `|`.
pub open spec fn good_edge_label(label: Option<Seq<char>>) -> bool {
    match label {
        Some(t) => tight(t) && plain(t) && free_of(t, CharClass::Bar),
        None => true,
    }
}

/// The operand that a bare id denotes.
pub open spec fn bare(id: Seq<char>) -> OperandView {
    OperandView { id, label: id, shape: NodeShape::Rectangle }
}

/// A line is split at its arrow, where nothing else in it holds `>` and a
/// blank precedes the arrow.
proof fn lemma_arrow_split(prefix: Seq<char>, kind: EdgeKind, suffix: Seq<char>)
    requires
        prefix.len() > 0,
        prefix[prefix.len() - 1] == ' ',
        forall|i: int| 0 <= i < prefix.len() ==> #[trigger] prefix[i] != '>',
        forall|i: int| 0 <= i < suffix.len() ==> #[trigger] suffix[i] != '>',
    ensures
        edge_split(prefix + arrow_text(kind) + suffix) == Some(
            (trim(prefix), trim(suffix), kind),
        ),
{
    reveal_strlit("-.->");
    reveal_strlit("-->");
    let arrow = arrow_text(kind);
    let line = prefix + arrow + suffix;
    let p = prefix.len() as int;
    let dashed = "-.->"@;
    let solid = "-->"@;
    assert(dashed.len() == 4 && dashed[0] == '-' && dashed[1] == '.' && dashed[2] == '-'
        && dashed[3] == '>');
    assert(solid.len() == 3 && solid[0] == '-' && solid[1] == '-' && solid[2] == '>');
    let tip = p + arrow.len() - 1;
    assert(line[tip] == '>');
    assert forall|i: int| 0 <= i < line.len() && i != tip implies #[trigger] line[i] != '>' by {
        if i < p {
            assert(line[i] == prefix[i]);
        } else if i < p + arrow.len() {
            assert(line[i] == arrow[i - p]);
        } else {
            assert(line[i] == suffix[i - p - arrow.len()]);
        }
    }
    assert(line[p - 1] == prefix[p - 1]);
    assert(line.subrange(0, p) =~= prefix);
    assert(line.subrange(p + arrow.len(), line.len() as int) =~= suffix);
    assert(line.subrange(p, p + arrow.len()) =~= arrow);
    match kind {
        EdgeKind::Solid => {
            assert forall|i: int| 0 <= i < line.len() implies !has_at(line, dashed, i) by {
                if has_at(line, dashed, i) {
                    let sub = line.subrange(i, i + 4);
                    assert(sub[3] == line[i + 3]);
                    assert(sub[0] == line[i]);
                    assert(i + 3 == tip);
                }
            }
            crate::text::lemma_find_sub_bounds(line, dashed, 0);
            assert(find_sub(line, dashed, 0) == line.len());
            assert forall|i: int| 0 <= i < p implies !has_at(line, solid, i) by {
                if has_at(line, solid, i) {
                    let sub = line.subrange(i, i + 3);
                    assert(sub[2] == line[i + 2]);
                }
            }
            assert(has_at(line, solid, p));
            lemma_sub_at(line, solid, 0, p);
        },
        EdgeKind::Dashed => {
            assert forall|i: int| 0 <= i < p implies !has_at(line, dashed, i) by {
                if has_at(line, dashed, i) {
                    let sub = line.subrange(i, i + 4);
                    assert(sub[3] == line[i + 3]);
                }
            }
            assert(has_at(line, dashed, p));
            lemma_sub_at(line, dashed, 0, p);
        },
    }
}

/// What follows the arrow in the line of an edge with the label `label`
/// and the target `to`.
pub open spec fn edge_suffix(label: Option<Seq<char>>, to: Seq<char>) -> Seq<char> {
    match label {
        Some(t) => "|"@ + t + "|"@ + " "@ + to,
        None => " "@ + to,
    }
}

/// The right side of an edge line gives the label and the target back.
proof fn lemma_edge_target(label: Option<Seq<char>>, to: Seq<char>)
    requires
        good_id(to),
        good_edge_label(label),
    ensures
        forall|i: int|
            0 <= i < edge_suffix(label, to).len() ==> plain_char(
                #[trigger] edge_suffix(label, to)[i],
            ),
        edge_suffix(label, to).len() > 0,
        !is_space(edge_suffix(label, to)[edge_suffix(label, to).len() - 1]),
        edge_target(trim(edge_suffix(label, to))) == Ok::<
            (Option<Seq<char>>, Seq<char>),
            ParseError,
        >((label, to)),
{
    reveal_strlit("|");
    reveal_strlit(" ");
    let none = Seq::<char>::empty();
    match label {
        None => {
            let suffix = " "@ + to;
            assert(suffix =~= " "@ + to + none);
            lemma_trim_padded(" "@, to, none);
            assert(suffix[suffix.len() - 1] == to[to.len() - 1]);
            assert forall|i: int| 0 <= i < suffix.len() implies plain_char(
                #[trigger] suffix[i],
            ) by {
                if i >= 1 {
                    assert(suffix[i] == to[i - 1]);
                }
            }
        },
        Some(t) => {
            let suffix = "|"@ + t + "|"@ + " "@ + to;
            let n = t.len() as int;
            assert(suffix[0] == '|');
            assert(suffix[suffix.len() - 1] == to[to.len() - 1]);
            assert forall|i: int| 0 <= i < suffix.len() implies plain_char(
                #[trigger] suffix[i],
            ) by {
                if 1 <= i < 1 + n {
                    assert(suffix[i] == t[i - 1]);
                } else if i >= n + 3 {
                    assert(suffix[i] == to[i - n - 3]);
                }
            }
            lemma_trim_tight(suffix);
            assert(suffix[n + 1] == '|');
            assert forall|i: int| 1 <= i < n + 1 implies !in_class(
                CharClass::Bar,
                #[trigger] suffix[i],
            ) by {
                assert(suffix[i] == t[i - 1]);
            }
            lemma_find_at(suffix, CharClass::Bar, 1, n + 1);
            assert(suffix.subrange(1, n + 1) =~= t);
            lemma_trim_tight(t);
            assert(suffix.subrange(n + 2, suffix.len() as int) =~= " "@ + to + none);
            lemma_trim_padded(" "@, to, none);
        },
    }
}

/// The line that is written for an edge between good ids with a good label
/// is read as that edge: both ends are declared, then the edge is added.
pub proof fn lemma_edge_line(e: EdgeView, st: Draft)
    requires
        good_id(e.from),
        good_id(e.to),
        good_edge_label(e.label),
    ensures
        free_of(edge_text(e), CharClass::Newline),
        edge_text(e).len() > 0,
        step(st, edge_text(e)) == ({
            let st2 = intern(intern(st, bare(e.from)), bare(e.to));
            Ok::<Draft, ParseError>(
                Draft { d: DiagramView { edges: st2.d.edges.push(e), ..st2.d }, open: st2.open },
            )
        }),
{
    reveal_strlit(" ");
    reveal_strlit("-.->");
    reveal_strlit("-->");
    let none = Seq::<char>::empty();
    let prefix = e.from + " "@;
    let suffix = edge_suffix(e.label, e.to);
    let arrow = arrow_text(e.kind);
    let line = edge_text(e);
    assert(line =~= prefix + arrow + suffix);
    assert(line =~= e.from + (" "@ + arrow + suffix));
    lemma_edge_target(e.label, e.to);
    assert((" "@ + arrow + suffix)[0] == ' ');
    lemma_no_keyword(e.from, " "@ + arrow + suffix);
    assert(line[0] == e.from[0]);
    assert(line[line.len() - 1] == suffix[suffix.len() - 1]);
    lemma_trim_tight(line);
    assert forall|i: int| 0 <= i < prefix.len() implies #[trigger] prefix[i] != '>' by {
        if i < e.from.len() {
            assert(prefix[i] == e.from[i]);
        }
    }
    assert forall|i: int| 0 <= i < suffix.len() implies #[trigger] suffix[i] != '>' by {
        assert(plain_char(edge_suffix(e.label, e.to)[i]));
    }
    lemma_arrow_split(prefix, e.kind, suffix);
    assert(prefix =~= none + e.from + " "@);
    lemma_trim_padded(none, e.from, " "@);
    lemma_bare_line(e.from);
    lemma_bare_line(e.to);
    let p = prefix.len() as int;
    assert forall|i: int| 0 <= i < line.len() implies !in_class(
        CharClass::Newline,
        #[trigger] line[i],
    ) by {
        if i < e.from.len() {
            assert(line[i] == e.from[i]);
        } else if i < p {
            assert(line[i] == ' ');
        } else if i < p + arrow.len() {
            assert(line[i] == arrow[i - p]);
        } else {
            assert(line[i] == suffix[i - p - arrow.len()]);
            assert(plain_char(edge_suffix(e.label, e.to)[i - p - arrow.len()]));
        }
    }
}

/// Whether `d` has no groups.
pub open spec fn flat(d: DiagramView) -> bool {
    &&& d.subgraphs.len() == 0
    &&& forall|i: int|
        0 <= i < d.node_membership.len() ==> (#[trigger] d.node_membership[i]).len() == 0
}

/// Whether every id and every label of `d` is read back as it is written.
pub open spec fn writable(d: DiagramView) -> bool {
    &&& forall|i: int| 0 <= i < d.order.len() ==> good_id(#[trigger] d.order[i])
    &&& forall|i: int|
        0 <= i < d.nodes.len() ==> good_label((#[trigger] d.nodes[i]).shape, d.nodes[i].label)
    &&& forall|e: int| 0 <= e < d.edges.len() ==> good_edge_label((#[trigger] d.edges[e]).label)
}

/// Reading two runs of lines is reading the first, then the second.
pub proof fn lemma_run_concat(st: Draft, a: Seq<Seq<char>>, b: Seq<Seq<char>>)
    ensures
        run(st, a + b) == match run(st, a) {
            Err(e) => Err::<Draft, ParseError>(e),
            Ok(mid) => run(mid, b),
        },
    decreases b.len(),
{
    if b.len() == 0 {
        assert(a + b =~= a);
    } else {
        lemma_run_concat(st, a, b.drop_last());
        assert((a + b).drop_last() =~= a + b.drop_last());
        assert((a + b).last() == b.last());
    }
}

/// An empty line changes nothing.
pub proof fn lemma_step_blank(st: Draft)
    ensures
        step(st, Seq::<char>::empty()) == Ok::<Draft, ParseError>(st),
        run(st, seq![Seq::<char>::empty()]) == Ok::<Draft, ParseError>(st),
{
    let none = Seq::<char>::empty();
    lemma_trim_blank(none);
    let one = seq![none];
    assert(one.drop_last() =~= Seq::<Seq<char>>::empty());
    assert(one.last() == none);
    assert(run(st, one.drop_last()) == Ok::<Draft, ParseError>(st));
}

/// The diagram that holds the first `k` nodes of `d` and nothing else.
pub open spec fn first_nodes(d: DiagramView, k: int) -> DiagramView {
    DiagramView {
        direction: d.direction,
        nodes: d.nodes.take(k),
        order: d.order.take(k),
        edges: Seq::empty(),
        subgraphs: Seq::empty(),
        node_membership: d.node_membership.take(k),
    }
}

/// Reading the lines of the first `k` nodes declares these nodes.
proof fn lemma_run_nodes(d: DiagramView, k: int)
    requires
        d.wf(),
        flat(d),
        writable(d),
        0 <= k <= d.order.len(),
    ensures
        free_lines(d, k).len() == k,
        forall|i: int|
            0 <= i < k ==> free_of(#[trigger] free_lines(d, k)[i], CharClass::Newline) && free_lines(
                d,
                k,
            )[i].len() > 0,
        run(blank(d.direction), free_lines(d, k)) == Ok::<Draft, ParseError>(
            Draft { d: first_nodes(d, k), open: Seq::empty() },
        ),
    decreases k,
{
    let start = blank(d.direction);
    if k == 0 {
        assert(first_nodes(d, 0).nodes =~= start.d.nodes);
        assert(first_nodes(d, 0).order =~= start.d.order);
        assert(first_nodes(d, 0).node_membership =~= start.d.node_membership);
    } else {
        lemma_run_nodes(d, k - 1);
        let i = k - 1;
        let id = d.order[i];
        let node = d.nodes[i];
        assert(good_id(d.order[i]));
        assert(good_label(d.nodes[i].shape, d.nodes[i].label));
        assert(!grouped(d, id, 0));
        let line = node_text(node.shape, id, node.label);
        let before = free_lines(d, i);
        assert(free_lines(d, k) == before.push(line));
        let op = OperandView { id, label: node.label, shape: node.shape };
        lemma_node_line(node.shape, id, node.label);
        let st = Draft { d: first_nodes(d, i), open: Seq::<usize>::empty() };
        assert(before.push(line).drop_last() =~= before);
        assert(run(start, before.push(line)) == step(st, line));
        assert(!st.d.order.contains(id)) by {
            if st.d.order.contains(id) {
                let j = choose|j: int| 0 <= j < st.d.order.len() && #[trigger] st.d.order[j] == id;
                assert(d.order[j] == d.order[i]);
            }
        }
        let st2 = intern(st, op);
        assert(st2.d.order =~= d.order.take(k));
        assert(st2.d.nodes =~= d.nodes.take(k));
        assert(open_path(st) =~= Seq::<Seq<char>>::empty());
        assert(d.node_membership[i] =~= Seq::<Seq<char>>::empty());
        assert(st2.d.node_membership =~= d.node_membership.take(k));
        assert(st2.d == first_nodes(d, k));
        assert forall|j: int| 0 <= j < k implies free_of(
            #[trigger] free_lines(d, k)[j],
            CharClass::Newline,
        ) && free_lines(d, k)[j].len() > 0 by {
            if j < i {
                assert(free_lines(d, k)[j] == before[j]);
            }
        }
    }
}

/// Reading the lines of the first `j` edges adds these edges.
proof fn lemma_run_edges(d: DiagramView, j: int)
    requires
        d.wf(),
        flat(d),
        writable(d),
        0 <= j <= d.edges.len(),
    ensures
        edge_lines(d, j).len() == j,
        forall|i: int|
            0 <= i < j ==> free_of(#[trigger] edge_lines(d, j)[i], CharClass::Newline) && edge_lines(
                d,
                j,
            )[i].len() > 0,
        run(
            Draft { d: first_nodes(d, d.order.len() as int), open: Seq::empty() },
            edge_lines(d, j),
        ) == Ok::<Draft, ParseError>(
            Draft {
                d: DiagramView {
                    edges: d.edges.take(j),
                    ..first_nodes(d, d.order.len() as int)
                },
                open: Seq::empty(),
            },
        ),
    decreases j,
{
    let n = d.order.len() as int;
    let start = Draft { d: first_nodes(d, n), open: Seq::<usize>::empty() };
    if j == 0 {
        assert(d.edges.take(0) =~= start.d.edges);
    } else {
        lemma_run_edges(d, j - 1);
        let e = d.edges[j - 1];
        let line = edge_text(e);
        let before = edge_lines(d, j - 1);
        assert(edge_lines(d, j) == before.push(line));
        assert(before.push(line).drop_last() =~= before);
        let st = Draft {
            d: DiagramView { edges: d.edges.take(j - 1), ..first_nodes(d, n) },
            open: Seq::<usize>::empty(),
        };
        assert(run(start, before.push(line)) == step(st, line));
        assert(d.order.contains(d.edges[j - 1].from) && d.order.contains(d.edges[j - 1].to));
        assert(st.d.order =~= d.order);
        let a = choose|a: int| 0 <= a < d.order.len() && #[trigger] d.order[a] == e.from;
        let b = choose|b: int| 0 <= b < d.order.len() && #[trigger] d.order[b] == e.to;
        assert(good_id(d.order[a]) && good_id(d.order[b]));
        assert(good_edge_label(d.edges[j - 1].label));
        lemma_edge_line(e, st);
        assert(intern(st, bare(e.from)) == st);
        assert(intern(st, bare(e.to)) == st);
        assert(d.edges.take(j - 1).push(e) =~= d.edges.take(j));
        assert forall|i: int| 0 <= i < j implies free_of(
            #[trigger] edge_lines(d, j)[i],
            CharClass::Newline,
        ) && edge_lines(d, j)[i].len() > 0 by {
            if i < j - 1 {
                assert(edge_lines(d, j)[i] == before[i]);
            }
        }
    }
}

/// Trailing blanks are cut off nowhere but at the end.
pub proof fn lemma_no_trailing_blank(ls: Seq<Seq<char>>)
    requires
        ls.len() > 0,
        ls.last().len() > 0,
    ensures
        without_trailing_blanks(ls) == ls,
{
}

/// Writing a diagram without groups and reading the text back gives the
/// diagram again: the same direction, the same nodes with their labels and
/// shapes in the same order, and the same edges in the same order. This
/// holds of the diagrams whose ids and labels are read back as they are
/// written; an id such as `end`, or one that holds an arrow, is not.
pub proof fn lemma_round_trip_flat(d: DiagramView)
    requires
        d.wf(),
        d.order.len() > 0,
        flat(d),
        writable(d),
    ensures
        parse_text(definition_text(d)) == Ok::<DiagramView, ParseError>(d),
{
    let n = d.order.len() as int;
    let m = d.edges.len() as int;
    let none = Seq::<char>::empty();
    let header = "graph "@ + direction_token(d.direction);
    let nodes = free_lines(d, n);
    let edges = edge_lines(d, m);
    lemma_header_round_trip(d.direction);
    lemma_run_nodes(d, n);
    lemma_run_edges(d, m);
    assert(roots(d, 0) =~= Seq::<usize>::empty());
    let tops = roots(d, d.subgraphs.len() as int);
    assert(root_lines(d, tops, 0) =~= Seq::<Seq<char>>::empty());
    let gap = if m > 0 {
        seq![none]
    } else {
        Seq::<Seq<char>>::empty()
    };
    let all = definition_lines(d);
    assert(all =~= seq![header] + nodes + gap + edges);
    assert(all.len() == 1 + n + gap.len() + m);
    assert(all.last().len() > 0) by {
        if m > 0 {
            assert(all.last() == edges[m - 1]);
        } else {
            assert(all.last() == nodes[n - 1]);
        }
    }
    lemma_no_trailing_blank(all);
    assert forall|i: int| 0 <= i < all.len() implies free_of(
        #[trigger] all[i],
        CharClass::Newline,
    ) by {
        if i == 0 {
        } else if i < 1 + n {
            assert(all[i] == nodes[i - 1]);
        } else if i < 1 + n + gap.len() {
            assert(all[i] == none);
        } else {
            assert(all[i] == edges[i - 1 - n - gap.len()]);
        }
    }
    lemma_lines_of_joined(all, all.len() as int);
    assert(all.take(all.len() as int) =~= all);
    let raws = lines(definition_text(d));
    assert(raws == all.push(none));
    assert(raws[0] == header);
    assert(first_significant(raws, 0) == 0);
    let rest = raws.subrange(1, raws.len() as int);
    assert(rest =~= nodes + (gap + (edges + seq![none])));
    let start = blank(d.direction);
    let after_nodes = Draft { d: first_nodes(d, n), open: Seq::<usize>::empty() };
    let after_edges = Draft {
        d: DiagramView { edges: d.edges.take(m), ..first_nodes(d, n) },
        open: Seq::<usize>::empty(),
    };
    lemma_run_concat(start, nodes, gap + (edges + seq![none]));
    lemma_run_concat(after_nodes, gap, edges + seq![none]);
    lemma_step_blank(after_nodes);
    lemma_run_concat(after_nodes, edges, seq![none]);
    lemma_step_blank(after_edges);
    assert(run(after_nodes, gap) == Ok::<Draft, ParseError>(after_nodes));
    assert(run(start, rest) == Ok::<Draft, ParseError>(after_edges));
    assert(after_edges.d.nodes =~= d.nodes);
    assert(after_edges.d.order =~= d.order);
    assert(after_edges.d.edges =~= d.edges);
    assert(after_edges.d.subgraphs =~= d.subgraphs);
    assert(after_edges.d.node_membership =~= d.node_membership);
    assert(after_edges.d == d);
}

} // verus!
