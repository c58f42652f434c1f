//! What an edge and a node look like once style overrides are applied, and
//! the lines of an edge label.

use vstd::prelude::*;
use crate::definition::shape_fill;
use crate::model::{EdgeKind, NodeShape};
use crate::overrides::{EdgeArrowDirection, EdgeStyleOverride, NodeStyleOverride};
use crate::svg::Stroke;
use crate::text::{chars_of, lines, rows, split_lines, string_of, texts};

verus! {

/// The colours of a node: inside, outline and label.
#[derive(Clone, Debug)]
pub struct NodeColors {
    pub fill: String,
    pub stroke: String,
    pub text: String,
}

/// The text of `chosen` if there is one, else `default`.
pub open spec fn text_or(chosen: Option<String>, default: Seq<char>) -> Seq<char> {
    match chosen {
        Some(s) => s@,
        None => default,
    }
}

/// The kind of line of an edge of kind `kind` under the style `style`.
pub open spec fn line_under(kind: EdgeKind, style: Option<EdgeStyleOverride>) -> EdgeKind {
    match style {
        Some(s) => match s.line {
            Some(l) => l,
            None => kind,
        },
        None => kind,
    }
}

/// The arrowheads of an edge under the style `style`: forward by default.
pub open spec fn arrow_under(style: Option<EdgeStyleOverride>) -> EdgeArrowDirection {
    match style {
        Some(s) => match s.arrow {
            Some(a) => a,
            None => EdgeArrowDirection::Forward,
        },
        None => EdgeArrowDirection::Forward,
    }
}

/// The colour of an edge under the style `style`: a dark grey by default.
pub open spec fn color_under(style: Option<EdgeStyleOverride>) -> Seq<char> {
    match style {
        Some(s) => text_or(s.color, "#2d3748"@),
        None => "#2d3748"@,
    }
}

/// A copy of `chosen` if there is one, else of `default`.
fn string_or(chosen: &Option<String>, default: &str) -> (r: String)
    ensures
        r@ == text_or(*chosen, default@),
{
    match chosen {
        Some(s) => s.clone(),
        None => string_of(&chars_of(default)),
    }
}

/// How the line of an edge of kind `kind` is drawn under `style`: each
/// part of the style that is set replaces the default.
pub fn resolve_edge_stroke(kind: EdgeKind, style: Option<&EdgeStyleOverride>) -> (r: Stroke)
    ensures
        r.color@ == color_under(
            match style {
                Some(s) => Some(*s),
                None => None,
            },
        ),
        r.dashed == (line_under(
            kind,
            match style {
                Some(s) => Some(*s),
                None => None,
            },
        ) == EdgeKind::Dashed),
        r.marker_start == ({
            let a = arrow_under(
                match style {
                    Some(s) => Some(*s),
                    None => None,
                },
            );
            a == EdgeArrowDirection::Backward || a == EdgeArrowDirection::Both
        }),
        r.marker_end == ({
            let a = arrow_under(
                match style {
                    Some(s) => Some(*s),
                    None => None,
                },
            );
            a == EdgeArrowDirection::Forward || a == EdgeArrowDirection::Both
        }),
{
    match style {
        Some(s) => {
            let line = match s.line {
                Some(l) => l,
                None => kind,
            };
            let arrow = match s.arrow {
                Some(a) => a,
                None => EdgeArrowDirection::Forward,
            };
            Stroke {
                color: string_or(&s.color, "#2d3748"),
                dashed: line == EdgeKind::Dashed,
                marker_start: arrow.marker_start(),
                marker_end: arrow.marker_end(),
            }
        },
        None => Stroke {
            color: string_of(&chars_of("#2d3748")),
            dashed: kind == EdgeKind::Dashed,
            marker_start: false,
            marker_end: true,
        },
    }
}

/// The colours of a node of `shape` under `style`: the fill of the shape,
/// a dark outline and a dark label, each replaced where the style sets it.
pub fn resolve_node_colors(shape: NodeShape, style: Option<&NodeStyleOverride>) -> (r: NodeColors)
    ensures
        r.fill@ == match style {
            Some(s) => text_or(s.fill, shape_fill(shape)),
            None => shape_fill(shape),
        },
        r.stroke@ == match style {
            Some(s) => text_or(s.stroke, "#2d3748"@),
            None => "#2d3748"@,
        },
        r.text@ == match style {
            Some(s) => text_or(s.text, "#1a202c"@),
            None => "#1a202c"@,
        },
{
    match style {
        Some(s) => NodeColors {
            fill: string_or(&s.fill, shape.default_fill_color()),
            stroke: string_or(&s.stroke, "#2d3748"),
            text: string_or(&s.text, "#1a202c"),
        },
        None => NodeColors {
            fill: string_of(&chars_of(shape.default_fill_color())),
            stroke: string_of(&chars_of("#2d3748")),
            text: string_of(&chars_of("#1a202c")),
        },
    }
}

/// What is written for a line of a label: a blank for an empty line.
pub open spec fn shown_line(line: Seq<char>) -> Seq<char> {
    if line.len() == 0 {
        " "@
    } else {
        line
    }
}

/// The lines of a label: the pieces between its line feeds, with a blank
/// in place of an empty piece.
pub open spec fn label_rows(label: Seq<char>) -> Seq<Seq<char>> {
    Seq::new(lines(label).len(), |i: int| shown_line(lines(label)[i]))
}

/// The lines of the label `label`.
pub fn normalize_label_lines(label: &str) -> (r: Vec<String>)
    ensures
        texts(r@) == label_rows(label@),
{
    let pieces = split_lines(&chars_of(label));
    let mut out: Vec<String> = Vec::new();
    let mut i: usize = 0;
    while i < pieces.len()
        invariant
            i <= pieces.len(),
            rows(pieces@) == lines(label@),
            texts(out@) == label_rows(label@).take(i as int),
        decreases pieces.len() - i,
    {
        let ghost before = texts(out@);
        let line = if pieces[i].len() == 0 {
            string_of(&chars_of(" "))
        } else {
            string_of(&pieces[i])
        };
        proof {
            assert(rows(pieces@)[i as int] == pieces@[i as int]@);
        }
        out.push(line);
        proof {
            assert(texts(out@) =~= before.push(line@));
            assert(texts(out@) =~= label_rows(label@).take(i + 1));
        }
        i += 1;
    }
    proof {
        assert(texts(out@) =~= label_rows(label@));
    }
    out
}

/// The length of the longest among the first `upto` lines.
pub open spec fn longest(rows: Seq<Seq<char>>, upto: int) -> nat
    decreases upto,
{
    if upto <= 0 {
        0
    } else {
        let before = longest(rows, upto - 1);
        if before < rows[upto - 1].len() {
            rows[upto - 1].len()
        } else {
            before
        }
    }
}

/// The extent of a label in characters: the length of its longest line,
/// and the number of its lines.
pub fn label_extent(lines: &Vec<String>) -> (r: (usize, usize))
    ensures
        r.0 == longest(texts(lines@), lines@.len() as int),
        r.1 == lines@.len(),
{
    let mut widest: usize = 0;
    let mut i: usize = 0;
    while i < lines.len()
        invariant
            i <= lines.len(),
            widest == longest(texts(lines@), i as int),
        decreases lines.len() - i,
    {
        let count = lines[i].as_str().unicode_len();
        if widest < count {
            widest = count;
        }
        i += 1;
    }
    (widest, lines.len())
}

} // verus!
