//! A source text: a diagram definition, with or without a block of comment
//! lines that holds the layout overrides.
//!
//! The block begins with the line `%% oxdraw-layout` and ends with the line
//! `%% oxdraw-layout-end`. Inside it each line may begin with the comment
//! token, which is cut off. What the block holds is handed on as text.

use vstd::prelude::*;
use crate::definition::{append, append_str, joined};
use crate::text::{
    chars_of, copy_of, eq_ignore_case, eq_ignore_case_in, find_class, find_class_in, lines, rows,
    slice_of, split_lines, starts_with, starts_with_in, string_of, trim, trimmed, CharClass,
};

verus! {

/// Why a source text cannot be split.
#[derive(Clone, Copy, Debug, PartialEq, Eq, Structural)]
pub enum SourceError {
    /// A block begins inside a block.
    NestedBlock,
    /// A block ends where none has begun.
    EndWithoutStart,
    /// A block does not end.
    UnterminatedBlock,
}

/// The two parts of a source text.
#[derive(Clone, Debug)]
pub struct SourceParts {
    /// The definition: the lines outside the block.
    pub definition: String,
    /// What the block holds, if there is a block.
    pub layout: Option<String>,
}

/// What is known while the lines are read.
pub struct Split {
    pub in_block: bool,
    pub found: bool,
    pub definition: Seq<Seq<char>>,
    pub layout: Seq<Seq<char>>,
}

/// `line` without one carriage return at its end.
pub open spec fn without_return(line: Seq<char>) -> Seq<char> {
    if line.len() > 0 && line[line.len() - 1] == '\r' {
        line.subrange(0, line.len() - 1)
    } else {
        line
    }
}

/// The lines of a text: each ends with a line feed, which is cut off
/// together with a carriage return before it; what follows the last line
/// feed is a line as it stands, unless it is empty.
pub open spec fn source_lines(text: Seq<char>) -> Seq<Seq<char>> {
    let pieces = lines(text);
    let ended = Seq::new((pieces.len() - 1) as nat, |i: int| without_return(pieces[i]));
    if pieces.len() > 0 && pieces.last().len() > 0 {
        ended.push(pieces.last())
    } else {
        ended
    }
}

/// `line` without leading white space.
pub open spec fn trim_start(line: Seq<char>) -> Seq<char> {
    line.subrange(find_class(line, CharClass::Solid, 0), line.len() as int)
}

/// What a line inside the block holds: the line without leading white
/// space, without the comment token and without white space after it.
pub open spec fn block_content(line: Seq<char>) -> Seq<char> {
    let segment = trim_start(line);
    if starts_with(segment, "%%"@) {
        trim_start(segment.subrange("%%"@.len() as int, segment.len() as int))
    } else {
        segment
    }
}

/// Reads one line.
pub open spec fn split_step(st: Split, line: Seq<char>) -> Result<Split, SourceError> {
    let t = trim(line);
    if eq_ignore_case(t, "%% oxdraw-layout"@) {
        if st.in_block {
            Err(SourceError::NestedBlock)
        } else {
            Ok(Split { in_block: true, found: true, ..st })
        }
    } else if eq_ignore_case(t, "%% oxdraw-layout-end"@) {
        if !st.in_block {
            Err(SourceError::EndWithoutStart)
        } else {
            Ok(Split { in_block: false, ..st })
        }
    } else if st.in_block {
        if t.len() == 0 {
            Ok(st)
        } else {
            Ok(Split { layout: st.layout.push(block_content(line)), ..st })
        }
    } else {
        Ok(Split { definition: st.definition.push(line), ..st })
    }
}

/// Reads the first `upto` lines.
pub open spec fn split_run(ls: Seq<Seq<char>>, upto: int) -> Result<Split, SourceError>
    decreases upto,
{
    if upto <= 0 {
        Ok(Split { in_block: false, found: false, definition: Seq::empty(), layout: Seq::empty() })
    } else {
        match split_run(ls, upto - 1) {
            Err(e) => Err(e),
            Ok(st) => split_step(st, ls[upto - 1]),
        }
    }
}

/// The definition and the content of the block of the source `text`: the
/// lines of each, joined by line feeds; the definition ends with a line
/// feed if the source does.
pub open spec fn split_text(text: Seq<char>) -> Result<(Seq<char>, Option<Seq<char>>), SourceError> {
    let ls = source_lines(text);
    match split_run(ls, ls.len() as int) {
        Err(e) => Err(e),
        Ok(st) => if st.in_block {
            Err(SourceError::UnterminatedBlock)
        } else {
            let body = joined(st.definition, st.definition.len() as int);
            let definition = if text.len() > 0 && text[text.len() - 1] == '\n' {
                body + "\n"@
            } else {
                body
            };
            Ok(
                (
                    definition,
                    if st.found {
                        Some(joined(st.layout, st.layout.len() as int))
                    } else {
                        None
                    },
                ),
            )
        },
    }
}

/// A failure among the first `k` lines is the failure of the whole.
proof fn lemma_split_failure(ls: Seq<Seq<char>>, k: int, n: int)
    requires
        0 <= k <= n,
        split_run(ls, k) is Err,
    ensures
        split_run(ls, n) == split_run(ls, k),
    decreases n,
{
    if k < n {
        lemma_split_failure(ls, k, n - 1);
    }
}

/// The lines of `text`.
fn source_lines_of(text: &Vec<char>) -> (r: Vec<Vec<char>>)
    ensures
        rows(r@) == source_lines(text@),
{
    let pieces = split_lines(text);
    let ghost ps = lines(text@);
    let mut out: Vec<Vec<char>> = Vec::new();
    if pieces.len() == 0 {
        assert(rows(out@) =~= source_lines(text@));
        return out;
    }
    let last = pieces.len() - 1;
    let ghost ended = Seq::new((ps.len() - 1) as nat, |i: int| without_return(ps[i]));
    let mut i: usize = 0;
    assert(rows(out@) =~= ended.take(0));
    while i < last
        invariant
            i <= last,
            last == pieces.len() - 1,
            rows(pieces@) == ps,
            ended == Seq::new((ps.len() - 1) as nat, |i: int| without_return(ps[i])),
            rows(out@) == ended.take(i as int),
        decreases last - i,
    {
        let piece = &pieces[i];
        let ghost before = rows(out@);
        assert(rows(pieces@)[i as int] == piece@);
        let line = if piece.len() > 0 && piece[piece.len() - 1] == '\r' {
            slice_of(piece, 0, piece.len() - 1)
        } else {
            copy_of(piece)
        };
        out.push(line);
        proof {
            assert(rows(out@) =~= before.push(line@));
            assert(rows(out@) =~= ended.take(i + 1));
        }
        i += 1;
    }
    proof {
        assert(ended.take(last as int) =~= ended);
        assert(rows(pieces@)[last as int] == pieces@[last as int]@);
    }
    if pieces[last].len() > 0 {
        let ghost before = rows(out@);
        let line = copy_of(&pieces[last]);
        out.push(line);
        proof {
            assert(rows(out@) =~= before.push(line@));
        }
    }
    out
}

/// `line` without leading white space.
fn trim_start_of(line: &Vec<char>) -> (r: Vec<char>)
    ensures
        r@ == trim_start(line@),
{
    let a = find_class_in(line, CharClass::Solid, 0);
    slice_of(line, a, line.len())
}

/// What a line inside the block holds.
fn block_content_of(line: &Vec<char>) -> (r: Vec<char>)
    ensures
        r@ == block_content(line@),
{
    let segment = trim_start_of(line);
    let token = chars_of("%%");
    if starts_with_in(&segment, &token) {
        let rest = slice_of(&segment, token.len(), segment.len());
        trim_start_of(&rest)
    } else {
        segment
    }
}

/// Joins `ls` with line feeds.
fn join_lines(ls: &Vec<Vec<char>>) -> (r: Vec<char>)
    ensures
        r@ == joined(rows(ls@), ls@.len() as int),
{
    let mut out: Vec<char> = Vec::new();
    let mut j: usize = 0;
    while j < ls.len()
        invariant
            j <= ls.len(),
            out@ == joined(rows(ls@), j as int),
        decreases ls.len() - j,
    {
        if j > 0 {
            append_str(&mut out, "\n");
        }
        append(&mut out, &ls[j]);
        proof {
            assert(rows(ls@)[j as int] == ls@[j as int]@);
            assert(out@ =~= joined(rows(ls@), j + 1));
        }
        j += 1;
    }
    out
}

/// Splits a source text into the definition and the content of the layout
/// block. Fails if a block begins inside a block, ends without a beginning,
/// or does not end.
pub fn split_source(source: &str) -> (r: Result<SourceParts, SourceError>)
    ensures
        match split_text(source@) {
            Err(e) => r == Err::<SourceParts, SourceError>(e),
            Ok(parts) => r is Ok && r->Ok_0.definition@ == parts.0 && match parts.1 {
                Some(layout) => r->Ok_0.layout is Some && r->Ok_0.layout->Some_0@ == layout,
                None => r->Ok_0.layout is None,
            },
        },
{
    let text = chars_of(source);
    let ls = source_lines_of(&text);
    let ghost all = rows(ls@);
    let begin = chars_of("%% oxdraw-layout");
    let end = chars_of("%% oxdraw-layout-end");
    let mut in_block = false;
    let mut found = false;
    let mut definition: Vec<Vec<char>> = Vec::new();
    let mut layout: Vec<Vec<char>> = Vec::new();
    let mut i: usize = 0;
    assert(rows(definition@) =~= Seq::<Seq<char>>::empty());
    assert(rows(layout@) =~= Seq::<Seq<char>>::empty());
    while i < ls.len()
        invariant
            i <= ls.len(),
            all == rows(ls@),
            all == source_lines(source@),
            begin@ == "%% oxdraw-layout"@,
            end@ == "%% oxdraw-layout-end"@,
            split_run(all, i as int) == Ok::<Split, SourceError>(
                Split {
                    in_block,
                    found,
                    definition: rows(definition@),
                    layout: rows(layout@),
                },
            ),
        decreases ls.len() - i,
    {
        let line = &ls[i];
        assert(all[i as int] == line@);
        let t = trimmed(line);
        let ghost before_definition = rows(definition@);
        let ghost before_layout = rows(layout@);
        if eq_ignore_case_in(&t, &begin) {
            if in_block {
                proof {
                    lemma_split_failure(all, i + 1, all.len() as int);
                }
                return Err(SourceError::NestedBlock);
            }
            in_block = true;
            found = true;
        } else if eq_ignore_case_in(&t, &end) {
            if !in_block {
                proof {
                    lemma_split_failure(all, i + 1, all.len() as int);
                }
                return Err(SourceError::EndWithoutStart);
            }
            in_block = false;
        } else if in_block {
            if t.len() > 0 {
                let content = block_content_of(line);
                layout.push(content);
                proof {
                    assert(rows(layout@) =~= before_layout.push(content@));
                }
            }
        } else {
            let kept = copy_of(line);
            definition.push(kept);
            proof {
                assert(rows(definition@) =~= before_definition.push(kept@));
            }
        }
        i += 1;
    }
    if in_block {
        return Err(SourceError::UnterminatedBlock);
    }
    let mut body = join_lines(&definition);
    if text.len() > 0 && text[text.len() - 1] == '\n' {
        append_str(&mut body, "\n");
    }
    let block = if found {
        Some(string_of(&join_lines(&layout)))
    } else {
        None
    };
    Ok(SourceParts { definition: string_of(&body), layout: block })
}

} // verus!
