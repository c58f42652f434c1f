//! Facts about searching, trimming and splitting texts.

use vstd::prelude::*;
use crate::text::{
    find_class, find_sub, has_at, in_class, is_space, lemma_find_class_bounds, lines, lines_from,
    trim, trim_end_at, CharClass,
};

verus! {

/// Whether no character of `s` belongs to `class`.
pub open spec fn free_of(s: Seq<char>, class: CharClass) -> bool {
    forall|i: int| 0 <= i < s.len() ==> !in_class(class, #[trigger] s[i])
}

/// Whether `s` neither begins nor ends with white space.
pub open spec fn tight(s: Seq<char>) -> bool {
    s.len() > 0 ==> !is_space(s[0]) && !is_space(s[s.len() - 1])
}

/// A search finds nothing in a text without a character of the class.
pub proof fn lemma_find_nothing(s: Seq<char>, class: CharClass, from: int)
    requires
        0 <= from <= s.len(),
        forall|i: int| from <= i < s.len() ==> !in_class(class, #[trigger] s[i]),
    ensures
        find_class(s, class, from) == s.len(),
    decreases s.len() - from,
{
    if from < s.len() {
        assert(!in_class(class, s[from]));
        lemma_find_nothing(s, class, from + 1);
    }
}

/// A search stops at the first character of the class.
pub proof fn lemma_find_at(s: Seq<char>, class: CharClass, from: int, at: int)
    requires
        0 <= from <= at < s.len(),
        forall|i: int| from <= i < at ==> !in_class(class, #[trigger] s[i]),
        in_class(class, s[at]),
    ensures
        find_class(s, class, from) == at,
    decreases at - from,
{
    if from < at {
        assert(!in_class(class, s[from]));
        lemma_find_at(s, class, from + 1, at);
    }
}

/// A tight text is its own trimmed form.
pub proof fn lemma_trim_tight(s: Seq<char>)
    requires
        tight(s),
    ensures
        trim(s) == s,
{
    if s.len() > 0 {
        lemma_find_at(s, CharClass::Solid, 0, 0);
        assert(s.subrange(0, s.len() as int) =~= s);
    } else {
        assert(s.subrange(0, 0) =~= s);
    }
}

/// Trimming a tight text with white space around it gives the text back.
pub proof fn lemma_trim_padded(left: Seq<char>, s: Seq<char>, right: Seq<char>)
    requires
        s.len() > 0,
        tight(s),
        forall|i: int| 0 <= i < left.len() ==> is_space(#[trigger] left[i]),
        forall|i: int| 0 <= i < right.len() ==> is_space(#[trigger] right[i]),
    ensures
        trim(left + s + right) == s,
{
    let t = left + s + right;
    let a = left.len() as int;
    let b = a + s.len();
    assert(t[a] == s[0]);
    assert forall|i: int| 0 <= i < a implies !in_class(CharClass::Solid, #[trigger] t[i]) by {
        assert(t[i] == left[i]);
    }
    lemma_find_at(t, CharClass::Solid, 0, a);
    lemma_trim_end_from(t, a, b, t.len() as int);
    assert(t.subrange(a, b) =~= s);
}

/// Trailing white space is cut off down to the last other character.
pub proof fn lemma_trim_end_from(s: Seq<char>, from: int, keep: int, to: int)
    requires
        0 <= from < keep <= to <= s.len(),
        !is_space(s[keep - 1]),
        forall|i: int| keep <= i < to ==> is_space(#[trigger] s[i]),
    ensures
        trim_end_at(s, from, to) == keep,
    decreases to - keep,
{
    if keep < to {
        assert(is_space(s[to - 1]));
        lemma_trim_end_from(s, from, keep, to - 1);
    }
}

/// A text of white space alone trims to nothing.
pub proof fn lemma_trim_blank(s: Seq<char>)
    requires
        forall|i: int| 0 <= i < s.len() ==> is_space(#[trigger] s[i]),
    ensures
        trim(s).len() == 0,
{
    assert forall|i: int| 0 <= i < s.len() implies !in_class(CharClass::Solid, #[trigger] s[i]) by {
        assert(is_space(s[i]));
    }
    lemma_find_nothing(s, CharClass::Solid, 0);
}

/// A pattern that ends with a character which `s` lacks occurs nowhere in `s`.
pub proof fn lemma_sub_absent(s: Seq<char>, pat: Seq<char>, last: char, from: int)
    requires
        0 <= from <= s.len(),
        pat.len() > 0,
        pat[pat.len() - 1] == last,
        forall|i: int| 0 <= i < s.len() ==> #[trigger] s[i] != last,
    ensures
        find_sub(s, pat, from) == s.len(),
    decreases s.len() - from,
{
    if from < s.len() {
        if has_at(s, pat, from) {
            let sub = s.subrange(from, from + pat.len());
            assert(sub[pat.len() - 1] == s[from + pat.len() - 1]);
            assert(false);
        }
        lemma_sub_absent(s, pat, last, from + 1);
    }
}

/// The first occurrence of a pattern is where it occurs, if it occurs nowhere before.
pub proof fn lemma_sub_at(s: Seq<char>, pat: Seq<char>, from: int, at: int)
    requires
        0 <= from <= at < s.len(),
        has_at(s, pat, at),
        forall|i: int| from <= i < at ==> !has_at(s, pat, i),
    ensures
        find_sub(s, pat, from) == at,
    decreases at - from,
{
    if from < at {
        lemma_sub_at(s, pat, from + 1, at);
    }
}

/// Splitting sees only what follows the place where it starts.
pub proof fn lemma_lines_shift(a: Seq<char>, b: Seq<char>, i: int)
    requires
        0 <= i <= b.len(),
    ensures
        lines_from(a + b, a.len() + i) == lines_from(b, i),
    decreases b.len() - i,
{
    let s = a + b;
    let n = a.len() as int;
    lemma_find_shift(a, b, CharClass::Newline, i);
    let end = find_class(b, CharClass::Newline, i);
    lemma_find_class_bounds(b, CharClass::Newline, i);
    if end < b.len() {
        lemma_lines_shift(a, b, end + 1);
        assert(s.subrange(n + i, n + end) =~= b.subrange(i, end));
    } else {
        assert(s.subrange(n + i, s.len() as int) =~= b.subrange(i, b.len() as int));
    }
}

/// Searching sees only what follows the place where it starts.
pub proof fn lemma_find_shift(a: Seq<char>, b: Seq<char>, class: CharClass, i: int)
    requires
        0 <= i <= b.len(),
    ensures
        find_class(a + b, class, a.len() + i) == a.len() + find_class(b, class, i),
    decreases b.len() - i,
{
    let s = a + b;
    if i < b.len() {
        assert(s[a.len() + i] == b[i]);
        if !in_class(class, b[i]) {
            lemma_find_shift(a, b, class, i + 1);
        }
    }
}

/// Searching within the first part of a text does not depend on the rest,
/// where the first part ends with a character of the class.
pub proof fn lemma_find_within(a: Seq<char>, b: Seq<char>, class: CharClass, from: int)
    requires
        0 <= from < a.len(),
        in_class(class, a[a.len() - 1]),
    ensures
        find_class(a + b, class, from) == find_class(a, class, from),
        find_class(a, class, from) < a.len(),
    decreases a.len() - from,
{
    let s = a + b;
    assert(s[from] == a[from]);
    if !in_class(class, a[from]) {
        lemma_find_within(a, b, class, from + 1);
    }
}

/// The lines of a text that ends with a line feed, followed by more text:
/// the lines of the first, without the empty last one, then the lines of
/// the second.
pub proof fn lemma_lines_concat(a: Seq<char>, b: Seq<char>, from: int)
    requires
        0 <= from <= a.len(),
        a.len() > 0,
        a[a.len() - 1] == '\n',
    ensures
        lines_from(a, from).len() > 0,
        lines_from(a + b, from) == lines_from(a, from).drop_last() + lines(b),
    decreases a.len() - from,
{
    let s = a + b;
    let n = a.len() as int;
    if from == n {
        lemma_lines_shift(a, b, 0);
        assert(lines_from(a, from) =~= seq![a.subrange(n, n)]);
        assert(lines_from(a, from).drop_last() =~= Seq::<Seq<char>>::empty());
        assert(lines_from(a, from).drop_last() + lines(b) =~= lines(b));
    } else {
        lemma_find_within(a, b, CharClass::Newline, from);
        let end = find_class(a, CharClass::Newline, from);
        lemma_find_class_bounds(a, CharClass::Newline, from);
        lemma_lines_concat(a, b, end + 1);
        assert(s.subrange(from, end) =~= a.subrange(from, end));
        let rest = lines_from(a, end + 1);
        assert((seq![a.subrange(from, end)] + rest).drop_last() =~= seq![a.subrange(from, end)]
            + rest.drop_last());
        assert(lines_from(a + b, from) =~= lines_from(a, from).drop_last() + lines(b));
    }
}

/// A line followed by a line feed splits into the line and an empty line.
pub proof fn lemma_lines_single(line: Seq<char>)
    requires
        free_of(line, CharClass::Newline),
    ensures
        lines(line + "\n"@) == seq![line, Seq::<char>::empty()],
{
    reveal_strlit("\n");
    let s = line + "\n"@;
    let n = line.len() as int;
    assert(s[n] == '\n');
    assert forall|i: int| 0 <= i < n implies !in_class(CharClass::Newline, #[trigger] s[i]) by {
        assert(s[i] == line[i]);
    }
    lemma_find_at(s, CharClass::Newline, 0, n);
    assert(s.subrange(0, n) =~= line);
    assert(find_class(s, CharClass::Newline, n + 1) == n + 1);
    assert(lines_from(s, n + 1) =~= seq![s.subrange(n + 1, s.len() as int)]);
    assert(s.subrange(n + 1, s.len() as int) =~= Seq::<char>::empty());
    assert(lines(s) =~= seq![line, Seq::<char>::empty()]);
}

} // verus!
