//! Character-level helpers shared by the grammar and the serializer.
//!
//! Text is modelled as `Seq<char>`. The executable helpers work on `Vec<char>`
//! and are specified by the spec functions of the same purpose.

use vstd::prelude::*;

verus! {

/// The classes of characters that the grammar searches for.
#[derive(Clone, Copy, Debug, PartialEq, Eq, Structural)]
pub enum CharClass {
    /// White space.
    Space,
    /// Anything but white space.
    Solid,
    /// The line feed.
    Newline,
    /// One of `[`, `(`, `{`: the start of a shape suffix.
    Opener,
    /// The opening square bracket.
    Bracket,
    /// The vertical bar that delimits an edge label.
    Bar,
}

/// White space as Unicode defines it (the property `White_Space`).
pub open spec fn is_space(c: char) -> bool {
    let n = c as u32;
    (0x09 <= n <= 0x0D) || n == 0x20 || n == 0x85 || n == 0xA0 || n == 0x1680 || (0x2000 <= n
        <= 0x200A) || n == 0x2028 || n == 0x2029 || n == 0x202F || n == 0x205F || n == 0x3000
}

/// Whether `c` belongs to `class`.
pub open spec fn in_class(class: CharClass, c: char) -> bool {
    match class {
        CharClass::Space => is_space(c),
        CharClass::Solid => !is_space(c),
        CharClass::Newline => c == '\n',
        CharClass::Opener => c == '[' || c == '(' || c == '{',
        CharClass::Bracket => c == '[',
        CharClass::Bar => c == '|',
    }
}

/// The first index at or after `from` whose character belongs to `class`;
/// the length of `s` if there is none.
pub open spec fn find_class(s: Seq<char>, class: CharClass, from: int) -> int
    decreases s.len() - from,
{
    if 0 <= from < s.len() && !in_class(class, s[from]) {
        find_class(s, class, from + 1)
    } else {
        from
    }
}

/// The end of `s[from..to]` once trailing white space is cut off.
pub open spec fn trim_end_at(s: Seq<char>, from: int, to: int) -> int
    decreases to - from,
{
    if from < to <= s.len() && 0 < to && is_space(s[to - 1]) {
        trim_end_at(s, from, to - 1)
    } else {
        to
    }
}

/// `s` without leading and trailing white space.
pub open spec fn trim(s: Seq<char>) -> Seq<char> {
    let a = find_class(s, CharClass::Solid, 0);
    let b = trim_end_at(s, a, s.len() as int);
    s.subrange(a, b)
}

/// Whether `pat` occurs in `s` at index `i`.
pub open spec fn has_at(s: Seq<char>, pat: Seq<char>, i: int) -> bool {
    0 <= i && i + pat.len() <= s.len() && s.subrange(i, i + pat.len()) == pat
}

/// The first index at or after `from` at which `pat` occurs in `s`;
/// the length of `s` if there is none.
pub open spec fn find_sub(s: Seq<char>, pat: Seq<char>, from: int) -> int
    decreases s.len() - from,
{
    if 0 <= from < s.len() && !has_at(s, pat, from) {
        find_sub(s, pat, from + 1)
    } else {
        from
    }
}

/// Whether `s` begins with `pat`.
pub open spec fn starts_with(s: Seq<char>, pat: Seq<char>) -> bool {
    has_at(s, pat, 0)
}

/// Whether `s` ends with `pat`.
pub open spec fn ends_with(s: Seq<char>, pat: Seq<char>) -> bool {
    has_at(s, pat, s.len() - pat.len())
}

/// The lower-case form of an ASCII letter; any other character unchanged.
pub open spec fn lower(c: char) -> char {
    if 'A' <= c <= 'Z' {
        ((c as u8) + 32) as char
    } else {
        c
    }
}

/// Whether `a` and `b` are equal once ASCII letters are lower-cased.
pub open spec fn eq_ignore_case(a: Seq<char>, b: Seq<char>) -> bool {
    a.len() == b.len() && forall|i: int| 0 <= i < a.len() ==> lower(#[trigger] a[i]) == lower(b[i])
}

/// The lines of `s` from the index `from` on: the pieces between line feeds.
pub open spec fn lines_from(s: Seq<char>, from: int) -> Seq<Seq<char>>
    decreases s.len() - from,
{
    let end = find_class(s, CharClass::Newline, from);
    if 0 <= from <= end < s.len() {
        seq![s.subrange(from, end)] + lines_from(s, end + 1)
    } else if 0 <= from <= s.len() {
        seq![s.subrange(from, s.len() as int)]
    } else {
        seq![]
    }
}

/// All lines of `s`.
pub open spec fn lines(s: Seq<char>) -> Seq<Seq<char>> {
    lines_from(s, 0)
}

/// `s` with every white-space character replaced by `_`.
pub open spec fn underscored(s: Seq<char>) -> Seq<char> {
    Seq::new(s.len(), |i: int| if is_space(s[i]) { '_' } else { s[i] })
}

/// The first index at or after `from` at which `id` stands in `ids`; the
/// length of `ids` if there is none.
pub open spec fn position_from(ids: Seq<Seq<char>>, id: Seq<char>, from: int) -> int
    decreases ids.len() - from,
{
    if 0 <= from < ids.len() && ids[from] != id {
        position_from(ids, id, from + 1)
    } else {
        from
    }
}

/// The first index at which `id` stands in `ids`; the length of `ids` if
/// it does not occur.
pub open spec fn position(ids: Seq<Seq<char>>, id: Seq<char>) -> int {
    position_from(ids, id, 0)
}

/// A search for an id starts at `from`, ends within the ids, and stops at
/// the first place where the id stands.
pub proof fn lemma_position_from(ids: Seq<Seq<char>>, id: Seq<char>, from: int)
    requires
        0 <= from <= ids.len(),
    ensures
        from <= position_from(ids, id, from) <= ids.len(),
        position_from(ids, id, from) < ids.len() ==> ids[position_from(ids, id, from)] == id,
        forall|k: int| from <= k < position_from(ids, id, from) ==> #[trigger] ids[k] != id,
    decreases ids.len() - from,
{
    if from < ids.len() && ids[from] != id {
        lemma_position_from(ids, id, from + 1);
    }
}

/// `position` finds `id` exactly when `ids` contains it.
pub proof fn lemma_position(ids: Seq<Seq<char>>, id: Seq<char>)
    ensures
        0 <= position(ids, id) <= ids.len(),
        ids.contains(id) <==> position(ids, id) < ids.len(),
        position(ids, id) < ids.len() ==> ids[position(ids, id)] == id,
        forall|k: int| 0 <= k < position(ids, id) ==> #[trigger] ids[k] != id,
{
    lemma_position_from(ids, id, 0);
    if ids.contains(id) {
        let k = choose|k: int| 0 <= k < ids.len() && ids[k] == id;
        assert(ids[k] == id);
    }
}

/// A search for a class starts at `from`, ends within the text, and stops at
/// the first character of the class.
pub proof fn lemma_find_class_bounds(s: Seq<char>, class: CharClass, from: int)
    requires
        0 <= from <= s.len(),
    ensures
        from <= find_class(s, class, from) <= s.len(),
        find_class(s, class, from) < s.len() ==> in_class(class, s[find_class(s, class, from)]),
        forall|k: int| from <= k < find_class(s, class, from) ==> !in_class(class, #[trigger] s[k]),
    decreases s.len() - from,
{
    if from < s.len() && !in_class(class, s[from]) {
        lemma_find_class_bounds(s, class, from + 1);
    }
}

/// A search for a pattern starts at `from`, ends within the text, and stops
/// at the first place where the pattern occurs.
pub proof fn lemma_find_sub_bounds(s: Seq<char>, pat: Seq<char>, from: int)
    requires
        0 <= from <= s.len(),
    ensures
        from <= find_sub(s, pat, from) <= s.len(),
        find_sub(s, pat, from) < s.len() ==> has_at(s, pat, find_sub(s, pat, from)),
        forall|k: int| from <= k < find_sub(s, pat, from) ==> !has_at(s, pat, k),
    decreases s.len() - from,
{
    if from < s.len() && !has_at(s, pat, from) {
        lemma_find_sub_bounds(s, pat, from + 1);
    }
}

/// Collects the characters of `s` into a vector.
pub fn chars_of(s: &str) -> (out: Vec<char>)
    ensures
        out@ == s@,
{
    let mut out: Vec<char> = Vec::new();
    for c in it: s.chars()
        invariant
            out@ == it.seq().take(it.index() as int),
            it.seq() == s@,
    {
        out.push(c);
    }
    out
}

/// `String::push`: appends one character to the end of the string.
#[verifier::external_body]
fn push_char(s: &mut String, c: char)
    ensures
        final(s)@ == old(s)@.push(c),
{
    s.push(c);
}

/// Builds the string that holds exactly the characters of `chars`.
pub fn string_of(chars: &Vec<char>) -> (out: String)
    ensures
        out@ == chars@,
{
    let mut out = String::new();
    let mut i: usize = 0;
    while i < chars.len()
        invariant
            i <= chars.len(),
            out@ == chars@.take(i as int),
        decreases chars.len() - i,
    {
        push_char(&mut out, chars[i]);
        i += 1;
    }
    out
}

/// Whether `c` is white space.
pub fn is_space_char(c: char) -> (r: bool)
    ensures
        r == is_space(c),
{
    let n: u32 = c as u32;
    (0x09 <= n && n <= 0x0D) || n == 0x20 || n == 0x85 || n == 0xA0 || n == 0x1680 || (0x2000 <= n
        && n <= 0x200A) || n == 0x2028 || n == 0x2029 || n == 0x202F || n == 0x205F || n == 0x3000
}

/// Whether `c` belongs to `class`.
pub fn class_has(class: CharClass, c: char) -> (r: bool)
    ensures
        r == in_class(class, c),
{
    match class {
        CharClass::Space => is_space_char(c),
        CharClass::Solid => !is_space_char(c),
        CharClass::Newline => c == '\n',
        CharClass::Opener => c == '[' || c == '(' || c == '{',
        CharClass::Bracket => c == '[',
        CharClass::Bar => c == '|',
    }
}

/// Finds the first character of `class` at or after `from`.
pub fn find_class_in(v: &Vec<char>, class: CharClass, from: usize) -> (r: usize)
    requires
        from <= v.len(),
    ensures
        r == find_class(v@, class, from as int),
        from <= r <= v.len(),
{
    let mut i: usize = from;
    while i < v.len() && !class_has(class, v[i])
        invariant
            from <= i <= v.len(),
            find_class(v@, class, from as int) == find_class(v@, class, i as int),
        decreases v.len() - i,
    {
        i += 1;
    }
    i
}

/// Copies `v[lo..hi]`.
pub fn slice_of(v: &Vec<char>, lo: usize, hi: usize) -> (out: Vec<char>)
    requires
        lo <= hi <= v.len(),
    ensures
        out@ == v@.subrange(lo as int, hi as int),
{
    let mut out: Vec<char> = Vec::new();
    let mut i: usize = lo;
    while i < hi
        invariant
            lo <= i <= hi <= v.len(),
            out@ == v@.subrange(lo as int, i as int),
        decreases hi - i,
    {
        out.push(v[i]);
        i += 1;
    }
    out
}

/// Copies `v`.
pub fn copy_of(v: &Vec<char>) -> (out: Vec<char>)
    ensures
        out@ == v@,
{
    let out = slice_of(v, 0, v.len());
    proof {
        assert(v@.subrange(0, v@.len() as int) =~= v@);
    }
    out
}

/// Cuts leading and trailing white space off `v`.
pub fn trimmed(v: &Vec<char>) -> (out: Vec<char>)
    ensures
        out@ == trim(v@),
{
    let a = find_class_in(v, CharClass::Solid, 0);
    let mut b: usize = v.len();
    while a < b && is_space_char(v[b - 1])
        invariant
            a <= b <= v.len(),
            trim_end_at(v@, a as int, v.len() as int) == trim_end_at(v@, a as int, b as int),
        decreases b - a,
    {
        b -= 1;
    }
    slice_of(v, a, b)
}

/// Whether `pat` occurs in `v` at index `i`.
pub fn has_at_in(v: &Vec<char>, pat: &Vec<char>, i: usize) -> (r: bool)
    ensures
        r == has_at(v@, pat@, i as int),
{
    if pat.len() > v.len() || i > v.len() - pat.len() {
        return false;
    }
    let mut k: usize = 0;
    while k < pat.len()
        invariant
            k <= pat.len(),
            i + pat.len() <= v.len(),
            forall|j: int| 0 <= j < k ==> v@[i + j] == pat@[j],
        decreases pat.len() - k,
    {
        if v[i + k] != pat[k] {
            proof {
                assert(v@.subrange(i as int, i + pat.len())[k as int] == v@[i + k]);
            }
            return false;
        }
        k += 1;
    }
    proof {
        assert(v@.subrange(i as int, i + pat.len()) =~= pat@);
    }
    true
}

/// Finds the first occurrence of `pat` in `v` at or after `from`.
pub fn find_sub_in(v: &Vec<char>, pat: &Vec<char>, from: usize) -> (r: usize)
    requires
        from <= v.len(),
    ensures
        r == find_sub(v@, pat@, from as int),
        from <= r <= v.len(),
{
    let mut i: usize = from;
    while i < v.len() && !has_at_in(v, pat, i)
        invariant
            from <= i <= v.len(),
            find_sub(v@, pat@, from as int) == find_sub(v@, pat@, i as int),
        decreases v.len() - i,
    {
        i += 1;
    }
    i
}

/// Whether `v` begins with `pat`.
pub fn starts_with_in(v: &Vec<char>, pat: &Vec<char>) -> (r: bool)
    ensures
        r == starts_with(v@, pat@),
{
    has_at_in(v, pat, 0)
}

/// Whether `v` ends with `pat`.
pub fn ends_with_in(v: &Vec<char>, pat: &Vec<char>) -> (r: bool)
    ensures
        r == ends_with(v@, pat@),
{
    if pat.len() > v.len() {
        return false;
    }
    has_at_in(v, pat, v.len() - pat.len())
}

/// The lower-case form of an ASCII letter; any other character unchanged.
pub fn lower_char(c: char) -> (r: char)
    ensures
        r == lower(c),
{
    if 'A' <= c && c <= 'Z' {
        ((c as u8) + 32) as char
    } else {
        c
    }
}

/// Whether `a` and `b` are equal once ASCII letters are lower-cased.
pub fn eq_ignore_case_in(a: &Vec<char>, b: &Vec<char>) -> (r: bool)
    ensures
        r == eq_ignore_case(a@, b@),
{
    if a.len() != b.len() {
        return false;
    }
    let mut i: usize = 0;
    while i < a.len()
        invariant
            i <= a.len(),
            a.len() == b.len(),
            forall|j: int| 0 <= j < i ==> lower(#[trigger] a@[j]) == lower(b@[j]),
        decreases a.len() - i,
    {
        if lower_char(a[i]) != lower_char(b[i]) {
            return false;
        }
        i += 1;
    }
    true
}

/// Whether `a` and `b` hold the same characters.
pub fn same_chars(a: &Vec<char>, b: &Vec<char>) -> (r: bool)
    ensures
        r == (a@ == b@),
{
    if a.len() != b.len() {
        return false;
    }
    let r = has_at_in(a, b, 0);
    proof {
        assert(a@.subrange(0, a@.len() as int) =~= a@);
    }
    r
}

/// The texts that the rows of `v` hold.
pub open spec fn rows(v: Seq<Vec<char>>) -> Seq<Seq<char>> {
    Seq::new(v.len(), |i: int| v[i]@)
}

/// The texts that the strings of `v` hold.
pub open spec fn texts(v: Seq<String>) -> Seq<Seq<char>> {
    Seq::new(v.len(), |i: int| v[i]@)
}

/// Splits `v` at its line feeds.
pub fn split_lines(v: &Vec<char>) -> (out: Vec<Vec<char>>)
    ensures
        rows(out@) == lines(v@),
{
    let mut out: Vec<Vec<char>> = Vec::new();
    let mut from: usize = 0;
    loop
        invariant_except_break
            from <= v.len(),
            lines(v@) == rows(out@) + lines_from(v@, from as int),
        ensures
            rows(out@) == lines(v@),
        decreases v.len() - from,
    {
        let end = find_class_in(v, CharClass::Newline, from);
        let piece = slice_of(v, from, end);
        let ghost before = rows(out@);
        out.push(piece);
        proof {
            assert(rows(out@) =~= before + seq![v@.subrange(from as int, end as int)]);
        }
        if end < v.len() {
            proof {
                assert(lines(v@) =~= rows(out@) + lines_from(v@, end + 1));
            }
            from = end + 1;
        } else {
            proof {
                assert(lines(v@) =~= rows(out@));
            }
            break;
        }
    }
    out
}

/// Replaces every white-space character of `v` by `_`.
pub fn underscored_of(v: &Vec<char>) -> (out: Vec<char>)
    ensures
        out@ == underscored(v@),
{
    let mut out: Vec<char> = Vec::new();
    let mut i: usize = 0;
    while i < v.len()
        invariant
            i <= v.len(),
            out@ == underscored(v@).take(i as int),
        decreases v.len() - i,
    {
        let c = v[i];
        if is_space_char(c) {
            out.push('_');
        } else {
            out.push(c);
        }
        proof {
            assert(out@ =~= underscored(v@).take(i + 1));
        }
        i += 1;
    }
    proof {
        assert(out@ =~= underscored(v@));
    }
    out
}

/// The first index of `id` in `ids`, if it occurs.
pub fn position_of(ids: &Vec<String>, id: &String) -> (r: Option<usize>)
    ensures
        match r {
            Some(i) => i < ids.len() && i == position(texts(ids@), id@),
            None => position(texts(ids@), id@) == ids.len(),
        },
        r is Some <==> texts(ids@).contains(id@),
{
    let mut i: usize = 0;
    proof {
        lemma_position(texts(ids@), id@);
    }
    while i < ids.len()
        invariant
            i <= ids.len(),
            position(texts(ids@), id@) == position_from(texts(ids@), id@, i as int),
        decreases ids.len() - i,
    {
        if ids[i] == *id {
            return Some(i);
        }
        i += 1;
    }
    None
}

} // verus!
