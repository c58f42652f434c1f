//! Escaping of text that is placed in XML.

use vstd::prelude::*;
use crate::definition::append_str;
use crate::text::{chars_of, string_of};

verus! {

/// What stands for `c` in XML text: an entity for `&`, `<`, `>`, `"`, `'`.
pub open spec fn escaped_char(c: char) -> Seq<char> {
    if c == '&' {
        "&amp;"@
    } else if c == '<' {
        "&lt;"@
    } else if c == '>' {
        "&gt;"@
    } else if c == '"' {
        "&quot;"@
    } else if c == '\'' {
        "&apos;"@
    } else {
        seq![c]
    }
}

/// The first `upto` characters of `s`, escaped for XML.
pub open spec fn escaped(s: Seq<char>, upto: int) -> Seq<char>
    decreases upto,
{
    if upto <= 0 {
        Seq::empty()
    } else {
        escaped(s, upto - 1) + escaped_char(s[upto - 1])
    }
}

/// Escapes `input` for XML: each of `&`, `<`, `>`, `"`, `'` becomes its entity.
pub fn escape_xml(input: &str) -> (r: String)
    ensures
        r@ == escaped(input@, input@.len() as int),
{
    let chars = chars_of(input);
    let mut out: Vec<char> = Vec::new();
    let mut i: usize = 0;
    while i < chars.len()
        invariant
            i <= chars.len(),
            chars@ == input@,
            out@ == escaped(input@, i as int),
        decreases chars.len() - i,
    {
        let c = chars[i];
        if c == '&' {
            append_str(&mut out, "&amp;");
        } else if c == '<' {
            append_str(&mut out, "&lt;");
        } else if c == '>' {
            append_str(&mut out, "&gt;");
        } else if c == '"' {
            append_str(&mut out, "&quot;");
        } else if c == '\'' {
            append_str(&mut out, "&apos;");
        } else {
            let ghost before = out@;
            out.push(c);
            proof {
                assert(out@ =~= before + seq![c]);
            }
        }
        i += 1;
    }
    string_of(&out)
}

} // verus!
