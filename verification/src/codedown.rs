//! The styles in which a code walkthrough can be written.

use vstd::prelude::*;
use crate::text::{chars_of, eq_ignore_case, eq_ignore_case_in};

verus! {

/// The style of a code walkthrough.
#[derive(Clone, Copy, Debug, PartialEq, Eq, Structural)]
pub enum CodedownStyle {
    Architecture,
    Tutorial,
    Api,
}

/// The style that `s` names, in any case.
pub open spec fn style_named(s: Seq<char>) -> Option<CodedownStyle> {
    if eq_ignore_case(s, "architecture"@) {
        Some(CodedownStyle::Architecture)
    } else if eq_ignore_case(s, "tutorial"@) {
        Some(CodedownStyle::Tutorial)
    } else if eq_ignore_case(s, "api"@) {
        Some(CodedownStyle::Api)
    } else {
        None
    }
}

impl CodedownStyle {
    /// The style that `s` names, in any case; `None` for another word.
    pub fn from_str(s: &str) -> (r: Option<CodedownStyle>)
        ensures
            r == style_named(s@),
    {
        let word = chars_of(s);
        if eq_ignore_case_in(&word, &chars_of("architecture")) {
            Some(CodedownStyle::Architecture)
        } else if eq_ignore_case_in(&word, &chars_of("tutorial")) {
            Some(CodedownStyle::Tutorial)
        } else if eq_ignore_case_in(&word, &chars_of("api")) {
            Some(CodedownStyle::Api)
        } else {
            None
        }
    }
}

} // verus!
