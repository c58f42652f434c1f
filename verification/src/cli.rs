//! The decisions of the command line that need no file system: the output
//! format, and the name of the default output file.

use vstd::prelude::*;
use crate::definition::append_str;
use crate::text::{chars_of, eq_ignore_case, eq_ignore_case_in, string_of};

verus! {

/// The format of the output.
#[derive(Clone, Copy, Debug, PartialEq, Eq, Structural)]
pub enum OutputFormat {
    Svg,
    Png,
}

/// The format that a file extension names, in any case.
pub open spec fn format_named(extension: Seq<char>) -> Option<OutputFormat> {
    if eq_ignore_case(extension, "svg"@) {
        Some(OutputFormat::Svg)
    } else if eq_ignore_case(extension, "png"@) {
        Some(OutputFormat::Png)
    } else {
        None
    }
}

/// The format that the extension of the output file names, if it has one.
pub open spec fn format_of(extension: Option<&str>) -> Option<OutputFormat> {
    match extension {
        Some(ext) => format_named(ext@),
        None => None,
    }
}

impl OutputFormat {
    /// The format that the extension of a path names: `svg` or `png`, in
    /// any case; `None` for another extension and for a path without one.
    pub fn from_extension(extension: Option<&str>) -> (r: Option<OutputFormat>)
        ensures
            r == format_of(extension),
    {
        match extension {
            None => None,
            Some(ext) => {
                let word = chars_of(ext);
                if eq_ignore_case_in(&word, &chars_of("svg")) {
                    Some(OutputFormat::Svg)
                } else if eq_ignore_case_in(&word, &chars_of("png")) {
                    Some(OutputFormat::Png)
                } else {
                    None
                }
            },
        }
    }
}

/// The format of the output: the explicit one if there is one; else SVG
/// for the standard output; else what the extension of the output file
/// names, and `None` if that names no format.
pub fn determine_format(
    explicit: Option<OutputFormat>,
    to_stdout: bool,
    extension: Option<&str>,
) -> (r: Option<OutputFormat>)
    ensures
        r == match explicit {
            Some(f) => Some(f),
            None => if to_stdout {
                Some(OutputFormat::Svg)
            } else {
                format_of(extension)
            },
        },
{
    match explicit {
        Some(f) => Some(f),
        None => {
            if to_stdout {
                Some(OutputFormat::Svg)
            } else {
                OutputFormat::from_extension(extension)
            }
        },
    }
}

/// The name of the output file where none is given: the name of the input
/// file followed by `.svg`, or `out.svg` without an input file name.
pub fn default_output_name(input_name: Option<&str>) -> (r: String)
    ensures
        r@ == match input_name {
            Some(name) => name@ + ".svg"@,
            None => "out.svg"@,
        },
{
    let mut out: Vec<char> = Vec::new();
    match input_name {
        Some(name) => {
            append_str(&mut out, name);
            append_str(&mut out, ".svg");
            proof {
                assert(out@ =~= name@ + ".svg"@);
            }
        },
        None => {
            append_str(&mut out, "out.svg");
            proof {
                assert(out@ =~= "out.svg"@);
            }
        },
    }
    string_of(&out)
}

} // verus!
