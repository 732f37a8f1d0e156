//! The comparer: reads two statements and tells whether their records agree.

use vstd::prelude::*;

use crate::cli::{Format, arg_is, arg_texts, ascii_lower, format_error, format_message, opt_text, to_ascii_lowercase};
use crate::errors::DataError;
use crate::data::{Statement, same_keys};
use crate::formats::ypbank::text::chars_eq_str;

verus! {

/// The format a name stands for, any case: `txt` or `text`, `csv`, `bin` or `binary`.
pub open spec fn format_named(s: Seq<char>) -> Option<Format> {
    let l = ascii_lower(s);
    if l == "txt"@ || l == "text"@ {
        Some(Format::Txt)
    } else if l == "csv"@ {
        Some(Format::Csv)
    } else if l == "bin"@ || l == "binary"@ {
        Some(Format::Bin)
    } else {
        None
    }
}

/// Reads the name of a format.
pub fn parse_format(s: &str) -> (r: Option<Format>)
    ensures
        r == format_named(s@),
{
    let l = to_ascii_lowercase(s);
    if chars_eq_str(&l, "txt") || chars_eq_str(&l, "text") {
        Some(Format::Txt)
    } else if chars_eq_str(&l, "csv") {
        Some(Format::Csv)
    } else if chars_eq_str(&l, "bin") || chars_eq_str(&l, "binary") {
        Some(Format::Bin)
    } else {
        None
    }
}

/// The help text of the comparer.
pub const USAGE: &'static str = "Usage:
  ypbank_compare --file1 <path> --format1 <txt|csv|bin> --file2 <path> --format2 <txt|csv|bin>

Options:
  --file1         First input file
  --format1       First input format:  txt | csv | bin
  --file2         Second input file
  --format2       Second input format: txt | csv | bin
  -h, --help      Show this help
";

/// The help text of the comparer.
pub fn usage() -> (r: &'static str)
    ensures
        r == USAGE,
{
    USAGE
}

/// What the comparer says when the records agree.
pub const IDENTICAL: &'static str = "The transaction records are identical.";

/// What the comparer says when the records differ.
pub const DIFFERENT: &'static str = "The transaction records are different.";

/// The verdict on two statements: identical when their operations agree one
/// by one on everything but descriptions (the metadata takes no part).
pub fn compare_statements(a: &Statement, b: &Statement) -> (r: &'static str)
    ensures
        r == (if same_keys(a@, b@) {
            IDENTICAL
        } else {
            DIFFERENT
        }),
{
    if a == b {
        IDENTICAL
    } else {
        DIFFERENT
    }
}

// -------------------------------------------------------------- arguments

/// The settings of a comparison.
#[derive(Debug)]
pub struct CompareArgs {
    /// The first file and its format.
    pub file1: String,
    pub format1: Format,
    /// The second file and its format.
    pub file2: String,
    pub format2: Format,
}

/// The settings given so far.
pub struct CompareSeen {
    pub file1: Option<Seq<char>>,
    pub file2: Option<Seq<char>>,
    pub format1: Option<Format>,
    pub format2: Option<Format>,
}

/// What the arguments ask for.
pub enum CompareRequest {
    /// The help text.
    Help,
    /// Nothing: the arguments are wrong, for the reason given.
    Refused(Seq<char>),
    /// A comparison with these settings.
    Compare(CompareSeen),
}

/// Reading the arguments from the `i`-th on, with the settings `seen` given before.
pub open spec fn compare_scan(a: Seq<Seq<char>>, i: int, seen: CompareSeen) -> CompareRequest
    decreases a.len() - i,
{
    if i < 0 || i >= a.len() {
        CompareRequest::Compare(seen)
    } else {
        let x = a[i];
        if x == "-h"@ || x == "--help"@ {
            CompareRequest::Help
        } else if x == "--file1"@ {
            if i + 1 >= a.len() {
                CompareRequest::Refused("Missing value for --file1"@)
            } else {
                compare_scan(a, i + 2, CompareSeen { file1: Some(a[i + 1]), ..seen })
            }
        } else if x == "--file2"@ {
            if i + 1 >= a.len() {
                CompareRequest::Refused("Missing value for --file2"@)
            } else {
                compare_scan(a, i + 2, CompareSeen { file2: Some(a[i + 1]), ..seen })
            }
        } else if x == "--format1"@ {
            if i + 1 >= a.len() {
                CompareRequest::Refused("Missing value for --format1"@)
            } else {
                match format_named(a[i + 1]) {
                    Some(f) => compare_scan(a, i + 2, CompareSeen { format1: Some(f), ..seen }),
                    None => CompareRequest::Refused("Unknown --format1 format"@),
                }
            }
        } else if x == "--format2"@ {
            if i + 1 >= a.len() {
                CompareRequest::Refused("Missing value for --format2"@)
            } else {
                match format_named(a[i + 1]) {
                    Some(f) => compare_scan(a, i + 2, CompareSeen { format2: Some(f), ..seen }),
                    None => CompareRequest::Refused("Unknown --format2 format"@),
                }
            }
        } else {
            CompareRequest::Refused("Unknown argument: "@ + x)
        }
    }
}

/// What the arguments ask for, once all are read: both files and both
/// formats must be given.
pub open spec fn compare_request(a: Seq<Seq<char>>) -> CompareRequest {
    match compare_scan(a, 0, CompareSeen { file1: None, file2: None, format1: None, format2: None }) {
        CompareRequest::Compare(seen) => if seen.file1 is None {
            CompareRequest::Refused("Missing --file1"@)
        } else if seen.file2 is None {
            CompareRequest::Refused("Missing --file2"@)
        } else if seen.format1 is None {
            CompareRequest::Refused("Missing --format1"@)
        } else if seen.format2 is None {
            CompareRequest::Refused("Missing --format2"@)
        } else {
            CompareRequest::Compare(seen)
        },
        other => other,
    }
}

/// Reads the arguments of the comparer (the program name left out): `None`
/// where they ask for the help text, the settings where they are right, and
/// a format error saying what is wrong otherwise.
pub fn parse_args(args: &Vec<String>) -> (r: Result<Option<CompareArgs>, DataError>)
    ensures
        match compare_request(arg_texts(args@)) {
            CompareRequest::Help => r matches Ok(None),
            CompareRequest::Refused(m) => r matches Err(DataError::Format(e)) && e@ == m,
            CompareRequest::Compare(seen) => r matches Ok(Some(c)) && Some(c.file1@) == seen.file1 && Some(
                c.file2@,
            ) == seen.file2 && Some(c.format1) == seen.format1 && Some(c.format2) == seen.format2,
        },
{
    let ghost a = arg_texts(args@);
    let n = args.len();
    let mut file1: Option<String> = None;
    let mut file2: Option<String> = None;
    let mut format1: Option<Format> = None;
    let mut format2: Option<Format> = None;
    let mut i: usize = 0;
    while i < n
        invariant
            n == args@.len(),
            a == arg_texts(args@),
            i <= n,
            compare_scan(a, 0, CompareSeen { file1: None, file2: None, format1: None, format2: None })
                == compare_scan(
                a,
                i as int,
                CompareSeen { file1: opt_text(file1), file2: opt_text(file2), format1, format2 },
            ),
        decreases n - i,
    {
        let x = &args[i];
        proof {
            assert(a[i as int] == x@);
        }
        if arg_is(x, "-h") || arg_is(x, "--help") {
            return Ok(None);
        } else if arg_is(x, "--file1") {
            if i + 1 >= n {
                return Err(format_message("Missing value for --file1"));
            }
            file1 = Some(args[i + 1].clone());
            proof {
                assert(a[i + 1] == args@[i + 1]@);
            }
        } else if arg_is(x, "--file2") {
            if i + 1 >= n {
                return Err(format_message("Missing value for --file2"));
            }
            file2 = Some(args[i + 1].clone());
            proof {
                assert(a[i + 1] == args@[i + 1]@);
            }
        } else if arg_is(x, "--format1") {
            if i + 1 >= n {
                return Err(format_message("Missing value for --format1"));
            }
            proof {
                assert(a[i + 1] == args@[i + 1]@);
            }
            match parse_format(args[i + 1].as_str()) {
                Some(f) => {
                    format1 = Some(f);
                },
                None => {
                    return Err(format_message("Unknown --format1 format"));
                },
            }
        } else if arg_is(x, "--format2") {
            if i + 1 >= n {
                return Err(format_message("Missing value for --format2"));
            }
            proof {
                assert(a[i + 1] == args@[i + 1]@);
            }
            match parse_format(args[i + 1].as_str()) {
                Some(f) => {
                    format2 = Some(f);
                },
                None => {
                    return Err(format_message("Unknown --format2 format"));
                },
            }
        } else {
            return Err(format_error("Unknown argument: ", x.as_str()));
        }
        i = i + 2;
    }
    match (file1, file2, format1, format2) {
        (Some(f1), Some(f2), Some(fm1), Some(fm2)) => Ok(
            Some(CompareArgs { file1: f1, format1: fm1, file2: f2, format2: fm2 }),
        ),
        (None, _, _, _) => Err(format_message("Missing --file1")),
        (_, None, _, _) => Err(format_message("Missing --file2")),
        (_, _, None, _) => Err(format_message("Missing --format1")),
        (_, _, _, None) => Err(format_message("Missing --format2")),
    }
}

} // verus!
