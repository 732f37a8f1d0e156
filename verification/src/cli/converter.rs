//! The converter: reads a statement in one format and writes it in another.

use vstd::prelude::*;

use crate::cli::{Format, arg_is, arg_texts, ascii_lower, format_error, format_message, opt_text, to_ascii_lowercase};
use crate::errors::DataError;
use crate::formats::ypbank::text::chars_eq_str;

verus! {

/// The format a name stands for, any case: `txt`, `csv` or `bin`.
pub open spec fn format_named(s: Seq<char>) -> Option<Format> {
    let l = ascii_lower(s);
    if l == "txt"@ {
        Some(Format::Txt)
    } else if l == "csv"@ {
        Some(Format::Csv)
    } else if l == "bin"@ {
        Some(Format::Bin)
    } else {
        None
    }
}

/// Reads the name of a format.
pub fn parse_format(s: &str) -> (r: Option<Format>)
    ensures
        r == format_named(s@),
{
    let l = to_ascii_lowercase(s);
    if chars_eq_str(&l, "txt") {
        Some(Format::Txt)
    } else if chars_eq_str(&l, "csv") {
        Some(Format::Csv)
    } else if chars_eq_str(&l, "bin") {
        Some(Format::Bin)
    } else {
        None
    }
}

/// The help text of the converter.
pub const USAGE: &'static str = "Usage:
  ypbank-convert --in <txt|csv|bin> --out <txt|csv|bin> [-i <path>] [-o <path>]

Options:
  --in,  -I    Input format:  txt | csv | bin
  --out, -O    Output format: txt | csv | bin
  -i            Input file (default: stdin)
  -o            Output file (default: stdout)
  -h, --help    Show this help
";

/// The help text of the converter.
pub fn usage() -> (r: &'static str)
    ensures
        r == USAGE,
{
    USAGE
}

// -------------------------------------------------------------- arguments

/// The settings of a conversion.
#[derive(Debug)]
pub struct ConvertArgs {
    /// The format of the input.
    pub in_fmt: Format,
    /// The format of the output.
    pub out_fmt: Format,
    /// The input file; standard input where there is none.
    pub in_path: Option<String>,
    /// The output file; standard output where there is none.
    pub out_path: Option<String>,
}

/// The settings given so far.
pub struct ConvertSeen {
    pub in_fmt: Option<Format>,
    pub out_fmt: Option<Format>,
    pub in_path: Option<Seq<char>>,
    pub out_path: Option<Seq<char>>,
}

/// What the arguments ask for.
pub enum ConvertRequest {
    /// The help text.
    Help,
    /// Nothing: the arguments are wrong, for the reason given.
    Refused(Seq<char>),
    /// A conversion with these settings.
    Convert(ConvertSeen),
}

/// Reading the arguments from the `i`-th on, with the settings `seen` given before.
pub open spec fn convert_scan(a: Seq<Seq<char>>, i: int, seen: ConvertSeen) -> ConvertRequest
    decreases a.len() - i,
{
    if i < 0 || i >= a.len() {
        ConvertRequest::Convert(seen)
    } else {
        let x = a[i];
        if x == "-h"@ || x == "--help"@ {
            ConvertRequest::Help
        } else if x == "--in"@ || x == "-I"@ {
            if i + 1 >= a.len() {
                ConvertRequest::Refused("Missing value for --in"@)
            } else {
                match format_named(a[i + 1]) {
                    Some(f) => convert_scan(a, i + 2, ConvertSeen { in_fmt: Some(f), ..seen }),
                    None => ConvertRequest::Refused("Unknown --in format"@),
                }
            }
        } else if x == "--out"@ || x == "-O"@ {
            if i + 1 >= a.len() {
                ConvertRequest::Refused("Missing value for --out"@)
            } else {
                match format_named(a[i + 1]) {
                    Some(f) => convert_scan(a, i + 2, ConvertSeen { out_fmt: Some(f), ..seen }),
                    None => ConvertRequest::Refused("Unknown --out format"@),
                }
            }
        } else if x == "-i"@ {
            if i + 1 >= a.len() {
                ConvertRequest::Refused("Missing value for -i"@)
            } else {
                convert_scan(a, i + 2, ConvertSeen { in_path: Some(a[i + 1]), ..seen })
            }
        } else if x == "-o"@ {
            if i + 1 >= a.len() {
                ConvertRequest::Refused("Missing value for -o"@)
            } else {
                convert_scan(a, i + 2, ConvertSeen { out_path: Some(a[i + 1]), ..seen })
            }
        } else {
            ConvertRequest::Refused("Unknown argument: "@ + x)
        }
    }
}

/// What the arguments ask for, once all are read: both formats must be given.
pub open spec fn convert_request(a: Seq<Seq<char>>) -> ConvertRequest {
    match convert_scan(a, 0, ConvertSeen { in_fmt: None, out_fmt: None, in_path: None, out_path: None }) {
        ConvertRequest::Convert(seen) => if seen.in_fmt is None {
            ConvertRequest::Refused("Missing --in"@)
        } else if seen.out_fmt is None {
            ConvertRequest::Refused("Missing --out"@)
        } else {
            ConvertRequest::Convert(seen)
        },
        other => other,
    }
}

/// Reads the arguments of the converter (the program name left out):
/// `None` where they ask for the help text, the settings where they are
/// right, and a format error saying what is wrong otherwise.
pub fn parse_args(args: &Vec<String>) -> (r: Result<Option<ConvertArgs>, DataError>)
    ensures
        match convert_request(arg_texts(args@)) {
            ConvertRequest::Help => r matches Ok(None),
            ConvertRequest::Refused(m) => r matches Err(DataError::Format(e)) && e@ == m,
            ConvertRequest::Convert(seen) => r matches Ok(Some(c)) && Some(c.in_fmt) == seen.in_fmt && Some(
                c.out_fmt,
            ) == seen.out_fmt && opt_text(c.in_path) == seen.in_path && opt_text(c.out_path) == seen.out_path,
        },
{
    let ghost a = arg_texts(args@);
    let n = args.len();
    let mut in_fmt: Option<Format> = None;
    let mut out_fmt: Option<Format> = None;
    let mut in_path: Option<String> = None;
    let mut out_path: Option<String> = None;
    let mut i: usize = 0;
    while i < n
        invariant
            n == args@.len(),
            a == arg_texts(args@),
            i <= n,
            convert_scan(a, 0, ConvertSeen { in_fmt: None, out_fmt: None, in_path: None, out_path: None })
                == convert_scan(
                a,
                i as int,
                ConvertSeen { in_fmt, out_fmt, in_path: opt_text(in_path), out_path: opt_text(out_path) },
            ),
        decreases n - i,
    {
        let x = &args[i];
        proof {
            assert(a[i as int] == x@);
        }
        if arg_is(x, "-h") || arg_is(x, "--help") {
            return Ok(None);
        } else if arg_is(x, "--in") || arg_is(x, "-I") {
            if i + 1 >= n {
                return Err(format_message("Missing value for --in"));
            }
            proof {
                assert(a[i + 1] == args@[i + 1]@);
            }
            match parse_format(args[i + 1].as_str()) {
                Some(f) => {
                    in_fmt = Some(f);
                },
                None => {
                    return Err(format_message("Unknown --in format"));
                },
            }
        } else if arg_is(x, "--out") || arg_is(x, "-O") {
            if i + 1 >= n {
                return Err(format_message("Missing value for --out"));
            }
            proof {
                assert(a[i + 1] == args@[i + 1]@);
            }
            match parse_format(args[i + 1].as_str()) {
                Some(f) => {
                    out_fmt = Some(f);
                },
                None => {
                    return Err(format_message("Unknown --out format"));
                },
            }
        } else if arg_is(x, "-i") {
            if i + 1 >= n {
                return Err(format_message("Missing value for -i"));
            }
            in_path = Some(args[i + 1].clone());
            proof {
                assert(a[i + 1] == args@[i + 1]@);
            }
        } else if arg_is(x, "-o") {
            if i + 1 >= n {
                return Err(format_message("Missing value for -o"));
            }
            out_path = Some(args[i + 1].clone());
            proof {
                assert(a[i + 1] == args@[i + 1]@);
            }
        } else {
            return Err(format_error("Unknown argument: ", x.as_str()));
        }
        i = i + 2;
    }
    match (in_fmt, out_fmt) {
        (Some(f_in), Some(f_out)) => Ok(Some(ConvertArgs { in_fmt: f_in, out_fmt: f_out, in_path, out_path })),
        (None, _) => Err(format_message("Missing --in")),
        (_, None) => Err(format_message("Missing --out")),
    }
}

} // verus!
