//! Errors of parsing and of the formats, and the library's result type.

use vstd::prelude::*;

use crate::formats::ypbank::text::{dec, push_decimal};

verus! {

/// The standard I/O error, carried through the library unopened.
#[verifier::external_type_specification]
#[verifier::external_body]
pub struct ExIoError(std::io::Error);

/// One result type for the whole library.
pub type Result<T> = std::result::Result<T, DataError>;

/// Errors of data (parsing, format, semantics) and of I/O.
#[derive(Debug)]
pub enum DataError {
    /// An input/output error (file, stdin/stdout, socket, ...).
    Io(std::io::Error),
    /// An error on one line, kept for callers of the older interface.
    BadLine { line_no: usize, line: String, msg: String },
    /// A format error with no line number.
    Format(String),
    /// A structured parse error.
    Parse(ParseError),
}

impl From<std::io::Error> for DataError {
    fn from(e: std::io::Error) -> (r: Self)
        ensures
            r == DataError::Io(e),
    {
        DataError::Io(e)
    }
}

impl vstd::std_specs::convert::FromSpecImpl<std::io::Error> for DataError {
    open spec fn obeys_from_spec() -> bool {
        true
    }

    open spec fn from_spec(v: std::io::Error) -> Self {
        DataError::Io(v)
    }
}

/// A structured parse error.
///
/// `line` holds the source line (or a part of it) only where it helps; it may be empty.
#[derive(Debug)]
pub struct ParseError {
    pub line_no: usize,
    pub field: Option<&'static str>,
    pub kind: ParseErrorKind,
    pub line: String,
}

/// What went wrong in a parse, with just the data that a message about it needs.
#[derive(Debug)]
#[allow(inconsistent_fields)]
pub enum ParseErrorKind {
    /// A line of the form `KEY: VALUE` was expected (no ':' found).
    ExpectedKeyValue,
    /// A field that the format does not know.
    UnknownField { name: String },
    /// A field given twice in one record.
    DuplicateField { name: &'static str },
    /// Required fields are missing from a record.
    MissingFields { names: Vec<&'static str> },
    /// The value is not a number of the expected type.
    BadNumber { value: String, ty: &'static str },
    /// The value is a number but breaks the rule ">= 0".
    NegativeNotAllowed { value: String },
    /// The value is none of the names of an enumeration (TX_TYPE/STATUS).
    BadEnum { value: String, expected: &'static str },
    /// A string in double quotes was expected.
    BadQuotedString { value: String },
    /// A rule of the format's meaning is broken (DEPOSIT with FROM_USER_ID, ...).
    SemanticRule { msg: &'static str },
}

impl ParseError {
    /// A parse error with no field and an empty line.
    pub fn new(line_no: usize, kind: ParseErrorKind) -> (r: Self)
        ensures
            r.line_no == line_no,
            r.field == None::<&'static str>,
            r.kind == kind,
            r.line@ == Seq::<char>::empty(),
    {
        ParseError { line_no, field: None, kind, line: String::new() }
    }

    /// The same error with the name of a field.
    pub fn with_field(self, field: &'static str) -> (r: Self)
        ensures
            r.line_no == self.line_no,
            r.field == Some(field),
            r.kind == self.kind,
            r.line == self.line,
    {
        let mut e = self;
        e.field = Some(field);
        e
    }

    /// The same error with the source line (or a part of it).
    pub fn with_line(self, line: &str) -> (r: Self)
        ensures
            r.line_no == self.line_no,
            r.field == self.field,
            r.kind == self.kind,
            r.line@ == line@,
    {
        let mut e = self;
        e.line = line.to_owned();
        e
    }

    /// Line number, field, kind and line in one call.
    pub fn full(line_no: usize, field: Option<&'static str>, kind: ParseErrorKind, line: &str) -> (r: Self)
        ensures
            r.line_no == line_no,
            r.field == field,
            r.kind == kind,
            r.line@ == line@,
    {
        ParseError { line_no, field, kind, line: line.to_owned() }
    }
}

impl From<ParseError> for DataError {
    fn from(e: ParseError) -> (r: Self)
        ensures
            r == DataError::Parse(e),
    {
        DataError::Parse(e)
    }
}

impl vstd::std_specs::convert::FromSpecImpl<ParseError> for DataError {
    open spec fn obeys_from_spec() -> bool {
        true
    }

    open spec fn from_spec(v: ParseError) -> Self {
        DataError::Parse(v)
    }
}

// ------------------------------------------------------------------ messages

/// Names joined by ", ".
pub open spec fn joined(names: Seq<&'static str>) -> Seq<char>
    decreases names.len(),
{
    if names.len() == 0 {
        Seq::empty()
    } else if names.len() == 1 {
        names[0]@
    } else {
        joined(names.drop_last()) + ", "@ + names.last()@
    }
}

/// Where a parse error is: its line, and its field where it has one.
pub open spec fn where_text(e: ParseError) -> Seq<char> {
    match e.field {
        Some(f) => "Line "@ + dec(e.line_no as nat) + ", field "@ + f@,
        None => "Line "@ + dec(e.line_no as nat),
    }
}

/// What went wrong, as it follows the place in a message.
pub open spec fn kind_text(k: ParseErrorKind) -> Seq<char> {
    match k {
        ParseErrorKind::ExpectedKeyValue => ": expected `KEY: VALUE`"@,
        ParseErrorKind::UnknownField { name } => ": unknown field `"@ + name@ + "`"@,
        ParseErrorKind::DuplicateField { name } => ": duplicate field `"@ + name@ + "`"@,
        ParseErrorKind::MissingFields { names } => ": missing fields: "@ + joined(names@),
        ParseErrorKind::BadNumber { value, ty } => ": bad "@ + ty@ + " number `"@ + value@ + "`"@,
        ParseErrorKind::NegativeNotAllowed { value } => ": negative value not allowed `"@ + value@ + "`"@,
        ParseErrorKind::BadEnum { value, expected } => ": bad value `"@ + value@ + "`, expected "@
            + expected@,
        ParseErrorKind::BadQuotedString { value } => ": expected quoted string, got `"@ + value@ + "`"@,
        ParseErrorKind::SemanticRule { msg } => ": "@ + msg@,
    }
}

/// The source line in a message: nothing where it is empty.
pub open spec fn input_text(line: Seq<char>) -> Seq<char> {
    if line.len() == 0 {
        Seq::empty()
    } else {
        " (input: "@ + line + ")"@
    }
}

/// The message of a parse error.
pub open spec fn parse_error_text(e: ParseError) -> Seq<char> {
    where_text(e) + kind_text(e.kind) + input_text(e.line@)
}

/// The message of a data error; `None` for an I/O error, whose text is the
/// system's.
pub open spec fn data_error_text(e: DataError) -> Option<Seq<char>> {
    match e {
        DataError::Io(_) => None,
        DataError::Format(s) => Some("Format error: "@ + s@),
        DataError::BadLine { line_no, line, msg } => Some(
            "Line "@ + dec(line_no as nat) + ": "@ + msg@ + input_text(line@),
        ),
        DataError::Parse(p) => Some(parse_error_text(p)),
    }
}

/// `io::Error::to_string`: the system's text for an I/O error. Nothing is
/// stated of the text.
#[verifier::external_body]
fn io_error_text(e: &std::io::Error) -> String {
    e.to_string()
}

/// Appends the source line part of a message.
fn push_input(out: &mut String, line: &String)
    ensures
        final(out)@ == old(out)@ + input_text(line@),
{
    if !line.as_str().is_empty() {
        out.push_str(" (input: ");
        out.push_str(line.as_str());
        out.push_str(")");
    } else {
        proof {
            assert(old(out)@ + input_text(line@) =~= old(out)@);
        }
    }
}

impl ParseErrorKind {
    /// Appends what went wrong.
    fn push_text(&self, out: &mut String)
        ensures
            final(out)@ == old(out)@ + kind_text(*self),
    {
        let ghost start = out@;
        match self {
            ParseErrorKind::ExpectedKeyValue => out.push_str(": expected `KEY: VALUE`"),
            ParseErrorKind::UnknownField { name } => {
                out.push_str(": unknown field `");
                out.push_str(name.as_str());
                out.push_str("`");
            },
            ParseErrorKind::DuplicateField { name } => {
                out.push_str(": duplicate field `");
                out.push_str(name);
                out.push_str("`");
            },
            ParseErrorKind::MissingFields { names } => {
                out.push_str(": missing fields: ");
                let ghost mid = out@;
                let n = names.len();
                for i in 0..n
                    invariant
                        n == names@.len(),
                        out@ == mid + joined(names@.take(i as int)),
                {
                    if i > 0 {
                        out.push_str(", ");
                    }
                    out.push_str(names[i]);
                    proof {
                        let t = names@.take(i + 1);
                        assert(t.drop_last() =~= names@.take(i as int));
                        if i == 0 {
                            assert(names@.take(0) =~= Seq::<&'static str>::empty());
                        }
                    }
                }
                proof {
                    assert(names@.take(n as int) =~= names@);
                }
            },
            ParseErrorKind::BadNumber { value, ty } => {
                out.push_str(": bad ");
                out.push_str(ty);
                out.push_str(" number `");
                out.push_str(value.as_str());
                out.push_str("`");
            },
            ParseErrorKind::NegativeNotAllowed { value } => {
                out.push_str(": negative value not allowed `");
                out.push_str(value.as_str());
                out.push_str("`");
            },
            ParseErrorKind::BadEnum { value, expected } => {
                out.push_str(": bad value `");
                out.push_str(value.as_str());
                out.push_str("`, expected ");
                out.push_str(expected);
            },
            ParseErrorKind::BadQuotedString { value } => {
                out.push_str(": expected quoted string, got `");
                out.push_str(value.as_str());
                out.push_str("`");
            },
            ParseErrorKind::SemanticRule { msg } => {
                out.push_str(": ");
                out.push_str(msg);
            },
        }
        proof {
            assert(out@ =~= start + kind_text(*self));
        }
    }
}

impl ParseError {
    /// The message of the error: where, what, and the source line if any.
    pub fn to_string(&self) -> (r: String)
        ensures
            r@ == parse_error_text(*self),
    {
        let mut out = String::new();
        out.push_str("Line ");
        push_decimal(&mut out, self.line_no as u64);
        match self.field {
            Some(f) => {
                out.push_str(", field ");
                out.push_str(f);
            },
            None => {},
        }
        proof {
            assert(out@ =~= where_text(*self));
        }
        self.kind.push_text(&mut out);
        push_input(&mut out, &self.line);
        proof {
            assert(out@ =~= parse_error_text(*self));
        }
        out
    }
}

impl DataError {
    /// The message of the error; that of an I/O error starts with "I/O error: "
    /// and goes on with the system's text.
    pub fn to_string(&self) -> (r: String)
        ensures
            match data_error_text(*self) {
                Some(t) => r@ == t,
                None => r@.len() >= "I/O error: "@.len() && r@.take("I/O error: "@.len() as int)
                    == "I/O error: "@,
            },
    {
        match self {
            DataError::Io(e) => {
                let mut out = String::new();
                out.push_str("I/O error: ");
                let ghost head = out@;
                out.push_str(io_error_text(e).as_str());
                proof {
                    assert(out@.take(head.len() as int) =~= head);
                }
                out
            },
            DataError::Format(s) => {
                let mut out = String::new();
                out.push_str("Format error: ");
                out.push_str(s.as_str());
                out
            },
            DataError::BadLine { line_no, line, msg } => {
                let mut out = String::new();
                out.push_str("Line ");
                push_decimal(&mut out, *line_no as u64);
                out.push_str(": ");
                out.push_str(msg.as_str());
                push_input(&mut out, line);
                proof {
                    assert(out@ =~= "Line "@ + dec(*line_no as nat) + ": "@ + msg@ + input_text(line@));
                }
                out
            },
            DataError::Parse(p) => p.to_string(),
        }
    }
}

} // verus!
