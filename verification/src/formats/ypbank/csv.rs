//! The CSV format of YPBank:
//! - UTF-8;
//! - the first (non-blank) line is a strict header;
//! - then one transaction per line;
//! - blank lines are skipped;
//! - DESCRIPTION is always in double quotes and may hold commas.

use vstd::prelude::*;

use crate::data::{Operation, OperationModel, Status, TransactionType};
use crate::errors::{DataError, ParseError, ParseErrorKind, Result};
use crate::formats::ypbank::fields::{
    FieldFault, K_AMOUNT, push_unquoted, status_name, status_text, tx_type_name, tx_type_text,
    written_description, K_FROM_USER_ID, K_TIMESTAMP, K_TO_USER_ID, K_TX_ID, SemanticFault,
    check_semantics, description_field, fault_field, fault_message, field_fault_reported,
    field_of_fault, message_of_fault, nonneg_i64_field, parse_description_field,
    parse_nonneg_i64_field, parse_status_field, parse_tx_type_field, parse_u64_field,
    semantic_fault, status_field, tx_type_field, u64_field,
};
use crate::formats::ypbank::fields::{
    lemma_dec_plain, lemma_description_field_quoted, lemma_names_plain, lemma_nonneg_field_dec,
    lemma_status_field_name, lemma_tx_type_field_name, lemma_u64_field_dec, plain, plain_char,
    text_read_back, text_writable,
};
use crate::formats::ypbank::text::{
    invalid_utf8_input, after_line, chars_eq_str, chars_of, dec, dec_signed, find_char, is_ws, lacks, lemma_line_at,
    lemma_next_char_at, lemma_next_char_bounds, lemma_trim_keeps, line_at, next_char, read_line_at, slice_chars,
    string_of, trim, trim_chars,
};

verus! {

/// The header line of a CSV statement.
pub const HEADER: &'static str = "TX_ID,TX_TYPE,FROM_USER_ID,TO_USER_ID,AMOUNT,TIMESTAMP,STATUS,DESCRIPTION";

/// The message of an input with no header.
pub const MSG_NO_HEADER: &'static str = "Пустой CSV: отсутствует заголовок";

/// The message of a first line that is not the header.
pub const MSG_WRONG_HEADER: &'static str = "Неверный заголовок CSV (ожидался строго заданный HEADER)";

/// The message of a record line with fewer than eight fields.
pub const MSG_FIELD_COUNT: &'static str = "Неверное число полей: ожидалось минимум 7 запятых (8 полей)";

/// What can be wrong with one CSV record line.
pub enum CsvFault {
    /// Fewer than 7 commas: fewer than 8 fields.
    FieldCount,
    /// A field holds a wrong value.
    Field(FieldFault),
    /// The operation breaks a rule of meaning.
    Semantic(SemanticFault),
}

/// What the next read gives.
pub enum CsvStep {
    /// The input has no non-blank line before its end.
    NoHeader,
    /// The first non-blank line (number, text) is not the header.
    WrongHeader(usize, Seq<char>),
    /// No record line is left.
    End,
    /// An operation, the position after its line, and the number of its line.
    Record(OperationModel, usize, usize),
    /// A wrong record line: the fault, the number of the line, its trimmed text.
    Bad(CsvFault, usize, Seq<char>),
    /// The next line cannot be read: the input is not UTF-8 there.
    Unreadable,
}

/// The index of the `k`-th comma (from 0) of `t`; `t.len()` where `t` has fewer.
pub open spec fn nth_comma(t: Seq<char>, k: nat) -> int
    decreases k,
{
    if k == 0 {
        next_char(t, 0, ',')
    } else {
        next_char(t, nth_comma(t, (k - 1) as nat) + 1, ',')
    }
}

/// Field `i` of a line whose fields end at its commas, field `last` taking
/// the rest of the line, commas included.
pub open spec fn comma_field(t: Seq<char>, i: nat, last: nat) -> Seq<char> {
    let start = if i == 0 {
        0
    } else {
        nth_comma(t, (i - 1) as nat) + 1
    };
    let end = if i >= last {
        t.len() as int
    } else {
        nth_comma(t, i)
    };
    t.subrange(start, end)
}

/// Field `i` (0 to 7) of a record line: the first seven end at the first seven
/// commas, the last takes the rest of the line, commas included.
pub open spec fn csv_field(t: Seq<char>, i: nat) -> Seq<char> {
    comma_field(t, i, 7)
}

/// What a (trimmed, non-empty) record line reads as.
pub open spec fn csv_line(t: Seq<char>) -> std::result::Result<OperationModel, CsvFault> {
    if nth_comma(t, 6) >= t.len() {
        Err(CsvFault::FieldCount)
    } else {
        match u64_field(csv_field(t, 0), K_TX_ID) {
            Err(f) => Err(CsvFault::Field(f)),
            Ok(tx_id) => match tx_type_field(csv_field(t, 1)) {
                Err(f) => Err(CsvFault::Field(f)),
                Ok(tx_type) => match u64_field(csv_field(t, 2), K_FROM_USER_ID) {
                    Err(f) => Err(CsvFault::Field(f)),
                    Ok(from_user_id) => match u64_field(csv_field(t, 3), K_TO_USER_ID) {
                        Err(f) => Err(CsvFault::Field(f)),
                        Ok(to_user_id) => match nonneg_i64_field(csv_field(t, 4), K_AMOUNT) {
                            Err(f) => Err(CsvFault::Field(f)),
                            Ok(amount) => match u64_field(csv_field(t, 5), K_TIMESTAMP) {
                                Err(f) => Err(CsvFault::Field(f)),
                                Ok(timestamp_ms) => match status_field(csv_field(t, 6)) {
                                    Err(f) => Err(CsvFault::Field(f)),
                                    Ok(status) => match description_field(csv_field(t, 7)) {
                                        Err(f) => Err(CsvFault::Field(f)),
                                        Ok(d) => {
                                            let m = OperationModel {
                                                tx_id,
                                                tx_type,
                                                from_user_id,
                                                to_user_id,
                                                amount,
                                                timestamp_ms,
                                                status,
                                                description: Some(d),
                                            };
                                            match semantic_fault(m) {
                                                Some(f) => Err(CsvFault::Semantic(f)),
                                                None => Ok(m),
                                            }
                                        },
                                    },
                                },
                            },
                        },
                    },
                },
            },
        }
    }
}

/// Reading records from position `pos`, after line number `line_no`: blank
/// lines are skipped, the first other line is read as a record; `cut`: the
/// input goes on after the text `s` with a line that cannot be read.
pub open spec fn csv_records(s: Seq<char>, pos: int, line_no: int, cut: bool) -> CsvStep
    decreases s.len() - pos,
{
    if pos < 0 || pos >= s.len() {
        if cut {
            CsvStep::Unreadable
        } else {
            CsvStep::End
        }
    } else {
        let t = trim(line_at(s, pos));
        let np = after_line(s, pos);
        if t.len() == 0 {
            if pos < np <= s.len() {
                csv_records(s, np, line_no + 1, cut)
            } else {
                CsvStep::End
            }
        } else {
            match csv_line(t) {
                Ok(m) => CsvStep::Record(m, np as usize, (line_no + 1) as usize),
                Err(f) => CsvStep::Bad(f, (line_no + 1) as usize, t),
            }
        }
    }
}

/// Reading from position `pos`, after line number `line_no`, while the header
/// is still ahead: blank lines are skipped, the first other line must be the
/// header, and the records follow it.
pub open spec fn csv_with_header(s: Seq<char>, pos: int, line_no: int, cut: bool) -> CsvStep
    decreases s.len() - pos,
{
    if pos < 0 || pos >= s.len() {
        if cut {
            CsvStep::Unreadable
        } else {
            CsvStep::NoHeader
        }
    } else {
        let l = line_at(s, pos);
        let np = after_line(s, pos);
        if trim(l).len() == 0 {
            if pos < np <= s.len() {
                csv_with_header(s, np, line_no + 1, cut)
            } else {
                CsvStep::NoHeader
            }
        } else if l == HEADER@ {
            csv_records(s, np, line_no + 1, cut)
        } else {
            CsvStep::WrongHeader((line_no + 1) as usize, l)
        }
    }
}

/// What a read from position `pos`, after line number `line_no`, gives;
/// `header_done`: the header is behind.
pub open spec fn csv_next(s: Seq<char>, pos: int, line_no: int, header_done: bool, cut: bool) -> CsvStep {
    if header_done {
        csv_records(s, pos, line_no, cut)
    } else {
        csv_with_header(s, pos, line_no, cut)
    }
}

/// The parse error `e`, on line `line_no` whose trimmed text is `t`, reports `f`.
pub open spec fn csv_fault_reported(e: ParseError, f: CsvFault, line_no: usize, t: Seq<char>) -> bool {
    match f {
        CsvFault::FieldCount => {
            &&& e.line_no == line_no
            &&& e.line@ == t
            &&& e.field is None
            &&& e.kind == (ParseErrorKind::SemanticRule { msg: MSG_FIELD_COUNT })
        },
        CsvFault::Field(ff) => field_fault_reported(e, ff, line_no, t),
        CsvFault::Semantic(sf) => {
            &&& e.line_no == line_no
            &&& e.line@ == t
            &&& e.field == Some(fault_field(sf))
            &&& e.kind == (ParseErrorKind::SemanticRule { msg: fault_message(sf) })
        },
    }
}

/// The error `e` reports the failing step `st`.
pub open spec fn csv_step_failure(st: CsvStep, e: DataError) -> bool {
    match st {
        CsvStep::NoHeader => e matches DataError::Parse(pe) && {
            &&& pe.line_no == 0
            &&& pe.field is None
            &&& pe.kind == (ParseErrorKind::SemanticRule { msg: MSG_NO_HEADER })
            &&& pe.line@.len() == 0
        },
        CsvStep::WrongHeader(n, l) => e matches DataError::Parse(pe) && {
            &&& pe.line_no == n
            &&& pe.field is None
            &&& pe.kind == (ParseErrorKind::SemanticRule { msg: MSG_WRONG_HEADER })
            &&& pe.line@ == l
        },
        CsvStep::Bad(f, n, t) => e matches DataError::Parse(pe) && csv_fault_reported(pe, f, n, t),
        CsvStep::Unreadable => e is Io,
        _ => false,
    }
}

/// The step at which reading from `pos` stops: the end of the text, or a
/// missing or wrong header, or the first wrong record.
pub open spec fn csv_last_step(s: Seq<char>, pos: int, line_no: int, header_done: bool, cut: bool) -> CsvStep
    decreases s.len() - pos,
{
    match csv_next(s, pos, line_no, header_done, cut) {
        CsvStep::Record(_, np, n) => if pos < np <= s.len() {
            csv_last_step(s, np as int, n as int, true, cut)
        } else {
            CsvStep::End
        },
        other => other,
    }
}

/// The CSV line of an operation, with its line ending.
pub open spec fn csv_record_line(m: OperationModel) -> Seq<char> {
    dec(m.tx_id as nat) + seq![','] + tx_type_name(m.tx_type) + seq![','] + dec(m.from_user_id as nat)
        + seq![','] + dec(m.to_user_id as nat) + seq![','] + dec_signed(m.amount as int) + seq![',']
        + dec(m.timestamp_ms as nat) + seq![','] + status_name(m.status) + seq![',', '"']
        + written_description(m.description) + seq!['"', '\n']
}

/// A reader of CSV statements from text.
pub struct YPBankCsv {
    chars: Vec<char>,
    pos: usize,
    line_no: usize,
    header_done: bool,
    /// The input goes on after the text with a line that cannot be read.
    cut: bool,
}

impl YPBankCsv {
    #[verifier::type_invariant]
    spec fn inv(self) -> bool {
        self.line_no <= self.pos <= self.chars@.len()
    }

    /// The text being read.
    pub closed spec fn text(&self) -> Seq<char> {
        self.chars@
    }

    /// The position of the next read.
    pub closed spec fn position(&self) -> int {
        self.pos as int
    }

    /// The number of lines read so far.
    pub closed spec fn lines_read(&self) -> int {
        self.line_no as int
    }

    /// The input goes on after the text with a line that cannot be read.
    pub closed spec fn stops_short(&self) -> bool {
        self.cut
    }

    /// The header has been read.
    pub closed spec fn header_read(&self) -> bool {
        self.header_done
    }

    /// What the next read gives.
    pub open spec fn next_step(&self) -> CsvStep {
        csv_next(self.text(), self.position(), self.lines_read(), self.header_read(), self.stops_short())
    }

    /// What one read does: from this reader to `after`, returning `r`.
    pub open spec fn read_gives(self, after: Self, r: Result<Option<Operation>>) -> bool {
        &&& after.text() == self.text()
        &&& after.stops_short() == self.stops_short()
        &&& match self.next_step() {
            CsvStep::NoHeader | CsvStep::WrongHeader(..) | CsvStep::Bad(..) | CsvStep::Unreadable => r matches Err(e)
                && csv_step_failure(self.next_step(), e),
            CsvStep::End => r matches Ok(None) && after.position() == self.text().len() && after.header_read(),
            CsvStep::Record(m, np, n) => {
                &&& r matches Ok(Some(op)) && op@ == m
                &&& after.position() == np
                &&& after.lines_read() == n
                &&& after.header_read()
                &&& self.position() < after.position() <= after.text().len()
            },
        }
    }

    /// A reader at the start of `input`.
    pub fn new(input: &str) -> (r: Self)
        ensures
            r.text() == input@,
            r.position() == 0,
            r.lines_read() == 0,
            !r.header_read(),
            !r.stops_short(),
    {
        YPBankCsv { chars: chars_of(input), pos: 0, line_no: 0, header_done: false, cut: false }
    }

    /// A reader at the start of `input`, the readable lines of an input that
    /// goes on (`cut`) with a line that cannot be read.
    pub fn with_end(input: &str, cut: bool) -> (r: Self)
        ensures
            r.text() == input@,
            r.position() == 0,
            r.lines_read() == 0,
            !r.header_read(),
            r.stops_short() == cut,
    {
        YPBankCsv { chars: chars_of(input), pos: 0, line_no: 0, header_done: false, cut }
    }

    /// Reads the next record; `None` when no record line is left.
    pub fn next_op(&mut self) -> (r: Result<Option<Operation>>)
        ensures
            old(self).read_gives(*final(self), r),
    {
        proof {
            use_type_invariant(&*self);
        }
        let n = self.chars.len();
        proof {
            lemma_csv_moves(self.chars@, self.pos as int, self.line_no as int, self.cut);
        }
        if !self.header_done {
            loop
                invariant_except_break
                    !self.header_done,
                    csv_with_header(self.chars@, self.pos as int, self.line_no as int, self.cut) == old(
                        self,
                    ).next_step(),
                invariant
                    self.line_no <= self.pos <= n == self.chars@.len(),
                    self.chars@ == old(self).chars@,
                    self.cut == old(self).cut,
                    old(self).next_step() matches CsvStep::Record(_, np, _) ==> old(self).position() < np
                        <= old(self).text().len(),
                ensures
                    self.header_done,
                    csv_records(self.chars@, self.pos as int, self.line_no as int, self.cut) == old(self).next_step(),
                decreases n - self.pos,
            {
                if self.pos >= n {
                    if self.cut {
                        return Err(DataError::Io(invalid_utf8_input()));
                    }
                    proof {
                        reveal_strlit("");
                    }
                    return Err(
                        DataError::Parse(
                            ParseError::full(
                                0,
                                None,
                                ParseErrorKind::SemanticRule { msg: MSG_NO_HEADER },
                                "",
                            ),
                        ),
                    );
                }
                let (line, next) = read_line_at(&self.chars, self.pos);
                self.pos = next;
                self.line_no = self.line_no + 1;
                let t = trim_chars(&line);
                if t.len() != 0 {
                    if !chars_eq_str(&line, HEADER) {
                        let text = string_of(&line, 0, line.len());
                        proof {
                            assert(line@.subrange(0, line@.len() as int) =~= line@);
                        }
                        return Err(
                            DataError::Parse(
                                ParseError::full(
                                    self.line_no,
                                    None,
                                    ParseErrorKind::SemanticRule { msg: MSG_WRONG_HEADER },
                                    text.as_str(),
                                ),
                            ),
                        );
                    }
                    self.header_done = true;
                    break;
                }
            }
        }
        loop
            invariant
                self.line_no <= self.pos <= n == self.chars@.len(),
                self.header_done,
                self.chars@ == old(self).chars@,
                self.cut == old(self).cut,
                csv_records(self.chars@, self.pos as int, self.line_no as int, self.cut) == old(self).next_step(),
                old(self).next_step() matches CsvStep::Record(_, np, _) ==> old(self).position() < np
                    <= old(self).text().len(),
            decreases n - self.pos,
        {
            if self.pos >= n {
                if self.cut {
                    return Err(DataError::Io(invalid_utf8_input()));
                }
                return Ok(None);
            }
            let (line, next) = read_line_at(&self.chars, self.pos);
            self.pos = next;
            self.line_no = self.line_no + 1;
            let t = trim_chars(&line);
            if t.len() != 0 {
                let text = string_of(&t, 0, t.len());
                proof {
                    assert(t@.subrange(0, t@.len() as int) =~= t@);
                }
                let op = parse_csv_line(&t, self.line_no, text.as_str())?;
                return Ok(Some(op));
            }
        }
    }

    /// Appends one operation as a CSV line (no header).
    pub fn write_op(out: &mut String, op: &Operation) -> (r: Result<()>)
        ensures
            r is Ok,
            final(out)@ == old(out)@ + csv_record_line(op@),
    {
        let ghost start = out@;
        push_u64(out, op.tx_id());
        out.push(',');
        out.push_str(tx_type_text(op.tx_type()));
        out.push(',');
        push_u64(out, op.from_user_id());
        out.push(',');
        push_u64(out, op.to_user_id());
        out.push(',');
        push_i64(out, op.amount());
        out.push(',');
        push_u64(out, op.timestamp_ms());
        out.push(',');
        out.push_str(status_text(op.status()));
        out.push(',');
        out.push('"');
        match op.description() {
            Some(d) => push_unquoted(out, d),
            None => {},
        }
        out.push('"');
        out.push('\n');
        proof {
            assert(out@ =~= start + csv_record_line(op@));
        }
        Ok(())
    }

    /// Appends the header line.
    pub fn write_header(out: &mut String) -> (r: Result<()>)
        ensures
            r is Ok,
            final(out)@ == old(out)@ + HEADER@ + seq!['\n'],
    {
        out.push_str(HEADER);
        out.push('\n');
        Ok(())
    }
}

/// Appends the decimal notation of an unsigned number.
fn push_u64(out: &mut String, v: u64)
    ensures
        final(out)@ == old(out)@ + dec(v as nat),
{
    let t = crate::formats::ypbank::text::u64_to_string(v);
    out.push_str(t.as_str());
}

/// Appends the decimal notation of a signed number.
fn push_i64(out: &mut String, v: i64)
    ensures
        final(out)@ == old(out)@ + dec_signed(v as int),
{
    let t = crate::formats::ypbank::text::i64_to_string(v);
    out.push_str(t.as_str());
}

/// Reads a trimmed, non-empty record line `t`; `line` is its text for errors.
fn parse_csv_line(t: &Vec<char>, line_no: usize, line: &str) -> (r: Result<Operation>)
    requires
        line@ == t@,
    ensures
        match csv_line(t@) {
            Ok(m) => r matches Ok(op) && op@ == m,
            Err(f) => r matches Err(DataError::Parse(e)) && csv_fault_reported(e, f, line_no, t@),
        },
{
    let n = t.len();
    let mut commas: Vec<usize> = Vec::new();
    let mut from: usize = 0;
    let mut k: usize = 0;
    while k < 7
        invariant
            0 <= k <= 7,
            n == t@.len(),
            line@ == t@,
            commas@.len() == k,
            forall|j: int| 0 <= j < k ==> #[trigger] commas@[j] == nth_comma(t@, j as nat),
            forall|j: int| 0 <= j < k ==> #[trigger] commas@[j] < n,
            forall|j: int| 0 < j < k ==> commas@[j - 1] < #[trigger] commas@[j],
            k == 0 ==> from == 0,
            k > 0 ==> from == commas@[k - 1] + 1,
        decreases 7 - k,
    {
        let c = find_char(t, from, ',');
        proof {
            if k > 0 {
                assert(c == nth_comma(t@, k as nat));
            } else {
                assert(c == nth_comma(t@, 0));
            }
        }
        if c >= n {
            proof {
                lemma_nth_comma_stays_at_end(t@, k as nat, 6);
                assert(nth_comma(t@, 6) >= t@.len());
                assert(csv_line(t@) matches Err(CsvFault::FieldCount));
            }
            let e = ParseError::full(
                line_no,
                None,
                ParseErrorKind::SemanticRule { msg: MSG_FIELD_COUNT },
                line,
            );
            return Err(DataError::Parse(e));
        }
        commas.push(c);
        from = c + 1;
        k = k + 1;
    }
    let f0 = slice_chars(t, 0, commas[0]);
    let f1 = slice_chars(t, commas[0] + 1, commas[1]);
    let f2 = slice_chars(t, commas[1] + 1, commas[2]);
    let f3 = slice_chars(t, commas[2] + 1, commas[3]);
    let f4 = slice_chars(t, commas[3] + 1, commas[4]);
    let f5 = slice_chars(t, commas[4] + 1, commas[5]);
    let f6 = slice_chars(t, commas[5] + 1, commas[6]);
    let f7 = slice_chars(t, commas[6] + 1, n);
    proof {
        assert(f0@ == csv_field(t@, 0));
        assert(f1@ == csv_field(t@, 1));
        assert(f2@ == csv_field(t@, 2));
        assert(f3@ == csv_field(t@, 3));
        assert(f4@ == csv_field(t@, 4));
        assert(f5@ == csv_field(t@, 5));
        assert(f6@ == csv_field(t@, 6));
        assert(f7@ == csv_field(t@, 7));
    }
    let tx_id = parse_u64_field(&f0, K_TX_ID, line_no, line)?;
    let tx_type = parse_tx_type_field(&f1, line_no, line)?;
    let from_user_id = parse_u64_field(&f2, K_FROM_USER_ID, line_no, line)?;
    let to_user_id = parse_u64_field(&f3, K_TO_USER_ID, line_no, line)?;
    let amount = parse_nonneg_i64_field(&f4, K_AMOUNT, line_no, line)?;
    let timestamp_ms = parse_u64_field(&f5, K_TIMESTAMP, line_no, line)?;
    let status = parse_status_field(&f6, line_no, line)?;
    let description = parse_description_field(&f7, line_no, line)?;
    let op = Operation::new(
        tx_id,
        tx_type,
        from_user_id,
        to_user_id,
        amount,
        timestamp_ms,
        status,
        Some(description),
    );
    match check_semantics(&op) {
        Some(f) => Err(
            DataError::Parse(
                ParseError::full(
                    line_no,
                    Some(field_of_fault(f)),
                    ParseErrorKind::SemanticRule { msg: message_of_fault(f) },
                    line,
                ),
            ),
        ),
        None => Ok(op),
    }
}

proof fn lemma_nth_comma_stays_at_end(t: Seq<char>, k: nat, j: nat)
    requires
        k <= j,
        nth_comma(t, k) >= t.len(),
    ensures
        nth_comma(t, j) >= t.len(),
    decreases j - k,
{
    if k < j {
        lemma_nth_comma_stays_at_end(t, k, (j - 1) as nat);
        assert(nth_comma(t, j) == next_char(t, nth_comma(t, (j - 1) as nat) + 1, ','));
    }
}


// ------------------------------------------------------------- strategies

/// The reading strategy for `Statement::from_read`: each call reads the next
/// record from the reader it is handed.
pub fn make_next_op() -> (f: impl FnMut(&mut YPBankCsv) -> Result<Option<Operation>>)
    ensures
        forall|p: &mut YPBankCsv| call_requires(f, (p,)),
        forall|p: &mut YPBankCsv, r: Result<Option<Operation>>| call_ensures(f, (p,), r) ==> (*p).read_gives(
            *final(p),
            r,
        ),
{
    |p: &mut YPBankCsv| -> (r: Result<Option<Operation>>)
        ensures
            old(p).read_gives(*final(p), r),
        { p.next_op() }
}

/// The writing strategy for `Statement::write_to`: each call appends the CSV
/// line of one operation to the text it is handed.
pub fn make_write_op() -> (f: impl FnMut(&mut String, &Operation) -> Result<()>)
    ensures
        forall|w: &mut String, op: &Operation| call_requires(f, (w, op)),
        forall|w: &mut String, op: &Operation, r: Result<()>| call_ensures(f, (w, op), r) ==> r is Ok
            && final(w)@ == (*w)@ + csv_record_line(op@),
{
    |w: &mut String, op: &Operation| -> (r: Result<()>)
        ensures
            r is Ok,
            final(w)@ == old(w)@ + csv_record_line(op@),
        { YPBankCsv::write_op(w, op) }
}

// ------------------------------------------------------------ reading back

/// Cells joined by commas.
pub open spec fn join_cells(cells: Seq<Seq<char>>) -> Seq<char>
    decreases cells.len(),
{
    if cells.len() <= 1 {
        if cells.len() == 1 {
            cells[0]
        } else {
            Seq::empty()
        }
    } else {
        join_cells(cells.drop_last()) + seq![','] + cells.last()
    }
}

/// Where cell `k` ends in the joined cells.
pub open spec fn cell_end(cells: Seq<Seq<char>>, k: int) -> int
    decreases k,
{
    if k <= 0 {
        cells[0].len() as int
    } else {
        cell_end(cells, k - 1) + 1 + cells[k].len()
    }
}

/// Where cell `k` starts in the joined cells.
pub open spec fn cell_start(cells: Seq<Seq<char>>, k: int) -> int {
    if k <= 0 {
        0
    } else {
        cell_end(cells, k - 1) + 1
    }
}

/// The cells of the CSV line of an operation.
pub open spec fn csv_cells(m: OperationModel) -> Seq<Seq<char>> {
    seq![
        dec(m.tx_id as nat),
        tx_type_name(m.tx_type),
        dec(m.from_user_id as nat),
        dec(m.to_user_id as nat),
        dec_signed(m.amount as int),
        dec(m.timestamp_ms as nat),
        status_name(m.status),
        seq!['"'] + written_description(m.description) + seq!['"'],
    ]
}

proof fn lemma_cell_end_prefix(cells: Seq<Seq<char>>, i: int)
    requires
        0 <= i < cells.len() - 1,
    ensures
        cell_end(cells.drop_last(), i) == cell_end(cells, i),
    decreases i,
{
    if i > 0 {
        lemma_cell_end_prefix(cells, i - 1);
    }
}

proof fn lemma_cell_end_grows(cells: Seq<Seq<char>>, i: int)
    requires
        0 <= i < cells.len(),
    ensures
        cell_end(cells, i) >= i,
        cell_start(cells, i) <= cell_end(cells, i),
    decreases i,
{
    if i > 0 {
        lemma_cell_end_grows(cells, i - 1);
    }
}

/// The joined cells hold cell `i` in its place, followed by a comma unless
/// it is the last.
proof fn lemma_join_cell(cells: Seq<Seq<char>>, i: int)
    requires
        0 <= i < cells.len(),
    ensures
        join_cells(cells).len() == cell_end(cells, cells.len() - 1),
        join_cells(cells).subrange(cell_start(cells, i), cell_end(cells, i)) == cells[i],
        i < cells.len() - 1 ==> join_cells(cells)[cell_end(cells, i)] == ',',
    decreases cells.len(),
{
    let n = cells.len() as int;
    let j = join_cells(cells);
    lemma_cell_end_grows(cells, i);
    if n == 1 {
        assert(j.subrange(0, cells[0].len() as int) =~= cells[0]);
    } else {
        let dl = cells.drop_last();
        let u = join_cells(dl);
        assert(j == u + seq![','] + cells.last());
        lemma_cell_end_prefix(cells, n - 2);
        if i < n - 1 {
            lemma_join_cell(dl, i);
            lemma_cell_end_prefix(cells, i);
            if i > 0 {
                lemma_cell_end_prefix(cells, i - 1);
                lemma_cell_end_grows(cells, i - 1);
            }
            if i < n - 2 {
                lemma_cell_end_monotone(cells, i, n - 2);
                lemma_cell_end_prefix(cells, i);
            }
            assert(dl[i] == cells[i]);
            assert(j.subrange(cell_start(cells, i), cell_end(cells, i)) =~= u.subrange(
                cell_start(dl, i),
                cell_end(dl, i),
            ));
        } else {
            lemma_join_cell(dl, 0);
            assert(j.subrange(cell_start(cells, i), cell_end(cells, i)) =~= cells.last());
        }
    }
}

proof fn lemma_cell_end_monotone(cells: Seq<Seq<char>>, i: int, k: int)
    requires
        0 <= i < k < cells.len(),
    ensures
        cell_end(cells, i) < cell_end(cells, k),
    decreases k - i,
{
    if i < k - 1 {
        lemma_cell_end_monotone(cells, i, k - 1);
    }
}

/// A character that no cell holds, other than the comma, is not in the joined cells.
proof fn lemma_join_lacks(cells: Seq<Seq<char>>, c: char)
    requires
        c != ',',
        forall|i: int| 0 <= i < cells.len() ==> lacks(#[trigger] cells[i], c),
    ensures
        lacks(join_cells(cells), c),
    decreases cells.len(),
{
    if cells.len() > 1 {
        let dl = cells.drop_last();
        assert forall|i: int| 0 <= i < dl.len() implies lacks(#[trigger] dl[i], c) by {
            assert(dl[i] == cells[i]);
        }
        lemma_join_lacks(dl, c);
        assert(lacks(cells[cells.len() - 1], c));
    }
}

/// In joined cells whose cells before the last hold no comma, the `k`-th
/// comma is the one after cell `k`.
proof fn lemma_join_commas(cells: Seq<Seq<char>>, k: int)
    requires
        cells.len() >= 1,
        0 <= k < cells.len() - 1,
        forall|i: int| 0 <= i < cells.len() - 1 ==> lacks(#[trigger] cells[i], ','),
    ensures
        nth_comma(join_cells(cells), k as nat) == cell_end(cells, k),
        cell_end(cells, k) < join_cells(cells).len(),
    decreases k,
{
    let j = join_cells(cells);
    lemma_join_cell(cells, k);
    lemma_cell_end_grows(cells, k);
    lemma_cell_end_monotone(cells, k, cells.len() - 1);
    if k > 0 {
        lemma_join_commas(cells, k - 1);
        lemma_cell_end_grows(cells, k - 1);
    }
    let from = cell_start(cells, k);
    let to = cell_end(cells, k);
    let ck = cells[k];
    assert(lacks(ck, ','));
    assert forall|i: int| from <= i < to implies j[i] != ',' by {
        assert(j[i] == j.subrange(from, to)[i - from]);
    }
    lemma_next_char_at(j, from, to, ',');
}

/// The CSV line of an operation is its cells, joined, and a line break.
proof fn lemma_csv_record_line_cells(m: OperationModel)
    ensures
        csv_record_line(m) == join_cells(csv_cells(m)) + seq!['\n'],
{
    let c = csv_cells(m);
    reveal_with_fuel(join_cells, 8);
    assert(c.drop_last().drop_last().drop_last().drop_last().drop_last().drop_last().drop_last() =~= seq![c[0]]);
    assert(csv_record_line(m) =~= join_cells(c) + seq!['\n']);
}

/// The cells of a writable operation: plain, but for the quoted description
/// which holds no line break.
proof fn lemma_csv_cells_plain(m: OperationModel)
    requires
        text_writable(m),
    ensures
        forall|i: int| 0 <= i < 7 ==> plain(#[trigger] csv_cells(m)[i]),
        forall|i: int| 0 <= i < 8 ==> lacks(#[trigger] csv_cells(m)[i], '\n'),
        csv_cells(m).len() == 8,
{
    let c = csv_cells(m);
    lemma_dec_plain(m.tx_id as nat);
    lemma_dec_plain(m.from_user_id as nat);
    lemma_dec_plain(m.to_user_id as nat);
    lemma_dec_plain(m.amount as nat);
    lemma_dec_plain(m.timestamp_ms as nat);
    lemma_names_plain(m.tx_type, m.status);
    assert(c[4] == dec(m.amount as nat));
    assert forall|i: int| 0 <= i < 7 implies lacks(#[trigger] c[i], '\n') by {
        assert(plain(c[i]));
        assert forall|k: int| 0 <= k < c[i].len() implies #[trigger] c[i][k] != '\n' by {
            assert(plain_char(c[i][k]));
        }
    }
    let w = written_description(m.description);
    assert forall|k: int| 0 <= k < c[7].len() implies #[trigger] c[7][k] != '\n' by {
        if 0 < k < c[7].len() - 1 {
            assert(c[7][k] == w[k - 1]);
        }
    }
}

/// A plain cell holds no comma.
proof fn lemma_plain_lacks_comma(s: Seq<char>)
    requires
        plain(s),
    ensures
        lacks(s, ','),
{
    assert forall|k: int| 0 <= k < s.len() implies #[trigger] s[k] != ',' by {
        assert(plain_char(s[k]));
    }
}

/// The fields of the body of the CSV line of a writable operation are its cells.
proof fn lemma_csv_fields_are_cells(m: OperationModel, i: int)
    requires
        text_writable(m),
        0 <= i < 8,
    ensures
        nth_comma(join_cells(csv_cells(m)), 6) < join_cells(csv_cells(m)).len(),
        csv_field(join_cells(csv_cells(m)), i as nat) == csv_cells(m)[i],
{
    let c = csv_cells(m);
    let t = join_cells(c);
    lemma_csv_cells_plain(m);
    assert forall|k: int| 0 <= k < c.len() - 1 implies lacks(#[trigger] c[k], ',') by {
        lemma_plain_lacks_comma(c[k]);
    }
    lemma_join_commas(c, 6);
    lemma_join_cell(c, i);
    if i > 0 {
        lemma_join_commas(c, i - 1);
    }
    if i < 7 {
        lemma_join_commas(c, i);
    }
}

/// The body of the CSV line of a writable operation reads as that operation,
/// with its description as written.
#[verifier::rlimit(30)]

/// The columns of a CSV record are, in the order of HEADER, TX_ID, TX_TYPE,
/// FROM_USER_ID, TO_USER_ID, AMOUNT, TIMESTAMP, STATUS and DESCRIPTION: a line
/// that reads as an operation holds each field in its own column, and the
/// line written for an operation holds, column by column, the decimal
/// notation of TX_ID, the name of TX_TYPE, FROM_USER_ID, TO_USER_ID, AMOUNT,
/// TIMESTAMP, the name of STATUS and the quoted description.
pub proof fn lemma_csv_columns(t: Seq<char>, m: OperationModel)
    ensures
        csv_line(t) matches Ok(o) ==> {
            &&& u64_field(csv_field(t, 0), K_TX_ID) == Ok::<u64, FieldFault>(o.tx_id)
            &&& tx_type_field(csv_field(t, 1)) == Ok::<TransactionType, FieldFault>(o.tx_type)
            &&& u64_field(csv_field(t, 2), K_FROM_USER_ID) == Ok::<u64, FieldFault>(o.from_user_id)
            &&& u64_field(csv_field(t, 3), K_TO_USER_ID) == Ok::<u64, FieldFault>(o.to_user_id)
            &&& nonneg_i64_field(csv_field(t, 4), K_AMOUNT) == Ok::<i64, FieldFault>(o.amount)
            &&& u64_field(csv_field(t, 5), K_TIMESTAMP) == Ok::<u64, FieldFault>(o.timestamp_ms)
            &&& status_field(csv_field(t, 6)) == Ok::<Status, FieldFault>(o.status)
            &&& description_field(csv_field(t, 7)) matches Ok(d) && o.description == Some(d)
        },
        text_writable(m) ==> {
            let w = join_cells(csv_cells(m));
            &&& csv_record_line(m) == w + seq!['\n']
            &&& csv_field(w, 0) == dec(m.tx_id as nat)
            &&& csv_field(w, 1) == tx_type_name(m.tx_type)
            &&& csv_field(w, 2) == dec(m.from_user_id as nat)
            &&& csv_field(w, 3) == dec(m.to_user_id as nat)
            &&& csv_field(w, 4) == dec_signed(m.amount as int)
            &&& csv_field(w, 5) == dec(m.timestamp_ms as nat)
            &&& csv_field(w, 6) == status_name(m.status)
            &&& csv_field(w, 7) == seq!['"'] + written_description(m.description) + seq!['"']
        },
{
    lemma_csv_record_line_cells(m);
    if text_writable(m) {
        lemma_csv_fields_are_cells(m, 0);
        lemma_csv_fields_are_cells(m, 1);
        lemma_csv_fields_are_cells(m, 2);
        lemma_csv_fields_are_cells(m, 3);
        lemma_csv_fields_are_cells(m, 4);
        lemma_csv_fields_are_cells(m, 5);
        lemma_csv_fields_are_cells(m, 6);
        lemma_csv_fields_are_cells(m, 7);
    }
}
proof fn lemma_csv_line_reads_back(m: OperationModel)
    requires
        text_writable(m),
    ensures
        csv_line(join_cells(csv_cells(m))) == Ok::<OperationModel, CsvFault>(text_read_back(m)),
{
    let c = csv_cells(m);
    let t = join_cells(c);
    lemma_csv_fields_are_cells(m, 0);
    lemma_csv_fields_are_cells(m, 1);
    lemma_csv_fields_are_cells(m, 2);
    lemma_csv_fields_are_cells(m, 3);
    lemma_csv_fields_are_cells(m, 4);
    lemma_csv_fields_are_cells(m, 5);
    lemma_csv_fields_are_cells(m, 6);
    lemma_csv_fields_are_cells(m, 7);
    lemma_u64_field_dec(m.tx_id, K_TX_ID);
    lemma_tx_type_field_name(m.tx_type);
    lemma_u64_field_dec(m.from_user_id, K_FROM_USER_ID);
    lemma_u64_field_dec(m.to_user_id, K_TO_USER_ID);
    lemma_nonneg_field_dec(m.amount, K_AMOUNT);
    lemma_u64_field_dec(m.timestamp_ms, K_TIMESTAMP);
    lemma_status_field_name(m.status);
    lemma_description_field_quoted(written_description(m.description));
}

/// The body of the CSV line of a writable operation starts with a digit, ends
/// with '"' and holds no line break.
proof fn lemma_csv_body_shape(m: OperationModel)
    requires
        text_writable(m),
    ensures
        join_cells(csv_cells(m)).len() > 0,
        plain_char(join_cells(csv_cells(m))[0]),
        join_cells(csv_cells(m)).last() == '"',
        lacks(join_cells(csv_cells(m)), '\n'),
{
    let c = csv_cells(m);
    let body = join_cells(c);
    lemma_csv_cells_plain(m);
    lemma_join_lacks(c, '\n');
    lemma_join_cell(c, 0);
    lemma_join_cell(c, 7);
    lemma_cell_end_grows(c, 7);
    lemma_cell_end_monotone(c, 0, 7);
    let last = c[7];
    assert(body.last() == body.subrange(cell_start(c, 7), cell_end(c, 7))[last.len() - 1]);
    assert(body[0] == body.subrange(0, cell_end(c, 0))[0]);
    assert(plain(c[0]));
}

/// Reading back a record: where the CSV line of a writable operation stands
/// after any text, the reader (past the header) finds that operation, with its
/// description as written, and goes on just after the line.
#[verifier::rlimit(100)]
#[verifier::spinoff_prover]
pub proof fn lemma_csv_roundtrip(pre: Seq<char>, m: OperationModel, rest: Seq<char>, line_no: int, cut: bool)
    requires
        text_writable(m),
    ensures
        csv_records(pre + csv_record_line(m) + rest, pre.len() as int, line_no, cut) == CsvStep::Record(
            text_read_back(m),
            (pre.len() + csv_record_line(m).len()) as usize,
            (line_no + 1) as usize,
        ),
{
    let body = join_cells(csv_cells(m));
    let s = pre + csv_record_line(m) + rest;
    let pos = pre.len() as int;
    assert(line_at(s, pos) == body && after_line(s, pos) == pos + body.len() + 1 && trim(body) == body) by {
        lemma_csv_record_line_cells(m);
        lemma_csv_body_shape(m);
        assert(s.subrange(pos, pos + body.len()) =~= body);
        assert(s[pos + body.len()] == '\n');
        lemma_line_at(s, pos, body);
        lemma_trim_keeps(body);
    }
    lemma_csv_record_line_cells(m);
    lemma_csv_line_reads_back(m);
}

// ------------------------------------------------------------- statements

/// The operations that reading from `pos` gives up to the end of the text;
/// `None` where the header or a record is wrong.
pub open spec fn csv_all(s: Seq<char>, pos: int, line_no: int, header_done: bool, cut: bool) -> Option<
    Seq<OperationModel>,
>
    decreases s.len() - pos,
{
    match csv_next(s, pos, line_no, header_done, cut) {
        CsvStep::End => Some(Seq::empty()),
        CsvStep::Record(m, np, n) => if pos < np <= s.len() {
            match csv_all(s, np as int, n as int, true, cut) {
                Some(r) => Some(seq![m] + r),
                None => None,
            }
        } else {
            None
        },
        _ => None,
    }
}

/// The CSV lines of operations, one after another.
pub open spec fn csv_lines(ops: Seq<OperationModel>) -> Seq<char>
    decreases ops.len(),
{
    if ops.len() == 0 {
        Seq::empty()
    } else {
        csv_lines(ops.drop_last()) + csv_record_line(ops.last())
    }
}

/// A CSV statement: the header line, then the lines of the operations.
pub open spec fn csv_text(ops: Seq<OperationModel>) -> Seq<char> {
    HEADER@ + seq!['\n'] + csv_lines(ops)
}

/// A read that gives a record moves forward, and stays in the text.
pub proof fn lemma_csv_moves(s: Seq<char>, pos: int, line_no: int, cut: bool)
    requires
        0 <= pos <= s.len(),
        s.len() <= usize::MAX,
    ensures
        csv_records(s, pos, line_no, cut) matches CsvStep::Record(_, np, _) ==> pos < np <= s.len(),
        csv_with_header(s, pos, line_no, cut) matches CsvStep::Record(_, np, _) ==> pos < np <= s.len(),
    decreases s.len() - pos,
{
    if pos < s.len() {
        let np = after_line(s, pos);
        lemma_next_char_bounds(s, pos, '\n');
        assert(pos < np <= s.len());
        lemma_csv_moves(s, np, line_no + 1, cut);
    }
}

proof fn lemma_csv_lines_prefix(ops: Seq<OperationModel>, j: int, k: int)
    requires
        0 <= j <= k <= ops.len(),
    ensures
        csv_lines(ops.take(k)) =~= csv_lines(ops.take(j)) + csv_lines(ops.take(k)).skip(
            csv_lines(ops.take(j)).len() as int,
        ),
        csv_lines(ops.take(j)).len() + (k - j) <= csv_lines(ops.take(k)).len(),
    decreases k - j,
{
    if j < k {
        lemma_csv_lines_prefix(ops, j, k - 1);
        assert(ops.take(k).drop_last() =~= ops.take(k - 1));
    }
}

/// Where the line of the `i`-th operation starts in its CSV statement.
pub open spec fn csv_line_start(ops: Seq<OperationModel>, i: int) -> int {
    (HEADER@.len() + 1 + csv_lines(ops.take(i)).len()) as int
}

/// One record of a CSV statement of writable operations read after the header.
#[verifier::rlimit(60)]
proof fn lemma_csv_all_step(ops: Seq<OperationModel>, i: int)
    requires
        0 <= i < ops.len(),
        forall|k: int| 0 <= k < ops.len() ==> text_writable(#[trigger] ops[k]),
        csv_text(ops).len() <= usize::MAX,
    ensures
        csv_line_start(ops, i) < csv_line_start(ops, i + 1) <= csv_text(ops).len(),
        csv_all(csv_text(ops), csv_line_start(ops, i), i + 1, true, false) == match csv_all(
            csv_text(ops),
            csv_line_start(ops, i + 1),
            i + 2,
            true,
            false,
        ) {
            Some(r) => Some(seq![text_read_back(ops[i])] + r),
            None => None,
        },
{
    let s = csv_text(ops);
    let h = HEADER@ + seq!['\n'];
    let n = ops.len() as int;
    let m = ops[i];
    let pre = h + csv_lines(ops.take(i));
    let q = csv_lines(ops.take(i + 1)).len() as int;
    let rest = csv_lines(ops).skip(q);
    assert(s == pre + csv_record_line(m) + rest && csv_lines(ops.take(i + 1)).len() == csv_lines(
        ops.take(i),
    ).len() + csv_record_line(m).len() && i + 1 <= csv_lines(ops).len()) by {
        assert(ops.take(n) =~= ops);
        lemma_csv_lines_prefix(ops, i + 1, n);
        lemma_csv_lines_prefix(ops, 0, n);
        assert(ops.take(i + 1).drop_last() =~= ops.take(i));
        assert(csv_lines(ops.take(i + 1)) == csv_lines(ops.take(i)) + csv_record_line(m));
        assert(csv_lines(ops) =~= csv_lines(ops.take(i)) + csv_record_line(m) + rest);
        assert(s =~= pre + csv_record_line(m) + rest);
    }
    assert(pre.len() == csv_line_start(ops, i));
    lemma_csv_roundtrip(pre, m, rest, i + 1, false);
    assert(csv_record_line(m).len() > 0);
}

/// Reading the lines of writable operations after the header, from the start
/// of the `i`-th, gives those operations from the `i`-th on.
proof fn lemma_csv_all_from(ops: Seq<OperationModel>, i: int)
    requires
        0 <= i <= ops.len(),
        forall|k: int| 0 <= k < ops.len() ==> text_writable(#[trigger] ops[k]),
        csv_text(ops).len() <= usize::MAX,
    ensures
        csv_all(csv_text(ops), csv_line_start(ops, i), i + 1, true, false) == Some(
            ops.skip(i).map_values(|m: OperationModel| text_read_back(m)),
        ),
    decreases ops.len() - i,
{
    let n = ops.len() as int;
    if i == n {
        assert(ops.take(n) =~= ops);
        assert(ops.skip(i).map_values(|m: OperationModel| text_read_back(m)) =~= Seq::<OperationModel>::empty());
    } else {
        lemma_csv_all_step(ops, i);
        lemma_csv_all_from(ops, i + 1);
        assert(ops.skip(i).map_values(|m: OperationModel| text_read_back(m)) =~= seq![text_read_back(ops[i])]
            + ops.skip(i + 1).map_values(|m: OperationModel| text_read_back(m)));
    }
}

/// Reading back a statement: the header and the lines of writable operations
/// read as those operations, with their descriptions as written.
pub proof fn lemma_csv_read_written(ops: Seq<OperationModel>)
    requires
        forall|k: int| 0 <= k < ops.len() ==> text_writable(#[trigger] ops[k]),
        csv_text(ops).len() <= usize::MAX,
    ensures
        csv_all(csv_text(ops), 0, 0, false, false) == Some(ops.map_values(|m: OperationModel| text_read_back(m))),
{
    let s = csv_text(ops);
    let hl = HEADER@.len() as int;
    reveal_strlit("TX_ID,TX_TYPE,FROM_USER_ID,TO_USER_ID,AMOUNT,TIMESTAMP,STATUS,DESCRIPTION");
    assert(HEADER@.len() == 73);
    assert(s.subrange(0, hl) =~= HEADER@);
    assert(s[hl] == '\n');
    lemma_line_at(s, 0, HEADER@);
    lemma_trim_keeps(HEADER@);
    assert(line_at(s, 0) == HEADER@);
    assert(after_line(s, 0) == hl + 1);
    assert(trim(line_at(s, 0)).len() == 73);
    assert(0 < s.len());
    assert(csv_with_header(s, 0, 0, false) == csv_records(s, hl + 1, 1, false));
    lemma_csv_moves(s, hl + 1, 1, false);
    lemma_csv_all_from(ops, 0);
    assert(ops.take(0) =~= Seq::<OperationModel>::empty());
    assert(ops.skip(0) =~= ops);
}

} // verus!
