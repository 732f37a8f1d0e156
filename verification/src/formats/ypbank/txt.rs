//! The text format YPBankText:
//! - a record is a block of `KEY: VALUE` lines; blocks are separated by a blank line;
//! - lines that start with '#' are comments and are skipped;
//! - fields may come in any order, but each must appear exactly once;
//! - DESCRIPTION is in double quotes, UTF-8, and may hold spaces.

use vstd::prelude::*;

use crate::data::{Operation, OperationModel, Status, TransactionType};
use crate::errors::{DataError, ParseError, ParseErrorKind, Result};
use crate::formats::ypbank::fields::{
    FieldFault, K_AMOUNT, push_unquoted, status_name, status_text, tx_type_name, tx_type_text,
    written_description, K_DESCRIPTION, K_FROM_USER_ID, K_STATUS, K_TIMESTAMP, K_TO_USER_ID,
    K_TX_ID, K_TX_TYPE, SemanticFault, check_semantics, description_field, fault_field,
    fault_message, field_fault_reported, field_of_fault, message_of_fault, nonneg_i64_field,
    parse_description_field, parse_nonneg_i64_field, parse_status_field, parse_tx_type_field,
    parse_u64_field, semantic_fault, status_field, tx_type_field, u64_field,
};
use crate::formats::ypbank::fields::{
    lemma_dec_plain, lemma_description_field_quoted, lemma_names_plain, lemma_nonneg_field_dec,
    lemma_plain_trim, lemma_status_field_name, lemma_tx_type_field_name, lemma_u64_field_dec, plain,
    plain_char, text_read_back, text_writable,
};
use crate::formats::ypbank::text::{
    invalid_utf8_input, after_line, chars_eq_str, lemma_line_at_shape, trim_start, chars_of, dec, dec_signed, find_char, i64_to_string, is_ws, lacks,
    lemma_line_at, lemma_next_char_at, lemma_next_char_bounds, lemma_trim_keeps, lemma_trim_space_before, line_at, next_char,
    read_line_at, slice_chars, string_of, trim, trim_chars, u64_to_string,
};

verus! {

/// The fields of a record read so far.
pub struct TxtFields {
    pub tx_id: Option<u64>,
    pub tx_type: Option<TransactionType>,
    pub from_user_id: Option<u64>,
    pub to_user_id: Option<u64>,
    pub amount: Option<i64>,
    pub timestamp_ms: Option<u64>,
    pub status: Option<Status>,
    pub description: Option<Seq<char>>,
}

/// No field read yet.
pub open spec fn no_fields() -> TxtFields {
    TxtFields {
        tx_id: None,
        tx_type: None,
        from_user_id: None,
        to_user_id: None,
        amount: None,
        timestamp_ms: None,
        status: None,
        description: None,
    }
}

/// Every field of the record has been read.
pub open spec fn complete(f: TxtFields) -> bool {
    &&& f.tx_id is Some
    &&& f.tx_type is Some
    &&& f.from_user_id is Some
    &&& f.to_user_id is Some
    &&& f.amount is Some
    &&& f.timestamp_ms is Some
    &&& f.status is Some
    &&& f.description is Some
}

/// `key`, where its field is missing.
pub open spec fn if_missing(missing: bool, key: &'static str) -> Seq<&'static str> {
    if missing {
        seq![key]
    } else {
        Seq::empty()
    }
}

/// The keys of the fields not read, in the order TX_ID .. DESCRIPTION.
pub open spec fn missing_names(f: TxtFields) -> Seq<&'static str> {
    if_missing(f.tx_id is None, K_TX_ID) + if_missing(f.tx_type is None, K_TX_TYPE) + if_missing(
        f.from_user_id is None,
        K_FROM_USER_ID,
    ) + if_missing(f.to_user_id is None, K_TO_USER_ID) + if_missing(f.amount is None, K_AMOUNT) + if_missing(
        f.timestamp_ms is None,
        K_TIMESTAMP,
    ) + if_missing(f.status is None, K_STATUS) + if_missing(f.description is None, K_DESCRIPTION)
}

/// No key is missing exactly where the record is complete.
pub proof fn lemma_missing_names(f: TxtFields)
    ensures
        missing_names(f).len() == 0 <==> complete(f),
{
}

/// The operation of a complete record (of a field not read, the fallback
/// 0, DEPOSIT, SUCCESS or the empty description stands in).
pub open spec fn built(f: TxtFields) -> OperationModel {
    OperationModel {
        tx_id: match f.tx_id {
            Some(v) => v,
            None => 0,
        },
        tx_type: match f.tx_type {
            Some(v) => v,
            None => TransactionType::Deposit,
        },
        from_user_id: match f.from_user_id {
            Some(v) => v,
            None => 0,
        },
        to_user_id: match f.to_user_id {
            Some(v) => v,
            None => 0,
        },
        amount: match f.amount {
            Some(v) => v,
            None => 0,
        },
        timestamp_ms: match f.timestamp_ms {
            Some(v) => v,
            None => 0,
        },
        status: match f.status {
            Some(v) => v,
            None => Status::Success,
        },
        description: match f.description {
            Some(v) => Some(v),
            None => Some(Seq::empty()),
        },
    }
}

/// What can be wrong with a record.
pub enum TxtFault {
    /// A line that is not `KEY: VALUE` (it has no ':').
    ExpectedKeyValue,
    /// A key that the format does not know.
    UnknownField(Seq<char>),
    /// A key given twice in one record.
    Duplicate(&'static str),
    /// The record ends without these fields.
    Missing(Seq<&'static str>),
    /// A field holds a wrong value.
    Field(FieldFault),
    /// The operation breaks a rule of meaning.
    Semantic(SemanticFault),
}

/// What the next read gives.
pub enum TxtStep {
    /// No field is left before the end of the input.
    End,
    /// An operation, the position after its block, and the number of the last line read.
    Record(OperationModel, usize, usize),
    /// A wrong record: the fault, the number of the line it was found on, and
    /// the text reported with it.
    Bad(TxtFault, usize, Seq<char>),
    /// The next line cannot be read: the input is not UTF-8 there.
    Unreadable,
}

/// The fields read so far with `key: value` added.
pub open spec fn with_field(f: TxtFields, key: Seq<char>, value: Seq<char>) -> std::result::Result<TxtFields, TxtFault> {
    if key == K_TX_ID@ {
        if f.tx_id is Some {
            Err(TxtFault::Duplicate(K_TX_ID))
        } else {
            match u64_field(value, K_TX_ID) {
                Ok(v) => Ok(TxtFields { tx_id: Some(v), ..f }),
                Err(e) => Err(TxtFault::Field(e)),
            }
        }
    } else if key == K_TX_TYPE@ {
        if f.tx_type is Some {
            Err(TxtFault::Duplicate(K_TX_TYPE))
        } else {
            match tx_type_field(value) {
                Ok(v) => Ok(TxtFields { tx_type: Some(v), ..f }),
                Err(e) => Err(TxtFault::Field(e)),
            }
        }
    } else if key == K_FROM_USER_ID@ {
        if f.from_user_id is Some {
            Err(TxtFault::Duplicate(K_FROM_USER_ID))
        } else {
            match u64_field(value, K_FROM_USER_ID) {
                Ok(v) => Ok(TxtFields { from_user_id: Some(v), ..f }),
                Err(e) => Err(TxtFault::Field(e)),
            }
        }
    } else if key == K_TO_USER_ID@ {
        if f.to_user_id is Some {
            Err(TxtFault::Duplicate(K_TO_USER_ID))
        } else {
            match u64_field(value, K_TO_USER_ID) {
                Ok(v) => Ok(TxtFields { to_user_id: Some(v), ..f }),
                Err(e) => Err(TxtFault::Field(e)),
            }
        }
    } else if key == K_AMOUNT@ {
        if f.amount is Some {
            Err(TxtFault::Duplicate(K_AMOUNT))
        } else {
            match nonneg_i64_field(value, K_AMOUNT) {
                Ok(v) => Ok(TxtFields { amount: Some(v), ..f }),
                Err(e) => Err(TxtFault::Field(e)),
            }
        }
    } else if key == K_TIMESTAMP@ {
        if f.timestamp_ms is Some {
            Err(TxtFault::Duplicate(K_TIMESTAMP))
        } else {
            match u64_field(value, K_TIMESTAMP) {
                Ok(v) => Ok(TxtFields { timestamp_ms: Some(v), ..f }),
                Err(e) => Err(TxtFault::Field(e)),
            }
        }
    } else if key == K_STATUS@ {
        if f.status is Some {
            Err(TxtFault::Duplicate(K_STATUS))
        } else {
            match status_field(value) {
                Ok(v) => Ok(TxtFields { status: Some(v), ..f }),
                Err(e) => Err(TxtFault::Field(e)),
            }
        }
    } else if key == K_DESCRIPTION@ {
        if f.description is Some {
            Err(TxtFault::Duplicate(K_DESCRIPTION))
        } else {
            match description_field(value) {
                Ok(v) => Ok(TxtFields { description: Some(v), ..f }),
                Err(e) => Err(TxtFault::Field(e)),
            }
        }
    } else {
        Err(TxtFault::UnknownField(key))
    }
}

/// The end of a record, on line `line_no`: its operation, unless a field is
/// missing or it breaks a rule of meaning.
pub open spec fn finish(f: TxtFields, line_no: int, next: int) -> TxtStep {
    if !complete(f) {
        TxtStep::Bad(TxtFault::Missing(missing_names(f)), line_no as usize, Seq::empty())
    } else {
        match semantic_fault(built(f)) {
            Some(sf) => TxtStep::Bad(TxtFault::Semantic(sf), line_no as usize, Seq::empty()),
            None => TxtStep::Record(built(f), next as usize, line_no as usize),
        }
    }
}

/// Reading from position `pos`, after line `line_no`, with the fields `f`
/// of the current record read so far (`any`: at least one); `cut`: the input
/// goes on after the text `s` with a line that cannot be read.
pub open spec fn txt_step(s: Seq<char>, pos: int, line_no: int, f: TxtFields, any: bool, cut: bool) -> TxtStep
    decreases s.len() - pos,
{
    if pos < 0 || pos >= s.len() {
        if cut {
            TxtStep::Unreadable
        } else if !any {
            TxtStep::End
        } else {
            finish(f, line_no, s.len() as int)
        }
    } else {
        let l = line_at(s, pos);
        let np = after_line(s, pos);
        let ln = line_no + 1;
        let t = trim(l);
        if t.len() == 0 || t[0] == '#' {
            if t.len() == 0 && any {
                finish(f, ln, np)
            } else if pos < np <= s.len() {
                txt_step(s, np, ln, f, any, cut)
            } else {
                TxtStep::End
            }
        } else {
            let c = next_char(l, 0, ':');
            if c >= l.len() {
                TxtStep::Bad(TxtFault::ExpectedKeyValue, ln as usize, l)
            } else {
                match with_field(f, trim(l.subrange(0, c)), trim(l.subrange(c + 1, l.len() as int))) {
                    Ok(f2) => if pos < np <= s.len() {
                        txt_step(s, np, ln, f2, true, cut)
                    } else {
                        TxtStep::End
                    },
                    Err(fault) => TxtStep::Bad(fault, ln as usize, l),
                }
            }
        }
    }
}

/// The parse error `e`, on line `line_no`, reports `f` with the text `l`.
pub open spec fn txt_fault_reported(e: ParseError, f: TxtFault, line_no: usize, l: Seq<char>) -> bool {
    match f {
        TxtFault::ExpectedKeyValue => {
            &&& e.line_no == line_no
            &&& e.line@ == l
            &&& e.field is None
            &&& e.kind matches ParseErrorKind::ExpectedKeyValue
        },
        TxtFault::UnknownField(k) => {
            &&& e.line_no == line_no
            &&& e.line@ == l
            &&& e.field is None
            &&& e.kind matches ParseErrorKind::UnknownField { name } && name@ == k
        },
        TxtFault::Duplicate(key) => {
            &&& e.line_no == line_no
            &&& e.line@ == l
            &&& e.field == Some(key)
            &&& e.kind == (ParseErrorKind::DuplicateField { name: key })
        },
        TxtFault::Missing(keys) => {
            &&& e.line_no == line_no
            &&& e.line@ == l
            &&& e.field is None
            &&& e.kind matches ParseErrorKind::MissingFields { names } && names@ == keys
        },
        TxtFault::Field(ff) => field_fault_reported(e, ff, line_no, l),
        TxtFault::Semantic(sf) => {
            &&& e.line_no == line_no
            &&& e.line@ == l
            &&& e.field == Some(fault_field(sf))
            &&& e.kind == (ParseErrorKind::SemanticRule { msg: fault_message(sf) })
        },
    }
}

/// The error `e` reports the failing step `st`.
pub open spec fn txt_step_failure(st: TxtStep, e: DataError) -> bool {
    match st {
        TxtStep::Bad(f, n, l) => e matches DataError::Parse(pe) && txt_fault_reported(pe, f, n, l),
        TxtStep::Unreadable => e is Io,
        _ => false,
    }
}

/// The step at which reading from `pos`, after line `line_no`, stops: the end
/// of the text, the first wrong record, or the line that cannot be read.
pub open spec fn txt_last_step(s: Seq<char>, pos: int, line_no: int, cut: bool) -> TxtStep
    decreases s.len() - pos,
{
    match txt_step(s, pos, line_no, no_fields(), false, cut) {
        TxtStep::Record(_, np, n) => if pos < np <= s.len() {
            txt_last_step(s, np as int, n as int, cut)
        } else {
            TxtStep::End
        },
        other => other,
    }
}

/// The `KEY: VALUE` line of one field.
pub open spec fn kv_line(key: &'static str, value: Seq<char>) -> Seq<char> {
    key@ + seq![':', ' '] + value + seq!['\n']
}

/// The block of an operation: its eight lines and a blank line.
pub open spec fn txt_record(m: OperationModel) -> Seq<char> {
    kv_line(K_TX_ID, dec(m.tx_id as nat)) + kv_line(K_TX_TYPE, tx_type_name(m.tx_type)) + kv_line(
        K_FROM_USER_ID,
        dec(m.from_user_id as nat),
    ) + kv_line(K_TO_USER_ID, dec(m.to_user_id as nat)) + kv_line(K_AMOUNT, dec_signed(m.amount as int))
        + kv_line(K_TIMESTAMP, dec(m.timestamp_ms as nat)) + kv_line(K_STATUS, status_name(m.status))
        + kv_line(K_DESCRIPTION, seq!['"'] + written_description(m.description) + seq!['"']) + seq![
        '\n',
    ]
}

/// The fields of a record as they are read.
struct OpBuilder {
    tx_id: Option<u64>,
    tx_type: Option<TransactionType>,
    from_user_id: Option<u64>,
    to_user_id: Option<u64>,
    amount: Option<i64>,
    timestamp_ms: Option<u64>,
    status: Option<Status>,
    description: Option<String>,
}

impl View for OpBuilder {
    type V = TxtFields;

    closed spec fn view(&self) -> TxtFields {
        TxtFields {
            tx_id: self.tx_id,
            tx_type: self.tx_type,
            from_user_id: self.from_user_id,
            to_user_id: self.to_user_id,
            amount: self.amount,
            timestamp_ms: self.timestamp_ms,
            status: self.status,
            description: match self.description {
                Some(s) => Some(s@),
                None => None,
            },
        }
    }
}

impl OpBuilder {
    /// No field read yet.
    fn new() -> (r: Self)
        ensures
            r@ == no_fields(),
    {
        OpBuilder {
            tx_id: None,
            tx_type: None,
            from_user_id: None,
            to_user_id: None,
            amount: None,
            timestamp_ms: None,
            status: None,
            description: None,
        }
    }

    /// Fails with a duplicate-field error where the slot is already filled.
    fn ensure_empty<T>(slot: &Option<T>, line_no: usize, field: &'static str, line: &str) -> (r: Result<()>)
        ensures
            slot is None ==> r is Ok,
            slot is Some ==> (r matches Err(DataError::Parse(e)) && txt_fault_reported(
                e,
                TxtFault::Duplicate(field),
                line_no,
                line@,
            )),
    {
        if slot.is_some() {
            return Err(
                DataError::Parse(
                    ParseError::full(line_no, Some(field), ParseErrorKind::DuplicateField { name: field }, line),
                ),
            );
        }
        Ok(())
    }

    /// The keys of the fields not read, in the order TX_ID .. DESCRIPTION.
    fn missing(&self) -> (r: Vec<&'static str>)
        ensures
            r@ == missing_names(self@),
    {
        let mut r: Vec<&'static str> = Vec::new();
        push_if_missing(&mut r, self.tx_id.is_none(), K_TX_ID);
        push_if_missing(&mut r, self.tx_type.is_none(), K_TX_TYPE);
        push_if_missing(&mut r, self.from_user_id.is_none(), K_FROM_USER_ID);
        push_if_missing(&mut r, self.to_user_id.is_none(), K_TO_USER_ID);
        push_if_missing(&mut r, self.amount.is_none(), K_AMOUNT);
        push_if_missing(&mut r, self.timestamp_ms.is_none(), K_TIMESTAMP);
        push_if_missing(&mut r, self.status.is_none(), K_STATUS);
        push_if_missing(&mut r, self.description.is_none(), K_DESCRIPTION);
        proof {
            assert(r@ =~= missing_names(self@));
        }
        r
    }

    /// The operation of the record (the fallback values stand in for fields
    /// not read; `finish_record` builds only complete records).
    fn build(self) -> (r: Operation)
        ensures
            r@ == built(self@),
    {
        let tx_id = match self.tx_id {
            Some(v) => v,
            None => 0,
        };
        let tx_type = match self.tx_type {
            Some(v) => v,
            None => TransactionType::Deposit,
        };
        let from_user_id = match self.from_user_id {
            Some(v) => v,
            None => 0,
        };
        let to_user_id = match self.to_user_id {
            Some(v) => v,
            None => 0,
        };
        let amount = match self.amount {
            Some(v) => v,
            None => 0,
        };
        let timestamp_ms = match self.timestamp_ms {
            Some(v) => v,
            None => 0,
        };
        let status = match self.status {
            Some(v) => v,
            None => Status::Success,
        };
        let description = match self.description {
            Some(v) => v,
            None => String::new(),
        };
        Operation::new(
            tx_id,
            tx_type,
            from_user_id,
            to_user_id,
            amount,
            timestamp_ms,
            status,
            Some(description),
        )
    }

    /// Adds the field `key: value` read on line `line_no` (whose text is `line`).
    fn add_field(&mut self, key: &Vec<char>, value: &Vec<char>, line_no: usize, line: &str) -> (r: Result<()>)
        ensures
            match with_field(old(self)@, key@, value@) {
                Ok(f) => r is Ok && final(self)@ == f,
                Err(fault) => r matches Err(DataError::Parse(e)) && txt_fault_reported(e, fault, line_no, line@),
            },
    {
        if chars_eq_str(key, K_TX_ID) {
            OpBuilder::ensure_empty(&self.tx_id, line_no, K_TX_ID, line)?;
            self.tx_id = Some(parse_u64_field(value, K_TX_ID, line_no, line)?);
        } else if chars_eq_str(key, K_TX_TYPE) {
            OpBuilder::ensure_empty(&self.tx_type, line_no, K_TX_TYPE, line)?;
            self.tx_type = Some(parse_tx_type_field(value, line_no, line)?);
        } else if chars_eq_str(key, K_FROM_USER_ID) {
            OpBuilder::ensure_empty(&self.from_user_id, line_no, K_FROM_USER_ID, line)?;
            self.from_user_id = Some(parse_u64_field(value, K_FROM_USER_ID, line_no, line)?);
        } else if chars_eq_str(key, K_TO_USER_ID) {
            OpBuilder::ensure_empty(&self.to_user_id, line_no, K_TO_USER_ID, line)?;
            self.to_user_id = Some(parse_u64_field(value, K_TO_USER_ID, line_no, line)?);
        } else if chars_eq_str(key, K_AMOUNT) {
            OpBuilder::ensure_empty(&self.amount, line_no, K_AMOUNT, line)?;
            self.amount = Some(parse_nonneg_i64_field(value, K_AMOUNT, line_no, line)?);
        } else if chars_eq_str(key, K_TIMESTAMP) {
            OpBuilder::ensure_empty(&self.timestamp_ms, line_no, K_TIMESTAMP, line)?;
            self.timestamp_ms = Some(parse_u64_field(value, K_TIMESTAMP, line_no, line)?);
        } else if chars_eq_str(key, K_STATUS) {
            OpBuilder::ensure_empty(&self.status, line_no, K_STATUS, line)?;
            self.status = Some(parse_status_field(value, line_no, line)?);
        } else if chars_eq_str(key, K_DESCRIPTION) {
            OpBuilder::ensure_empty(&self.description, line_no, K_DESCRIPTION, line)?;
            self.description = Some(parse_description_field(value, line_no, line)?);
        } else {
            let name = string_of(key, 0, key.len());
            proof {
                assert(key@.subrange(0, key@.len() as int) =~= key@);
            }
            return Err(
                DataError::Parse(ParseError::full(line_no, None, ParseErrorKind::UnknownField { name }, line)),
            );
        }
        Ok(())
    }
}

/// A reader of YPBankText records from text.
pub struct YPBankText {
    chars: Vec<char>,
    pos: usize,
    /// The number of the last line read.
    line_no: usize,
    /// The input goes on after the text with a line that cannot be read.
    cut: bool,
}

impl YPBankText {
    #[verifier::type_invariant]
    spec fn inv(self) -> bool {
        self.line_no <= self.pos <= self.chars@.len()
    }

    /// The text being read.
    pub closed spec fn text(&self) -> Seq<char> {
        self.chars@
    }

    /// The position of the next read.
    pub closed spec fn position(&self) -> int {
        self.pos as int
    }

    /// The number of lines read so far.
    pub closed spec fn lines_read(&self) -> int {
        self.line_no as int
    }

    /// The input goes on after the text with a line that cannot be read.
    pub closed spec fn stops_short(&self) -> bool {
        self.cut
    }

    /// What the next read gives.
    pub open spec fn next_step(&self) -> TxtStep {
        txt_step(self.text(), self.position(), self.lines_read(), no_fields(), false, self.stops_short())
    }

    /// What one read does: from this reader to `after`, returning `r`.
    pub open spec fn read_gives(self, after: Self, r: Result<Option<Operation>>) -> bool {
        &&& after.text() == self.text()
        &&& after.stops_short() == self.stops_short()
        &&& match self.next_step() {
            TxtStep::End => r matches Ok(None) && after.position() == self.text().len(),
            TxtStep::Record(m, np, n) => {
                &&& r matches Ok(Some(op)) && op@ == m
                &&& after.position() == np
                &&& after.lines_read() == n
                &&& self.position() < after.position() <= after.text().len()
            },
            TxtStep::Bad(..) | TxtStep::Unreadable => r matches Err(e) && txt_step_failure(
                self.next_step(),
                e,
            ),
        }
    }

    /// A reader at the start of `input`.
    pub fn new(input: &str) -> (r: Self)
        ensures
            r.text() == input@,
            r.position() == 0,
            r.lines_read() == 0,
            !r.stops_short(),
    {
        YPBankText { chars: chars_of(input), pos: 0, line_no: 0, cut: false }
    }

    /// A reader at the start of `input`, the readable lines of an input that
    /// goes on (`cut`) with a line that cannot be read.
    pub fn with_end(input: &str, cut: bool) -> (r: Self)
        ensures
            r.text() == input@,
            r.position() == 0,
            r.lines_read() == 0,
            r.stops_short() == cut,
    {
        YPBankText { chars: chars_of(input), pos: 0, line_no: 0, cut }
    }

    /// Reads the next block and returns its operation; `None` when no field is left.
    pub fn next_op(&mut self) -> (r: Result<Option<Operation>>)
        ensures
            old(self).read_gives(*final(self), r),
    {
        proof {
            use_type_invariant(&*self);
        }
        let n = self.chars.len();
        proof {
            lemma_txt_step_moves(self.chars@, self.pos as int, self.line_no as int, no_fields(), false, self.cut);
        }
        let mut b = OpBuilder::new();
        let mut any_field = false;
        loop
            invariant
                self.line_no <= self.pos <= n == self.chars@.len(),
                self.chars@ == old(self).chars@,
                self.cut == old(self).cut,
                !any_field ==> b@ == no_fields(),
                txt_step(self.chars@, self.pos as int, self.line_no as int, b@, any_field, self.cut) == old(
                    self,
                ).next_step(),
                old(self).next_step() matches TxtStep::Record(_, np, _) ==> old(self).position() < np
                    <= old(self).text().len(),
            decreases n - self.pos,
        {
            if self.pos >= n {
                if self.cut {
                    return Err(DataError::Io(invalid_utf8_input()));
                }
                if !any_field {
                    return Ok(None);
                }
                return self.finish_record(b);
            }
            let (line, next) = read_line_at(&self.chars, self.pos);
            self.pos = next;
            self.line_no = self.line_no + 1;
            let t = trim_chars(&line);
            if t.len() == 0 || t[0] == '#' {
                if t.len() == 0 && any_field {
                    return self.finish_record(b);
                }
            } else {
                let text = string_of(&line, 0, line.len());
                proof {
                    assert(line@.subrange(0, line@.len() as int) =~= line@);
                }
                let c = find_char(&line, 0, ':');
                if c >= line.len() {
                    return Err(
                        DataError::Parse(
                            ParseError::full(self.line_no, None, ParseErrorKind::ExpectedKeyValue, text.as_str()),
                        ),
                    );
                }
                let k = slice_chars(&line, 0, c);
                let v = slice_chars(&line, c + 1, line.len());
                let key = trim_chars(&k);
                let value = trim_chars(&v);
                b.add_field(&key, &value, self.line_no, text.as_str())?;
                any_field = true;
            }
        }
    }

    /// Ends the record with the fields `b`: its operation, unless a field is
    /// missing or it breaks a rule of meaning.
    fn finish_record(&self, b: OpBuilder) -> (r: Result<Option<Operation>>)
        ensures
            match finish(b@, self.line_no as int, self.pos as int) {
                TxtStep::Record(m, _, _) => r matches Ok(Some(op)) && op@ == m,
                TxtStep::Bad(f, n, l) => r matches Err(DataError::Parse(e)) && txt_fault_reported(e, f, n, l),
                _ => false,
            },
    {
        let missing = b.missing();
        proof {
            lemma_missing_names(b@);
        }
        if missing.len() > 0 {
            proof {
                reveal_strlit("");
                assert(""@ =~= Seq::<char>::empty());
            }
            return Err(
                DataError::Parse(
                    ParseError::full(self.line_no, None, ParseErrorKind::MissingFields { names: missing }, ""),
                ),
            );
        }
        let op = b.build();
        match check_semantics(&op) {
            Some(f) => {
                proof {
                    reveal_strlit("");
                    assert(""@ =~= Seq::<char>::empty());
                }
                Err(
                    DataError::Parse(
                        ParseError::full(
                            self.line_no,
                            Some(field_of_fault(f)),
                            ParseErrorKind::SemanticRule { msg: message_of_fault(f) },
                            "",
                        ),
                    ),
                )
            },
            None => Ok(Some(op)),
        }
    }

    /// Appends one operation as a YPBankText block.
    pub fn write_op(out: &mut String, op: &Operation) -> (r: Result<()>)
        ensures
            r is Ok,
            final(out)@ == old(out)@ + txt_record(op@),
    {
        let ghost start = out@;
        push_kv(out, K_TX_ID, u64_to_string(op.tx_id()).as_str());
        push_kv(out, K_TX_TYPE, tx_type_text(op.tx_type()));
        push_kv(out, K_FROM_USER_ID, u64_to_string(op.from_user_id()).as_str());
        push_kv(out, K_TO_USER_ID, u64_to_string(op.to_user_id()).as_str());
        push_kv(out, K_AMOUNT, i64_to_string(op.amount()).as_str());
        push_kv(out, K_TIMESTAMP, u64_to_string(op.timestamp_ms()).as_str());
        push_kv(out, K_STATUS, status_text(op.status()));
        let mut quoted = String::new();
        quoted.push('"');
        match op.description() {
            Some(d) => push_unquoted(&mut quoted, d),
            None => {},
        }
        quoted.push('"');
        proof {
            assert(quoted@ =~= seq!['"'] + written_description(op@.description) + seq!['"']);
        }
        push_kv(out, K_DESCRIPTION, quoted.as_str());
        out.push('\n');
        proof {
            assert(out@ =~= start + txt_record(op@));
        }
        Ok(())
    }
}

/// Appends `key` where its field is missing.
fn push_if_missing(r: &mut Vec<&'static str>, missing: bool, key: &'static str)
    ensures
        final(r)@ == old(r)@ + if_missing(missing, key),
{
    if missing {
        r.push(key);
    }
    proof {
        assert(final(r)@ =~= old(r)@ + if_missing(missing, key));
    }
}

/// Appends the line `key: value`.
fn push_kv(out: &mut String, key: &'static str, value: &str)
    ensures
        final(out)@ == old(out)@ + kv_line(key, value@),
{
    out.push_str(key);
    out.push(':');
    out.push(' ');
    out.push_str(value);
    out.push('\n');
    proof {
        assert(final(out)@ =~= old(out)@ + kv_line(key, value@));
    }
}


// ------------------------------------------------------------ reading back

/// A value as the writer puts it after `KEY: `: no whitespace at either end
/// and no line break.
pub open spec fn clean_value(v: Seq<char>) -> bool {
    &&& v.len() > 0
    &&& !is_ws(v[0])
    &&& !is_ws(v.last())
    &&& lacks(v, '\n')
}

/// A `KEY: VALUE` line inside a block adds its field and moves to the next line.
proof fn lemma_kv_step(
    a: Seq<char>,
    key: &'static str,
    value: Seq<char>,
    b: Seq<char>,
    line_no: int,
    f: TxtFields,
    f2: TxtFields,
    any: bool,
    cut: bool,
)
    requires
        plain(key@),
        clean_value(value),
        with_field(f, key@, value) == Ok::<TxtFields, TxtFault>(f2),
    ensures
        txt_step(a + kv_line(key, value) + b, a.len() as int, line_no, f, any, cut) == txt_step(
            a + kv_line(key, value) + b,
            (a.len() + kv_line(key, value).len()) as int,
            line_no + 1,
            f2,
            true,
            cut,
        ),
{
    let s = a + kv_line(key, value) + b;
    let pos = a.len() as int;
    let k = key@;
    let l = k + seq![':', ' '] + value;
    assert(kv_line(key, value) == l + seq!['\n']);
    assert(plain_char(k[0]));
    assert forall|i: int| 0 <= i < l.len() implies #[trigger] l[i] != '\n' by {
        if i < k.len() {
            assert(plain_char(k[i]));
        } else if i >= k.len() + 2 {
            assert(l[i] == value[i - k.len() - 2]);
        }
    }
    assert(s.subrange(pos, pos + l.len()) =~= l);
    assert(s[pos + l.len()] == '\n');
    lemma_line_at(s, pos, l);
    lemma_trim_keeps(l);
    assert forall|i: int| 0 <= i < k.len() implies l[i] != ':' by {
        assert(plain_char(k[i]));
    }
    lemma_next_char_at(l, 0, k.len() as int, ':');
    assert(l.subrange(0, k.len() as int) =~= k);
    assert(l.subrange(k.len() + 1int, l.len() as int) =~= seq![' '] + value);
    lemma_plain_trim(k);
    lemma_trim_space_before(value);
}

/// The blank line after a block ends it.
proof fn lemma_blank_step(a: Seq<char>, b: Seq<char>, line_no: int, f: TxtFields, cut: bool)
    ensures
        txt_step(a + seq!['\n'] + b, a.len() as int, line_no, f, true, cut) == finish(
            f,
            line_no + 1,
            a.len() + 1int,
        ),
{
    let s = a + seq!['\n'] + b;
    assert(s.subrange(a.len() as int, a.len() as int) =~= Seq::<char>::empty());
    lemma_line_at(s, a.len() as int, Seq::empty());
    assert(trim(Seq::<char>::empty()) =~= Seq::<char>::empty());
}

/// The keys of the format are plain.
proof fn lemma_keys_plain()
    ensures
        plain(K_TX_ID@),
        plain(K_TX_TYPE@),
        plain(K_FROM_USER_ID@),
        plain(K_TO_USER_ID@),
        plain(K_AMOUNT@),
        plain(K_TIMESTAMP@),
        plain(K_STATUS@),
        plain(K_DESCRIPTION@),
{
    reveal_strlit("TX_ID");
    reveal_strlit("TX_TYPE");
    reveal_strlit("FROM_USER_ID");
    reveal_strlit("TO_USER_ID");
    reveal_strlit("AMOUNT");
    reveal_strlit("TIMESTAMP");
    reveal_strlit("STATUS");
    reveal_strlit("DESCRIPTION");
}

/// A plain value is a clean one.
proof fn lemma_plain_clean(v: Seq<char>)
    requires
        plain(v),
    ensures
        clean_value(v),
{
    assert(plain_char(v[0]));
    assert(plain_char(v.last()));
    assert forall|i: int| 0 <= i < v.len() implies #[trigger] v[i] != '\n' by {
        assert(plain_char(v[i]));
    }
}

/// The fields of a writable operation are read one after another from its block.
#[verifier::rlimit(40)]
proof fn lemma_txt_fields_read(m: OperationModel)
    requires
        text_writable(m),
    ensures
        ({
            let w = seq!['"'] + written_description(m.description) + seq!['"'];
            let f1 = TxtFields { tx_id: Some(m.tx_id), ..no_fields() };
            let f2 = TxtFields { tx_type: Some(m.tx_type), ..f1 };
            let f3 = TxtFields { from_user_id: Some(m.from_user_id), ..f2 };
            let f4 = TxtFields { to_user_id: Some(m.to_user_id), ..f3 };
            let f5 = TxtFields { amount: Some(m.amount), ..f4 };
            let f6 = TxtFields { timestamp_ms: Some(m.timestamp_ms), ..f5 };
            let f7 = TxtFields { status: Some(m.status), ..f6 };
            let f8 = TxtFields { description: Some(written_description(m.description)), ..f7 };
            &&& with_field(no_fields(), K_TX_ID@, dec(m.tx_id as nat)) == Ok::<TxtFields, TxtFault>(f1)
            &&& with_field(f1, K_TX_TYPE@, tx_type_name(m.tx_type)) == Ok::<TxtFields, TxtFault>(f2)
            &&& with_field(f2, K_FROM_USER_ID@, dec(m.from_user_id as nat)) == Ok::<TxtFields, TxtFault>(f3)
            &&& with_field(f3, K_TO_USER_ID@, dec(m.to_user_id as nat)) == Ok::<TxtFields, TxtFault>(f4)
            &&& with_field(f4, K_AMOUNT@, dec_signed(m.amount as int)) == Ok::<TxtFields, TxtFault>(f5)
            &&& with_field(f5, K_TIMESTAMP@, dec(m.timestamp_ms as nat)) == Ok::<TxtFields, TxtFault>(f6)
            &&& with_field(f6, K_STATUS@, status_name(m.status)) == Ok::<TxtFields, TxtFault>(f7)
            &&& with_field(f7, K_DESCRIPTION@, w) == Ok::<TxtFields, TxtFault>(f8)
            &&& built(f8) == text_read_back(m)
            &&& complete(f8)
        }),
{
    reveal_strlit("TX_ID");
    reveal_strlit("TX_TYPE");
    reveal_strlit("FROM_USER_ID");
    reveal_strlit("TO_USER_ID");
    reveal_strlit("AMOUNT");
    reveal_strlit("TIMESTAMP");
    reveal_strlit("STATUS");
    reveal_strlit("DESCRIPTION");
    lemma_u64_field_dec(m.tx_id, K_TX_ID);
    lemma_tx_type_field_name(m.tx_type);
    lemma_u64_field_dec(m.from_user_id, K_FROM_USER_ID);
    lemma_u64_field_dec(m.to_user_id, K_TO_USER_ID);
    lemma_nonneg_field_dec(m.amount, K_AMOUNT);
    lemma_u64_field_dec(m.timestamp_ms, K_TIMESTAMP);
    lemma_status_field_name(m.status);
    lemma_description_field_quoted(written_description(m.description));
    assert(K_TX_ID@.len() == 5 && K_TX_TYPE@.len() == 7 && K_FROM_USER_ID@.len() == 12);
    assert(K_TO_USER_ID@.len() == 10 && K_AMOUNT@.len() == 6 && K_TIMESTAMP@.len() == 9);
    assert(K_STATUS@.len() == 6 && K_DESCRIPTION@.len() == 11);
    assert(K_STATUS@[0] != K_AMOUNT@[0]);
    assert(K_STATUS@ != K_AMOUNT@);
    assert(K_TIMESTAMP@[1] != K_TX_TYPE@[1]);
}

/// The quoted description of a writable operation is a clean value.
proof fn lemma_quoted_clean(m: OperationModel)
    requires
        text_writable(m),
    ensures
        clean_value(seq!['"'] + written_description(m.description) + seq!['"']),
{
    let d = written_description(m.description);
    let w = seq!['"'] + d + seq!['"'];
    assert forall|i: int| 0 <= i < w.len() implies #[trigger] w[i] != '\n' by {
        if 0 < i < w.len() - 1 {
            assert(w[i] == d[i - 1]);
        }
    }
}

/// `KEY: VALUE` lines, one per pair.
pub open spec fn kv_block(p: Seq<(&'static str, Seq<char>)>) -> Seq<char>
    decreases p.len(),
{
    if p.len() == 0 {
        Seq::empty()
    } else {
        kv_line(p[0].0, p[0].1) + kv_block(p.drop_first())
    }
}

/// The fields `f` with each pair of `p` added in turn.
pub open spec fn with_fields(f: TxtFields, p: Seq<(&'static str, Seq<char>)>) -> std::result::Result<
    TxtFields,
    TxtFault,
>
    decreases p.len(),
{
    if p.len() == 0 {
        Ok(f)
    } else {
        match with_field(f, p[0].0@, p[0].1) {
            Ok(f2) => with_fields(f2, p.drop_first()),
            Err(e) => Err(e),
        }
    }
}

/// The pairs of the block of an operation.
pub open spec fn txt_pairs(m: OperationModel) -> Seq<(&'static str, Seq<char>)> {
    seq![
        (K_TX_ID, dec(m.tx_id as nat)),
        (K_TX_TYPE, tx_type_name(m.tx_type)),
        (K_FROM_USER_ID, dec(m.from_user_id as nat)),
        (K_TO_USER_ID, dec(m.to_user_id as nat)),
        (K_AMOUNT, dec_signed(m.amount as int)),
        (K_TIMESTAMP, dec(m.timestamp_ms as nat)),
        (K_STATUS, status_name(m.status)),
        (K_DESCRIPTION, seq!['"'] + written_description(m.description) + seq!['"']),
    ]
}

/// Lines of `KEY: VALUE` inside a block add their fields in turn.
proof fn lemma_kv_block(
    a: Seq<char>,
    p: Seq<(&'static str, Seq<char>)>,
    b: Seq<char>,
    line_no: int,
    f: TxtFields,
    g: TxtFields,
    any: bool,
    cut: bool,
)
    requires
        p.len() > 0,
        forall|i: int| 0 <= i < p.len() ==> plain((#[trigger] p[i]).0@) && clean_value(p[i].1),
        with_fields(f, p) == Ok::<TxtFields, TxtFault>(g),
    ensures
        txt_step(a + kv_block(p) + b, a.len() as int, line_no, f, any, cut) == txt_step(
            a + kv_block(p) + b,
            (a.len() + kv_block(p).len()) as int,
            line_no + p.len(),
            g,
            true,
            cut,
        ),
    decreases p.len(),
{
    let x = p[0];
    let q = p.drop_first();
    let kv = kv_line(x.0, x.1);
    let s = a + kv_block(p) + b;
    assert(plain(x.0@) && clean_value(x.1));
    let f1 = match with_field(f, x.0@, x.1) {
        Ok(f1) => f1,
        Err(_) => f,
    };
    assert(with_field(f, x.0@, x.1) == Ok::<TxtFields, TxtFault>(f1));
    assert(s =~= a + kv + (kv_block(q) + b));
    lemma_kv_step(a, x.0, x.1, kv_block(q) + b, line_no, f, f1, any, cut);
    if q.len() > 0 {
        assert forall|i: int| 0 <= i < q.len() implies plain((#[trigger] q[i]).0@) && clean_value(q[i].1) by {
            assert(q[i] == p[i + 1]);
        }
        assert(s =~= (a + kv) + kv_block(q) + b);
        lemma_kv_block(a + kv, q, b, line_no + 1, f1, g, true, cut);
    } else {
        assert(kv_block(q) =~= Seq::<char>::empty());
    }
}

/// The block of an operation is the lines of its pairs and a blank line.
proof fn lemma_txt_record_pairs(m: OperationModel)
    ensures
        txt_record(m) == kv_block(txt_pairs(m)) + seq!['\n'],
{
    let p = txt_pairs(m);
    reveal_with_fuel(kv_block, 9);
    assert(p.drop_first().drop_first().drop_first().drop_first().drop_first().drop_first().drop_first().drop_first()
        =~= Seq::<(&'static str, Seq<char>)>::empty());
    assert(txt_record(m) =~= kv_block(p) + seq!['\n']);
}

/// The pairs of a writable operation are plain keys with clean values, and
/// they add up to the operation as it reads back.
proof fn lemma_txt_pairs_read(m: OperationModel)
    requires
        text_writable(m),
    ensures
        forall|i: int|
            0 <= i < txt_pairs(m).len() ==> plain((#[trigger] txt_pairs(m)[i]).0@) && clean_value(
                txt_pairs(m)[i].1,
            ),
        with_fields(no_fields(), txt_pairs(m)) matches Ok(g) && built(g) == text_read_back(m) && complete(g),
{
    let p = txt_pairs(m);
    lemma_txt_fields_read(m);
    lemma_keys_plain();
    lemma_dec_plain(m.tx_id as nat);
    lemma_dec_plain(m.from_user_id as nat);
    lemma_dec_plain(m.to_user_id as nat);
    lemma_dec_plain(m.amount as nat);
    lemma_dec_plain(m.timestamp_ms as nat);
    lemma_names_plain(m.tx_type, m.status);
    lemma_plain_clean(dec(m.tx_id as nat));
    lemma_plain_clean(tx_type_name(m.tx_type));
    lemma_plain_clean(dec(m.from_user_id as nat));
    lemma_plain_clean(dec(m.to_user_id as nat));
    lemma_plain_clean(dec(m.amount as nat));
    lemma_plain_clean(dec(m.timestamp_ms as nat));
    lemma_plain_clean(status_name(m.status));
    lemma_quoted_clean(m);
    assert(dec_signed(m.amount as int) == dec(m.amount as nat));
    reveal_with_fuel(with_fields, 9);
    assert(p.drop_first().drop_first().drop_first().drop_first().drop_first().drop_first().drop_first().drop_first()
        =~= Seq::<(&'static str, Seq<char>)>::empty());
}

/// A text of whitespace alone trims to nothing.
proof fn lemma_trim_all_ws(l: Seq<char>)
    requires
        forall|i: int| 0 <= i < l.len() ==> is_ws(#[trigger] l[i]),
    ensures
        trim(l).len() == 0,
    decreases l.len(),
{
    if l.len() > 0 {
        assert forall|i: int| 0 <= i < l.drop_first().len() implies is_ws(#[trigger] l.drop_first()[i]) by {
            assert(l.drop_first()[i] == l[i + 1]);
        }
        lemma_trim_all_ws(l.drop_first());
        assert(trim_start(l) == trim_start(l.drop_first()));
    }
}

/// A line of whitespace alone is a blank line: after fields it ends the
/// record, which is then finished on that line; before any field it is
/// skipped, and reading goes on with the next line.
pub proof fn lemma_txt_whitespace_line(s: Seq<char>, pos: int, line_no: int, f: TxtFields, any: bool, cut: bool)
    requires
        0 <= pos < s.len(),
        forall|i: int| 0 <= i < line_at(s, pos).len() ==> is_ws(#[trigger] line_at(s, pos)[i]),
    ensures
        any ==> txt_step(s, pos, line_no, f, any, cut) == finish(f, line_no + 1, after_line(s, pos)),
        !any ==> txt_step(s, pos, line_no, f, any, cut) == txt_step(
            s,
            after_line(s, pos),
            line_no + 1,
            f,
            any,
            cut,
        ),
{
    lemma_trim_all_ws(line_at(s, pos));
    lemma_line_at_shape(s, pos);
}

/// Reading back a record: where the block of a writable operation stands
/// after any text, the reader finds that operation, with its description as
/// written, and goes on just after the blank line that ends the block.
pub proof fn lemma_txt_roundtrip(pre: Seq<char>, m: OperationModel, rest: Seq<char>, line_no: int, cut: bool)
    requires
        text_writable(m),
    ensures
        txt_step(pre + txt_record(m) + rest, pre.len() as int, line_no, no_fields(), false, cut)
            == TxtStep::Record(
            text_read_back(m),
            (pre.len() + txt_record(m).len()) as usize,
            (line_no + 9) as usize,
        ),
{
    let p = txt_pairs(m);
    let blk = kv_block(p);
    let s = pre + txt_record(m) + rest;
    lemma_txt_record_pairs(m);
    lemma_txt_pairs_read(m);
    let g = with_fields(no_fields(), p)->Ok_0;
    assert(s =~= pre + blk + (seq!['\n'] + rest));
    lemma_kv_block(pre, p, seq!['\n'] + rest, line_no, no_fields(), g, false, cut);
    assert(s =~= (pre + blk) + seq!['\n'] + rest);
    lemma_blank_step(pre + blk, rest, line_no + 8, g, cut);
}

// ------------------------------------------------------------- statements

/// The operations that reading from `pos`, after line `line_no`, gives up to
/// the end of the text; `None` where a record is wrong.
pub open spec fn txt_all(s: Seq<char>, pos: int, line_no: int, cut: bool) -> Option<Seq<OperationModel>>
    decreases s.len() - pos,
{
    match txt_step(s, pos, line_no, no_fields(), false, cut) {
        TxtStep::End => Some(Seq::empty()),
        TxtStep::Record(m, np, n) => if pos < np <= s.len() {
            match txt_all(s, np as int, n as int, cut) {
                Some(r) => Some(seq![m] + r),
                None => None,
            }
        } else {
            None
        },
        _ => None,
    }
}

/// The blocks of operations, one after another.
pub open spec fn txt_records(ops: Seq<OperationModel>) -> Seq<char>
    decreases ops.len(),
{
    if ops.len() == 0 {
        Seq::empty()
    } else {
        txt_records(ops.drop_last()) + txt_record(ops.last())
    }
}

/// A read that gives a record moves forward, and stays in the text.
pub proof fn lemma_txt_step_moves(s: Seq<char>, pos: int, line_no: int, f: TxtFields, any: bool, cut: bool)
    requires
        0 <= pos <= s.len(),
        s.len() <= usize::MAX,
    ensures
        txt_step(s, pos, line_no, f, any, cut) matches TxtStep::Record(_, np, _) ==> pos <= np <= s.len() && (!any
            ==> pos < np),
    decreases s.len() - pos,
{
    if pos < s.len() {
        let l = line_at(s, pos);
        let np = after_line(s, pos);
        lemma_next_char_bounds(s, pos, '\n');
        assert(pos < np <= s.len());
        let t = trim(l);
        if t.len() == 0 || t[0] == '#' {
            lemma_txt_step_moves(s, np, line_no + 1, f, any, cut);
        } else {
            let c = next_char(l, 0, ':');
            if c < l.len() {
                match with_field(f, trim(l.subrange(0, c)), trim(l.subrange(c + 1, l.len() as int))) {
                    Ok(f2) => {
                        lemma_txt_step_moves(s, np, line_no + 1, f2, true, cut);
                    },
                    Err(_) => {},
                }
            }
        }
    }
}

proof fn lemma_txt_records_len(ops: Seq<OperationModel>)
    ensures
        txt_records(ops).len() >= 9 * ops.len(),
    decreases ops.len(),
{
    if ops.len() > 0 {
        lemma_txt_records_len(ops.drop_last());
        let m = ops.last();
        assert(txt_record(m).len() >= 9);
    }
}

/// The blocks of the first `j` operations start the blocks of the first `k`.
proof fn lemma_txt_records_prefix(ops: Seq<OperationModel>, j: int, k: int)
    requires
        0 <= j <= k <= ops.len(),
    ensures
        txt_records(ops.take(k)) =~= txt_records(ops.take(j)) + txt_records(ops.take(k)).skip(
            txt_records(ops.take(j)).len() as int,
        ),
        txt_records(ops.take(j)).len() <= txt_records(ops.take(k)).len(),
    decreases k - j,
{
    if j < k {
        lemma_txt_records_prefix(ops, j, k - 1);
        assert(ops.take(k).drop_last() =~= ops.take(k - 1));
    }
}

/// One block of the blocks of writable operations read back.
#[verifier::rlimit(30)]
proof fn lemma_txt_all_step(ops: Seq<OperationModel>, i: int)
    requires
        0 <= i < ops.len(),
        forall|k: int| 0 <= k < ops.len() ==> text_writable(#[trigger] ops[k]),
        txt_records(ops).len() <= usize::MAX,
    ensures
        txt_records(ops.take(i)).len() < txt_records(ops.take(i + 1)).len() <= txt_records(ops).len(),
        txt_all(txt_records(ops), txt_records(ops.take(i)).len() as int, 9 * i, false) == match txt_all(
            txt_records(ops),
            txt_records(ops.take(i + 1)).len() as int,
            9 * (i + 1),
            false,
        ) {
            Some(r) => Some(seq![text_read_back(ops[i])] + r),
            None => None,
        },
{
    let s = txt_records(ops);
    let n = ops.len() as int;
    let m = ops[i];
    let pre = txt_records(ops.take(i));
    let q = txt_records(ops.take(i + 1)).len() as int;
    let rest = s.skip(q);
    assert(s == pre + txt_record(m) + rest && q == pre.len() + txt_record(m).len() && q <= s.len()) by {
        assert(ops.take(n) =~= ops);
        lemma_txt_records_prefix(ops, i + 1, n);
        assert(ops.take(i + 1).drop_last() =~= ops.take(i));
        assert(txt_records(ops.take(i + 1)) == pre + txt_record(m));
        assert(s =~= pre + txt_record(m) + rest);
    }
    lemma_txt_records_len(ops.take(i + 1));
    lemma_txt_roundtrip(pre, m, rest, 9 * i, false);
}

/// Reading the blocks of writable operations from the start of the `i`-th
/// gives those operations from the `i`-th on, with their descriptions as written.
proof fn lemma_txt_all_from(ops: Seq<OperationModel>, i: int)
    requires
        0 <= i <= ops.len(),
        forall|k: int| 0 <= k < ops.len() ==> text_writable(#[trigger] ops[k]),
        txt_records(ops).len() <= usize::MAX,
    ensures
        txt_all(txt_records(ops), txt_records(ops.take(i)).len() as int, 9 * i, false) == Some(
            ops.skip(i).map_values(|m: OperationModel| text_read_back(m)),
        ),
    decreases ops.len() - i,
{
    let n = ops.len() as int;
    if i == n {
        assert(ops.take(n) =~= ops);
        assert(ops.skip(i).map_values(|m: OperationModel| text_read_back(m)) =~= Seq::<OperationModel>::empty());
    } else {
        lemma_txt_all_step(ops, i);
        lemma_txt_all_from(ops, i + 1);
        assert(ops.skip(i).map_values(|m: OperationModel| text_read_back(m)) =~= seq![text_read_back(ops[i])]
            + ops.skip(i + 1).map_values(|m: OperationModel| text_read_back(m)));
    }
}

/// Reading back a statement: the blocks of writable operations, one after
/// another, read as those operations, with their descriptions as written.
pub proof fn lemma_txt_read_written(ops: Seq<OperationModel>)
    requires
        forall|k: int| 0 <= k < ops.len() ==> text_writable(#[trigger] ops[k]),
        txt_records(ops).len() <= usize::MAX,
    ensures
        txt_all(txt_records(ops), 0, 0, false) == Some(ops.map_values(|m: OperationModel| text_read_back(m))),
{
    lemma_txt_all_from(ops, 0);
    assert(ops.take(0) =~= Seq::<OperationModel>::empty());
    assert(ops.skip(0) =~= ops);
}

// ------------------------------------------------------------- strategies

/// The reading strategy for `Statement::from_read`: each call reads the next
/// record from the reader it is handed.
pub fn make_next_op() -> (f: impl FnMut(&mut YPBankText) -> Result<Option<Operation>>)
    ensures
        forall|p: &mut YPBankText| call_requires(f, (p,)),
        forall|p: &mut YPBankText, r: Result<Option<Operation>>| call_ensures(f, (p,), r) ==> (*p).read_gives(
            *final(p),
            r,
        ),
{
    |p: &mut YPBankText| -> (r: Result<Option<Operation>>)
        ensures
            old(p).read_gives(*final(p), r),
        { p.next_op() }
}

/// The writing strategy for `Statement::write_to`: each call appends the block
/// of one operation to the text it is handed.
pub fn make_write_op() -> (f: impl FnMut(&mut String, &Operation) -> Result<()>)
    ensures
        forall|w: &mut String, op: &Operation| call_requires(f, (w, op)),
        forall|w: &mut String, op: &Operation, r: Result<()>| call_ensures(f, (w, op), r) ==> r is Ok
            && final(w)@ == (*w)@ + txt_record(op@),
{
    |w: &mut String, op: &Operation| -> (r: Result<()>)
        ensures
            r is Ok,
            final(w)@ == old(w)@ + txt_record(op@),
        { YPBankText::write_op(w, op) }
}

} // verus!
