//! The fields of a record: their names, how their values are read and
//! written, and the rules of meaning; shared by the formats.

use vstd::prelude::*;

use crate::data::{Operation, OperationModel, Status, TransactionType};
use crate::errors::{DataError, ParseError, ParseErrorKind};
use crate::formats::ypbank::text::{
    chars_eq_str, chars_of, dec, dec_signed, is_digit, is_ws, lemma_dec_digits, lemma_parse_dec_i64,
    lemma_parse_dec_u64, lemma_trim_keeps, parse_i64_chars, parse_i64_spec, parse_u64_chars,
    parse_u64_spec, slice_chars, string_of, trim, trim_chars,
};

verus! {

/// The key of the transaction's id.
pub const K_TX_ID: &'static str = "TX_ID";

/// The key of the transaction's type.
pub const K_TX_TYPE: &'static str = "TX_TYPE";

/// The key of the sending account.
pub const K_FROM_USER_ID: &'static str = "FROM_USER_ID";

/// The key of the receiving account.
pub const K_TO_USER_ID: &'static str = "TO_USER_ID";

/// The key of the amount.
pub const K_AMOUNT: &'static str = "AMOUNT";

/// The key of the time, in milliseconds.
pub const K_TIMESTAMP: &'static str = "TIMESTAMP";

/// The key of the status.
pub const K_STATUS: &'static str = "STATUS";

/// The key of the description.
pub const K_DESCRIPTION: &'static str = "DESCRIPTION";

/// The name of the size field of a binary record.
pub const K_RECORD_SIZE: &'static str = "RECORD_SIZE";

/// The message of the rule that a DEPOSIT comes from no account.
pub const MSG_DEPOSIT_FROM: &'static str = "Для DEPOSIT ожидается FROM_USER_ID = 0";

/// The message of the rule that a WITHDRAWAL goes to no account.
pub const MSG_WITHDRAWAL_TO: &'static str = "Для WITHDRAWAL ожидается TO_USER_ID = 0";

/// A broken rule of meaning, shared by all the formats.
#[derive(Debug, Clone, Copy, PartialEq, Eq, Structural)]
pub enum SemanticFault {
    /// A DEPOSIT names a sender (FROM_USER_ID is not 0).
    DepositWithSender,
    /// A WITHDRAWAL names a receiver (TO_USER_ID is not 0).
    WithdrawalWithReceiver,
}

/// The rules of meaning: a DEPOSIT has FROM_USER_ID = 0 and a WITHDRAWAL has
/// TO_USER_ID = 0. `None` where the operation keeps them.
pub open spec fn semantic_fault(m: OperationModel) -> Option<SemanticFault> {
    match m.tx_type {
        TransactionType::Deposit => if m.from_user_id != 0 {
            Some(SemanticFault::DepositWithSender)
        } else {
            None
        },
        TransactionType::Withdrawal => if m.to_user_id != 0 {
            Some(SemanticFault::WithdrawalWithReceiver)
        } else {
            None
        },
        TransactionType::Transfer => None,
    }
}

/// The field that a broken rule is reported on.
pub open spec fn fault_field(f: SemanticFault) -> &'static str {
    match f {
        SemanticFault::DepositWithSender => K_FROM_USER_ID,
        SemanticFault::WithdrawalWithReceiver => K_TO_USER_ID,
    }
}

/// The message that a broken rule is reported with.
pub open spec fn fault_message(f: SemanticFault) -> &'static str {
    match f {
        SemanticFault::DepositWithSender => MSG_DEPOSIT_FROM,
        SemanticFault::WithdrawalWithReceiver => MSG_WITHDRAWAL_TO,
    }
}

/// Checks the rules of meaning on an operation.
pub fn check_semantics(op: &Operation) -> (r: Option<SemanticFault>)
    ensures
        r == semantic_fault(op@),
{
    match op.tx_type() {
        TransactionType::Deposit => if op.from_user_id() != 0 {
            Some(SemanticFault::DepositWithSender)
        } else {
            None
        },
        TransactionType::Withdrawal => if op.to_user_id() != 0 {
            Some(SemanticFault::WithdrawalWithReceiver)
        } else {
            None
        },
        TransactionType::Transfer => None,
    }
}

/// The field of a broken rule.
pub fn field_of_fault(f: SemanticFault) -> (r: &'static str)
    ensures
        r == fault_field(f),
{
    match f {
        SemanticFault::DepositWithSender => K_FROM_USER_ID,
        SemanticFault::WithdrawalWithReceiver => K_TO_USER_ID,
    }
}

/// The message of a broken rule.
pub fn message_of_fault(f: SemanticFault) -> (r: &'static str)
    ensures
        r == fault_message(f),
{
    match f {
        SemanticFault::DepositWithSender => MSG_DEPOSIT_FROM,
        SemanticFault::WithdrawalWithReceiver => MSG_WITHDRAWAL_TO,
    }
}

// ------------------------------------------------------------ field values

/// The type name of unsigned fields in number errors.
pub const TY_U64: &'static str = "u64";

/// The type name of signed fields in number errors.
pub const TY_I64: &'static str = "i64";

/// The names a TX_TYPE may have.
pub const EXPECTED_TX_TYPE: &'static str = "DEPOSIT | TRANSFER | WITHDRAWAL";

/// The names a STATUS may have.
pub const EXPECTED_STATUS: &'static str = "SUCCESS | FAILURE | PENDING";

/// What can be wrong with the value of one field of a text record.
pub enum FieldFault {
    /// The value is not a number of type `ty`.
    BadNumber { field: &'static str, value: Seq<char>, ty: &'static str },
    /// The value is a negative number where only `>= 0` is allowed.
    Negative { field: &'static str, value: Seq<char> },
    /// The value names no transaction type.
    BadTxType { value: Seq<char> },
    /// The value names no status.
    BadStatus { value: Seq<char> },
    /// The value is not in double quotes.
    BadQuoted { value: Seq<char> },
}

/// An unsigned field: empty reads as 0, else as `u64::from_str` reads it.
pub open spec fn u64_field(s: Seq<char>, field: &'static str) -> Result<u64, FieldFault> {
    let t = trim(s);
    if t.len() == 0 {
        Ok(0)
    } else {
        match parse_u64_spec(t) {
            Some(v) => Ok(v),
            None => Err(FieldFault::BadNumber { field, value: t, ty: TY_U64 }),
        }
    }
}

/// A signed field that must not be negative: empty reads as 0.
pub open spec fn nonneg_i64_field(s: Seq<char>, field: &'static str) -> Result<i64, FieldFault> {
    let t = trim(s);
    if t.len() == 0 {
        Ok(0)
    } else {
        match parse_i64_spec(t) {
            Some(v) => if v < 0 {
                Err(FieldFault::Negative { field, value: t })
            } else {
                Ok(v)
            },
            None => Err(FieldFault::BadNumber { field, value: t, ty: TY_I64 }),
        }
    }
}

/// A TX_TYPE field: empty reads as DEPOSIT.
pub open spec fn tx_type_field(s: Seq<char>) -> Result<TransactionType, FieldFault> {
    let t = trim(s);
    if t.len() == 0 {
        Ok(TransactionType::Deposit)
    } else if t == "DEPOSIT"@ {
        Ok(TransactionType::Deposit)
    } else if t == "TRANSFER"@ {
        Ok(TransactionType::Transfer)
    } else if t == "WITHDRAWAL"@ {
        Ok(TransactionType::Withdrawal)
    } else {
        Err(FieldFault::BadTxType { value: t })
    }
}

/// A STATUS field: empty reads as SUCCESS.
pub open spec fn status_field(s: Seq<char>) -> Result<Status, FieldFault> {
    let t = trim(s);
    if t.len() == 0 {
        Ok(Status::Success)
    } else if t == "SUCCESS"@ {
        Ok(Status::Success)
    } else if t == "FAILURE"@ {
        Ok(Status::Failure)
    } else if t == "PENDING"@ {
        Ok(Status::Pending)
    } else {
        Err(FieldFault::BadStatus { value: t })
    }
}

/// A DESCRIPTION field: empty reads as the empty text, else it must be in
/// double quotes, which are taken off.
pub open spec fn description_field(s: Seq<char>) -> Result<Seq<char>, FieldFault> {
    let t = trim(s);
    if t.len() == 0 {
        Ok(Seq::empty())
    } else if t.len() < 2 || t[0] != '"' || t.last() != '"' {
        Err(FieldFault::BadQuoted { value: t })
    } else {
        Ok(t.subrange(1, t.len() - 1))
    }
}

/// The parse error `e`, on line `line_no` whose text is `line`, reports `f`.
pub open spec fn field_fault_reported(e: ParseError, f: FieldFault, line_no: usize, line: Seq<char>) -> bool {
    &&& e.line_no == line_no
    &&& e.line@ == line
    &&& match f {
        FieldFault::BadNumber { field, value, ty } => {
            &&& e.field == Some(field)
            &&& e.kind matches ParseErrorKind::BadNumber { value: v, ty: t } && v@ == value && t == ty
        },
        FieldFault::Negative { field, value } => {
            &&& e.field == Some(field)
            &&& e.kind matches ParseErrorKind::NegativeNotAllowed { value: v } && v@ == value
        },
        FieldFault::BadTxType { value } => {
            &&& e.field == Some(K_TX_TYPE)
            &&& e.kind matches ParseErrorKind::BadEnum { value: v, expected } && v@ == value
                && expected == EXPECTED_TX_TYPE
        },
        FieldFault::BadStatus { value } => {
            &&& e.field == Some(K_STATUS)
            &&& e.kind matches ParseErrorKind::BadEnum { value: v, expected } && v@ == value
                && expected == EXPECTED_STATUS
        },
        FieldFault::BadQuoted { value } => {
            &&& e.field == Some(K_DESCRIPTION)
            &&& e.kind matches ParseErrorKind::BadQuotedString { value: v } && v@ == value
        },
    }
}

/// The error of a field on a line.
fn field_error(field: &'static str, kind: ParseErrorKind, line_no: usize, line: &str) -> (r: DataError)
    ensures
        r matches DataError::Parse(e) && e.line_no == line_no && e.line@ == line@ && e.field == Some(
            field,
        ) && e.kind == kind,
{
    DataError::Parse(ParseError::full(line_no, Some(field), kind, line))
}

/// Reads an unsigned field (see `u64_field`).
pub fn parse_u64_field(s: &Vec<char>, field: &'static str, line_no: usize, line: &str) -> (r: Result<u64, DataError>)
    ensures
        match u64_field(s@, field) {
            Ok(v) => r matches Ok(x) && x == v,
            Err(f) => r matches Err(DataError::Parse(e)) && field_fault_reported(e, f, line_no, line@),
        },
{
    let t = trim_chars(s);
    if t.len() == 0 {
        return Ok(0);
    }
    match parse_u64_chars(&t) {
        Some(v) => Ok(v),
        None => {
            let value = string_of(&t, 0, t.len());
            proof {
                assert(t@.subrange(0, t@.len() as int) =~= t@);
            }
            Err(field_error(field, ParseErrorKind::BadNumber { value, ty: TY_U64 }, line_no, line))
        },
    }
}

/// Reads a signed field that must not be negative (see `nonneg_i64_field`).
pub fn parse_nonneg_i64_field(s: &Vec<char>, field: &'static str, line_no: usize, line: &str) -> (r: Result<i64, DataError>)
    ensures
        match nonneg_i64_field(s@, field) {
            Ok(v) => r matches Ok(x) && x == v,
            Err(f) => r matches Err(DataError::Parse(e)) && field_fault_reported(e, f, line_no, line@),
        },
{
    let t = trim_chars(s);
    if t.len() == 0 {
        return Ok(0);
    }
    proof {
        assert(t@.subrange(0, t@.len() as int) =~= t@);
    }
    match parse_i64_chars(&t) {
        Some(v) => if v < 0 {
            let value = string_of(&t, 0, t.len());
            Err(field_error(field, ParseErrorKind::NegativeNotAllowed { value }, line_no, line))
        } else {
            Ok(v)
        },
        None => {
            let value = string_of(&t, 0, t.len());
            Err(field_error(field, ParseErrorKind::BadNumber { value, ty: TY_I64 }, line_no, line))
        },
    }
}

/// Reads a TX_TYPE field (see `tx_type_field`).
pub fn parse_tx_type_field(s: &Vec<char>, line_no: usize, line: &str) -> (r: Result<TransactionType, DataError>)
    ensures
        match tx_type_field(s@) {
            Ok(v) => r matches Ok(x) && x == v,
            Err(f) => r matches Err(DataError::Parse(e)) && field_fault_reported(e, f, line_no, line@),
        },
{
    let t = trim_chars(s);
    if t.len() == 0 {
        Ok(TransactionType::Deposit)
    } else if chars_eq_str(&t, "DEPOSIT") {
        Ok(TransactionType::Deposit)
    } else if chars_eq_str(&t, "TRANSFER") {
        Ok(TransactionType::Transfer)
    } else if chars_eq_str(&t, "WITHDRAWAL") {
        Ok(TransactionType::Withdrawal)
    } else {
        let value = string_of(&t, 0, t.len());
        proof {
            assert(t@.subrange(0, t@.len() as int) =~= t@);
        }
        Err(field_error(K_TX_TYPE, ParseErrorKind::BadEnum { value, expected: EXPECTED_TX_TYPE }, line_no, line))
    }
}

/// Reads a STATUS field (see `status_field`).
pub fn parse_status_field(s: &Vec<char>, line_no: usize, line: &str) -> (r: Result<Status, DataError>)
    ensures
        match status_field(s@) {
            Ok(v) => r matches Ok(x) && x == v,
            Err(f) => r matches Err(DataError::Parse(e)) && field_fault_reported(e, f, line_no, line@),
        },
{
    let t = trim_chars(s);
    if t.len() == 0 {
        Ok(Status::Success)
    } else if chars_eq_str(&t, "SUCCESS") {
        Ok(Status::Success)
    } else if chars_eq_str(&t, "FAILURE") {
        Ok(Status::Failure)
    } else if chars_eq_str(&t, "PENDING") {
        Ok(Status::Pending)
    } else {
        let value = string_of(&t, 0, t.len());
        proof {
            assert(t@.subrange(0, t@.len() as int) =~= t@);
        }
        Err(field_error(K_STATUS, ParseErrorKind::BadEnum { value, expected: EXPECTED_STATUS }, line_no, line))
    }
}

/// Reads a DESCRIPTION field (see `description_field`).
pub fn parse_description_field(s: &Vec<char>, line_no: usize, line: &str) -> (r: Result<String, DataError>)
    ensures
        match description_field(s@) {
            Ok(v) => r matches Ok(x) && x@ == v,
            Err(f) => r matches Err(DataError::Parse(e)) && field_fault_reported(e, f, line_no, line@),
        },
{
    let t = trim_chars(s);
    let n = t.len();
    if n == 0 {
        return Ok(String::new());
    }
    if n < 2 || t[0] != '"' || t[n - 1] != '"' {
        let value = string_of(&t, 0, n);
        proof {
            assert(t@.subrange(0, n as int) =~= t@);
        }
        return Err(field_error(K_DESCRIPTION, ParseErrorKind::BadQuotedString { value }, line_no, line));
    }
    Ok(string_of(&t, 1, n - 1))
}

// ----------------------------------------------------------- field writing

/// The name a transaction type is written with.
pub open spec fn tx_type_name(t: TransactionType) -> Seq<char> {
    match t {
        TransactionType::Deposit => "DEPOSIT"@,
        TransactionType::Transfer => "TRANSFER"@,
        TransactionType::Withdrawal => "WITHDRAWAL"@,
    }
}

/// The name a status is written with.
pub open spec fn status_name(s: Status) -> Seq<char> {
    match s {
        Status::Success => "SUCCESS"@,
        Status::Failure => "FAILURE"@,
        Status::Pending => "PENDING"@,
    }
}

/// A description with every double quote turned into an apostrophe (the
/// format has no escape for quotes).
pub open spec fn unquote(s: Seq<char>) -> Seq<char> {
    s.map_values(|c: char| if c == '"' { '\'' } else { c })
}

/// The description of an operation as written: the empty text where there is none.
pub open spec fn written_description(d: Option<Seq<char>>) -> Seq<char> {
    match d {
        Some(s) => unquote(s),
        None => Seq::empty(),
    }
}

/// Appends a description with its double quotes turned into apostrophes.
pub fn push_unquoted(out: &mut String, d: &str)
    ensures
        final(out)@ == old(out)@ + unquote(d@),
{
    let cs = chars_of(d);
    let ghost start = out@;
    let n = cs.len();
    for i in 0..n
        invariant
            n == cs@.len(),
            cs@ == d@,
            out@ == start + unquote(d@).take(i as int),
    {
        let c = cs[i];
        if c == '"' {
            out.push('\'');
        } else {
            out.push(c);
        }
        proof {
            assert(unquote(d@).take(i + 1) =~= unquote(d@).take(i as int).push(unquote(d@)[i as int]));
        }
    }
    proof {
        assert(unquote(d@).take(n as int) =~= unquote(d@));
    }
}

/// The name of a transaction type.
pub fn tx_type_text(t: &TransactionType) -> (r: &'static str)
    ensures
        r@ == tx_type_name(*t),
{
    match t {
        TransactionType::Deposit => "DEPOSIT",
        TransactionType::Transfer => "TRANSFER",
        TransactionType::Withdrawal => "WITHDRAWAL",
    }
}

/// The name of a status.
pub fn status_text(s: &Status) -> (r: &'static str)
    ensures
        r@ == status_name(*s),
{
    match s {
        Status::Success => "SUCCESS",
        Status::Failure => "FAILURE",
        Status::Pending => "PENDING",
    }
}


// -------------------------------------------------------- reading back

/// What the text record of an operation reads back as: the description as it
/// was written (double quotes turned into apostrophes, none as the empty text).
pub open spec fn text_read_back(m: OperationModel) -> OperationModel {
    OperationModel { description: Some(written_description(m.description)), ..m }
}

/// An operation whose text record reads back: its amount is not negative, it
/// keeps the rules of meaning, and its description holds no line break.
pub open spec fn text_writable(m: OperationModel) -> bool {
    &&& m.amount >= 0
    &&& semantic_fault(m) is None
    &&& forall|i: int|
        0 <= i < written_description(m.description).len() ==> #[trigger] written_description(
            m.description,
        )[i] != '\n'
}

/// A character of a name or a number: a digit, a capital letter or '_'.
pub open spec fn plain_char(c: char) -> bool {
    is_digit(c) || ('A' <= c && c <= 'Z') || c == '_'
}

/// A non-empty run of digits, capital letters and '_': no whitespace, no
/// separator and no quote in it.
pub open spec fn plain(s: Seq<char>) -> bool {
    s.len() > 0 && forall|i: int| 0 <= i < s.len() ==> plain_char(#[trigger] s[i])
}

/// A plain run trims to itself.
pub proof fn lemma_plain_trim(s: Seq<char>)
    requires
        plain(s),
    ensures
        trim(s) == s,
{
    assert(plain_char(s[0]));
    assert(plain_char(s[s.len() - 1]));
    lemma_trim_keeps(s);
}

/// Decimal notation is plain.
pub proof fn lemma_dec_plain(n: nat)
    ensures
        plain(dec(n)),
{
    lemma_dec_digits(n);
    assert forall|i: int| 0 <= i < dec(n).len() implies plain_char(#[trigger] dec(n)[i]) by {
        assert(is_digit(dec(n)[i]));
    }
}

/// The names of transaction types and statuses are plain.
pub proof fn lemma_names_plain(t: TransactionType, s: Status)
    ensures
        plain(tx_type_name(t)),
        plain(status_name(s)),
{
    reveal_strlit("DEPOSIT");
    reveal_strlit("TRANSFER");
    reveal_strlit("WITHDRAWAL");
    reveal_strlit("SUCCESS");
    reveal_strlit("FAILURE");
    reveal_strlit("PENDING");
}

/// An unsigned field reads back from its decimal notation.
pub proof fn lemma_u64_field_dec(n: u64, field: &'static str)
    ensures
        u64_field(dec(n as nat), field) == Ok::<u64, FieldFault>(n),
{
    lemma_dec_plain(n as nat);
    lemma_plain_trim(dec(n as nat));
    lemma_parse_dec_u64(n);
}

/// A non-negative signed field reads back from its decimal notation.
pub proof fn lemma_nonneg_field_dec(a: i64, field: &'static str)
    requires
        a >= 0,
    ensures
        nonneg_i64_field(dec_signed(a as int), field) == Ok::<i64, FieldFault>(a),
{
    lemma_dec_plain(a as nat);
    lemma_plain_trim(dec(a as nat));
    lemma_parse_dec_i64(a);
}

/// The text formats name the transaction types DEPOSIT, TRANSFER and
/// WITHDRAWAL and the statuses SUCCESS, FAILURE and PENDING: each is written
/// with its own name, and a field reads as the one whose name it holds (an
/// empty field as DEPOSIT or SUCCESS).
pub proof fn lemma_text_names(t: TransactionType, st: Status, v: Seq<char>)
    ensures
        t is Deposit ==> tx_type_name(t) == "DEPOSIT"@,
        t is Transfer ==> tx_type_name(t) == "TRANSFER"@,
        t is Withdrawal ==> tx_type_name(t) == "WITHDRAWAL"@,
        st is Success ==> status_name(st) == "SUCCESS"@,
        st is Failure ==> status_name(st) == "FAILURE"@,
        st is Pending ==> status_name(st) == "PENDING"@,
        tx_type_field(tx_type_name(t)) == Ok::<TransactionType, FieldFault>(t),
        status_field(status_name(st)) == Ok::<Status, FieldFault>(st),
        tx_type_field(v) matches Ok(x) ==> {
            ||| trim(v).len() == 0 && x is Deposit
            ||| trim(v) == "DEPOSIT"@ && x is Deposit
            ||| trim(v) == "TRANSFER"@ && x is Transfer
            ||| trim(v) == "WITHDRAWAL"@ && x is Withdrawal
        },
        status_field(v) matches Ok(x) ==> {
            ||| trim(v).len() == 0 && x is Success
            ||| trim(v) == "SUCCESS"@ && x is Success
            ||| trim(v) == "FAILURE"@ && x is Failure
            ||| trim(v) == "PENDING"@ && x is Pending
        },
{
    lemma_tx_type_field_name(t);
    lemma_status_field_name(st);
}

/// A TX_TYPE field reads back from the name of the type.
pub proof fn lemma_tx_type_field_name(t: TransactionType)
    ensures
        tx_type_field(tx_type_name(t)) == Ok::<TransactionType, FieldFault>(t),
{
    lemma_names_plain(t, Status::Success);
    lemma_plain_trim(tx_type_name(t));
    reveal_strlit("DEPOSIT");
    reveal_strlit("TRANSFER");
    reveal_strlit("WITHDRAWAL");
}

/// A STATUS field reads back from the name of the status.
pub proof fn lemma_status_field_name(s: Status)
    ensures
        status_field(status_name(s)) == Ok::<Status, FieldFault>(s),
{
    lemma_names_plain(TransactionType::Deposit, s);
    lemma_plain_trim(status_name(s));
    reveal_strlit("SUCCESS");
    reveal_strlit("FAILURE");
    reveal_strlit("PENDING");
    assert("SUCCESS"@[0] == 'S' && "FAILURE"@[0] == 'F' && "PENDING"@[0] == 'P');
}

/// A DESCRIPTION field reads back from its text in double quotes.
pub proof fn lemma_description_field_quoted(w: Seq<char>)
    ensures
        description_field(seq!['"'] + w + seq!['"']) == Ok::<Seq<char>, FieldFault>(w),
{
    let q = seq!['"'] + w + seq!['"'];
    assert(!is_ws(q[0]) && !is_ws(q.last()));
    lemma_trim_keeps(q);
    assert(q.subrange(1, q.len() - 1) =~= w);
}

} // verus!
