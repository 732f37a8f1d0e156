//! The binary format YPBankBin:
//! - a file is a stream of records;
//! - each record is `[MAGIC][RECORD_SIZE][BODY...]`;
//! - MAGIC is `b"YPBN"` (0x59 0x50 0x42 0x4E);
//! - RECORD_SIZE is a big-endian u32, the number of bytes of the body;
//! - all integers are big-endian.
//!
//! The body is TX_ID (8), TX_TYPE (1), FROM_USER_ID (8), TO_USER_ID (8),
//! AMOUNT (8), TIMESTAMP (8), STATUS (1), DESC_LEN (4) and DESC_LEN bytes of
//! UTF-8 description.

use vstd::prelude::*;
use vstd::utf8::{decode_utf8, encode_utf8, valid_utf8};

use crate::data::{Operation, OperationModel, Status, TransactionType, opt_string_view};
use crate::errors::{DataError, ParseError, ParseErrorKind, Result};
use crate::formats::ypbank::fields::{
    K_DESCRIPTION, K_RECORD_SIZE, K_STATUS, K_TX_TYPE, SemanticFault, check_semantics,
    fault_field, fault_message, field_of_fault, message_of_fault, semantic_fault,
};
use crate::formats::ypbank::text::{dec, string_from_utf8, u64_to_string};

verus! {

/// `FromUtf8Error::to_string`: std's text for a UTF-8 error. Nothing is
/// stated of the text.
#[verifier::external_body]
fn utf8_error_text(e: &std::string::FromUtf8Error) -> String {
    e.to_string()
}

/// `std::io::Error::from(ErrorKind::UnexpectedEof)`: the error that `read_exact`
/// reports when the input ends inside what it reads. Nothing is stated of it.
#[verifier::external_body]
fn unexpected_eof() -> std::io::Error {
    std::io::Error::from(std::io::ErrorKind::UnexpectedEof)
}

// ------------------------------------------------------------ the byte layout

/// The record marker `YPBN`.
pub open spec fn magic() -> Seq<u8> {
    seq![0x59u8, 0x50u8, 0x42u8, 0x4eu8]
}

/// The number of bytes of a body without its description.
pub open spec fn fixed_body_len() -> int {
    46
}

/// The big-endian u32 at `b[at..at + 4]`.
pub open spec fn be_u32_at(b: Seq<u8>, at: int) -> u32 {
    ((b[at] as u32) << 24u32) | ((b[at + 1] as u32) << 16u32) | ((b[at + 2] as u32) << 8u32) | (
    b[at + 3] as u32)
}

/// The big-endian u64 at `b[at..at + 8]`.
pub open spec fn be_u64_at(b: Seq<u8>, at: int) -> u64 {
    ((b[at] as u64) << 56u64) | ((b[at + 1] as u64) << 48u64) | ((b[at + 2] as u64) << 40u64) | ((b[at
        + 3] as u64) << 32u64) | ((b[at + 4] as u64) << 24u64) | ((b[at + 5] as u64) << 16u64) | ((b[at
        + 6] as u64) << 8u64) | (b[at + 7] as u64)
}

/// The big-endian bytes of a u32.
pub open spec fn u32_be(v: u32) -> Seq<u8> {
    seq![(v >> 24u32) as u8, (v >> 16u32) as u8, (v >> 8u32) as u8, v as u8]
}

/// The big-endian bytes of a u64.
pub open spec fn u64_be(v: u64) -> Seq<u8> {
    seq![
        (v >> 56u64) as u8,
        (v >> 48u64) as u8,
        (v >> 40u64) as u8,
        (v >> 32u64) as u8,
        (v >> 24u64) as u8,
        (v >> 16u64) as u8,
        (v >> 8u64) as u8,
        v as u8,
    ]
}

/// The byte of a transaction type.
pub open spec fn tx_type_code(t: TransactionType) -> u8 {
    match t {
        TransactionType::Deposit => 0,
        TransactionType::Transfer => 1,
        TransactionType::Withdrawal => 2,
    }
}

/// The byte of a status.
pub open spec fn status_code(s: Status) -> u8 {
    match s {
        Status::Success => 0,
        Status::Failure => 1,
        Status::Pending => 2,
    }
}

/// The transaction type of a byte below 3.
pub open spec fn tx_type_of_code(b: u8) -> TransactionType {
    if b == 0 {
        TransactionType::Deposit
    } else if b == 1 {
        TransactionType::Transfer
    } else {
        TransactionType::Withdrawal
    }
}

/// The status of a byte below 3.
pub open spec fn status_of_code(b: u8) -> Status {
    if b == 0 {
        Status::Success
    } else if b == 1 {
        Status::Failure
    } else {
        Status::Pending
    }
}

/// The UTF-8 bytes of a description; none where there is none.
pub open spec fn description_bytes(d: Option<Seq<char>>) -> Seq<u8> {
    match d {
        Some(s) => encode_utf8(s),
        None => Seq::empty(),
    }
}

/// The body of the record of an operation.
pub open spec fn encode_body(m: OperationModel) -> Seq<u8> {
    let desc = description_bytes(m.description);
    u64_be(m.tx_id) + seq![tx_type_code(m.tx_type)] + u64_be(m.from_user_id) + u64_be(m.to_user_id)
        + u64_be(m.amount as u64) + u64_be(m.timestamp_ms) + seq![status_code(m.status)] + u32_be(
        desc.len() as u32,
    ) + desc
}

/// The whole record of an operation: MAGIC, RECORD_SIZE and body.
pub open spec fn encode_record(m: OperationModel) -> Seq<u8> {
    magic() + u32_be(encode_body(m).len() as u32) + encode_body(m)
}

/// The record of an operation fits the format: its description and its body
/// have lengths that a u32 holds.
pub open spec fn fits_record(m: OperationModel) -> bool {
    description_bytes(m.description).len() + fixed_body_len() <= u32::MAX
}

// ------------------------------------------------------------------ reading

/// The message of a RECORD_SIZE below the size of a body without description.
pub const MSG_SHORT_RECORD: &'static str = "RECORD_SIZE меньше минимально допустимого размера тела записи";

/// The message of a DESC_LEN that is not the number of bytes left in the body.
pub const MSG_DESC_LEN: &'static str = "DESC_LEN не совпадает с количеством оставшихся байт тела записи";

/// The message of a description that is not UTF-8.
pub const MSG_BAD_UTF8: &'static str = "DESCRIPTION не является корректным UTF-8";

/// The message of a description too long for its length field.
pub const MSG_DESC_TOO_LONG: &'static str = "DESCRIPTION слишком длинное для u32";

/// The message for a record body whose length does not fit in u32.
pub const MSG_BODY_TOO_LONG: &'static str = "Тело записи слишком большое для u32";

/// The codes a TX_TYPE byte may have.
pub const EXPECTED_TX_TYPE_CODE: &'static str = "0=DEPOSIT | 1=TRANSFER | 2=WITHDRAWAL";

/// The codes a STATUS byte may have.
pub const EXPECTED_STATUS_CODE: &'static str = "0=SUCCESS | 1=FAILURE | 2=PENDING";

/// What can be wrong with a record whose bytes are all there.
pub enum BinFault {
    /// RECORD_SIZE is below the 46 bytes of a body without description.
    ShortRecord(u32),
    /// The TX_TYPE byte is not 0, 1 or 2.
    BadTxType(u8),
    /// The STATUS byte is not 0, 1 or 2.
    BadStatus(u8),
    /// DESC_LEN is not the number of bytes left in the body.
    DescLenMismatch,
    /// The description is not valid UTF-8.
    BadUtf8,
    /// The operation breaks a rule of meaning.
    Semantic(SemanticFault),
}

/// What the next read from a position gives.
pub enum BinStep {
    /// No MAGIC lies ahead: the records are over.
    End,
    /// The input ends inside a record.
    Truncated,
    /// A record is there but wrong.
    Invalid(BinFault),
    /// An operation, and the position just after its record.
    Record(OperationModel, usize),
}

/// The first index at or after `from` where MAGIC starts.
pub open spec fn find_magic(d: Seq<u8>, from: int) -> Option<int>
    decreases d.len() - from,
{
    if from < 0 || from + 4 > d.len() {
        None
    } else if d.subrange(from, from + 4) == magic() {
        Some(from)
    } else {
        find_magic(d, from + 1)
    }
}

/// What a body reads as.
pub open spec fn decode_body(b: Seq<u8>) -> std::result::Result<OperationModel, BinFault> {
    let tt = b[8];
    let st = b[41];
    let dl = be_u32_at(b, 42);
    if tt > 2 {
        Err(BinFault::BadTxType(tt))
    } else if st > 2 {
        Err(BinFault::BadStatus(st))
    } else if b.len() - fixed_body_len() != dl {
        Err(BinFault::DescLenMismatch)
    } else if dl > 0 && !valid_utf8(b.skip(fixed_body_len())) {
        Err(BinFault::BadUtf8)
    } else {
        let m = OperationModel {
            tx_id: be_u64_at(b, 0),
            tx_type: tx_type_of_code(tt),
            from_user_id: be_u64_at(b, 9),
            to_user_id: be_u64_at(b, 17),
            amount: be_u64_at(b, 25) as i64,
            timestamp_ms: be_u64_at(b, 33),
            status: status_of_code(st),
            description: if dl == 0 {
                None
            } else {
                Some(decode_utf8(b.skip(fixed_body_len())))
            },
        };
        match semantic_fault(m) {
            Some(f) => Err(BinFault::Semantic(f)),
            None => Ok(m),
        }
    }
}

/// What the next read from position `pos` of the bytes `d` gives: the records
/// are found by MAGIC, skipping any bytes before it.
pub open spec fn bin_step(d: Seq<u8>, pos: int) -> BinStep {
    match find_magic(d, pos) {
        None => BinStep::End,
        Some(k) => {
            let p = k + 4;
            if p + 4 > d.len() {
                BinStep::Truncated
            } else {
                let size = be_u32_at(d, p);
                if size < fixed_body_len() {
                    BinStep::Invalid(BinFault::ShortRecord(size))
                } else if p + 4 + size > d.len() {
                    BinStep::Truncated
                } else {
                    match decode_body(d.subrange(p + 4, p + 4 + size)) {
                        Ok(m) => BinStep::Record(m, (p + 4 + size) as usize),
                        Err(f) => BinStep::Invalid(f),
                    }
                }
            }
        }
    }
}

/// The error `e` reports the failing step `st` of a read of record number `rec_no`.
pub open spec fn bin_step_failure(st: BinStep, rec_no: int, e: DataError) -> bool {
    match st {
        BinStep::Truncated => e is Io,
        BinStep::Invalid(f) => e matches DataError::Parse(pe) && fault_reported(pe, f, rec_no),
        _ => false,
    }
}

/// The step at which reading from `pos`, after `rec_no` records begun, stops
/// (the end, or the first record cut short or wrong), and the number of the
/// record it stops at.
pub open spec fn bin_last_step(d: Seq<u8>, pos: int, rec_no: int) -> (BinStep, int)
    decreases d.len() - pos,
{
    match bin_step(d, pos) {
        BinStep::Record(_, next) => if pos < next <= d.len() {
            bin_last_step(d, next as int, rec_no + 1)
        } else {
            (BinStep::End, rec_no + 1)
        },
        other => (other, rec_no + 1),
    }
}

/// The parse error `e` reports the fault `f` of record number `rec_no`.
pub open spec fn fault_reported(e: ParseError, f: BinFault, rec_no: int) -> bool {
    &&& e.line_no == rec_no
    &&& match f {
        BinFault::ShortRecord(size) => {
            &&& e.field == Some(K_RECORD_SIZE)
            &&& e.kind == (ParseErrorKind::SemanticRule { msg: MSG_SHORT_RECORD })
            &&& e.line@ == dec(size as nat)
        },
        BinFault::BadTxType(b) => {
            &&& e.field == Some(K_TX_TYPE)
            &&& e.kind matches ParseErrorKind::BadEnum { value, expected } && value@ == dec(b as nat)
                && expected == EXPECTED_TX_TYPE_CODE
            &&& e.line@.len() == 0
        },
        BinFault::BadStatus(b) => {
            &&& e.field == Some(K_STATUS)
            &&& e.kind matches ParseErrorKind::BadEnum { value, expected } && value@ == dec(b as nat)
                && expected == EXPECTED_STATUS_CODE
            &&& e.line@.len() == 0
        },
        BinFault::DescLenMismatch => {
            &&& e.field == Some(K_DESCRIPTION)
            &&& e.kind == (ParseErrorKind::SemanticRule { msg: MSG_DESC_LEN })
            &&& e.line@.len() == 0
        },
        BinFault::BadUtf8 => {
            &&& e.field == Some(K_DESCRIPTION)
            &&& e.kind == (ParseErrorKind::SemanticRule { msg: MSG_BAD_UTF8 })
        },
        BinFault::Semantic(s) => {
            &&& e.field == Some(fault_field(s))
            &&& e.kind == (ParseErrorKind::SemanticRule { msg: fault_message(s) })
            &&& e.line@.len() == 0
        },
    }
}

/// A reader of YPBankBin records from a sequence of bytes.
///
/// It finds each record by MAGIC, so bytes between records are skipped.
pub struct YPBankBin {
    data: Vec<u8>,
    pos: usize,
    /// The number of records begun so far, for diagnostics.
    rec_no: usize,
}

impl YPBankBin {
    #[verifier::type_invariant]
    spec fn inv(self) -> bool {
        self.rec_no <= self.pos <= self.data@.len()
    }

    /// The bytes being read.
    pub closed spec fn bytes(&self) -> Seq<u8> {
        self.data@
    }

    /// The position of the next read.
    pub closed spec fn position(&self) -> int {
        self.pos as int
    }

    /// The number of records begun so far.
    pub closed spec fn records_begun(&self) -> int {
        self.rec_no as int
    }

    /// A reader at the start of `data`.
    /// What one read does: from this reader to `after`, returning `r`.
    pub open spec fn read_gives(self, after: Self, r: Result<Option<Operation>>) -> bool {
        &&& after.bytes() == self.bytes()
        &&& match bin_step(self.bytes(), self.position()) {
            BinStep::End => r matches Ok(None) && after.position() == self.bytes().len(),
            BinStep::Truncated | BinStep::Invalid(_) => r matches Err(e) && bin_step_failure(
                bin_step(self.bytes(), self.position()),
                self.records_begun() + 1,
                e,
            ),
            BinStep::Record(m, next) => {
                &&& r matches Ok(Some(op)) && op@ == m
                &&& after.position() == next
                &&& after.records_begun() == self.records_begun() + 1
                &&& self.position() < after.position() <= after.bytes().len()
            },
        }
    }

    pub fn new(data: Vec<u8>) -> (r: Self)
        ensures
            r.bytes() == data@,
            r.position() == 0,
            r.records_begun() == 0,
    {
        YPBankBin { data, pos: 0, rec_no: 0 }
    }

    /// Reads the next record and returns its operation; `None` when no MAGIC
    /// lies ahead.
    pub fn next_op(&mut self) -> (r: Result<Option<Operation>>)
        ensures
            old(self).read_gives(*final(self), r),
    {
        proof {
            use_type_invariant(&*self);
        }
        let n = self.data.len();
        let found = find_magic_from(&self.data, self.pos);
        match found {
            None => {
                self.pos = n;
                Ok(None)
            },
            Some(k) => {
                let p = k + 4;
                self.pos = p;
                self.rec_no = self.rec_no + 1;
                if n - p < 4 {
                    return Err(DataError::Io(unexpected_eof()));
                }
                let size = read_u32(&self.data, p);
                if size < 46 {
                    let text = u64_to_string(size as u64);
                    return Err(
                        DataError::Parse(
                            ParseError::full(
                                self.rec_no,
                                Some(K_RECORD_SIZE),
                                ParseErrorKind::SemanticRule { msg: MSG_SHORT_RECORD },
                                text.as_str(),
                            ),
                        ),
                    );
                }
                let start = p + 4;
                let size = size as usize;
                if n - start < size {
                    return Err(DataError::Io(unexpected_eof()));
                }
                let end = start + size;
                let op = decode_record(&self.data, start, end, self.rec_no)?;
                self.pos = end;
                Ok(Some(op))
            },
        }
    }

    /// Appends the record of one operation to `out`: MAGIC, RECORD_SIZE, body.
    pub fn write_op(out: &mut Vec<u8>, op: &Operation) -> (r: Result<()>)
        ensures
            fits_record(op@) ==> r is Ok && final(out)@ == old(out)@ + encode_record(op@),
            !fits_record(op@) ==> (r matches Err(DataError::Parse(e)) && {
                &&& e.line_no == 0
                &&& if description_bytes(op@.description).len() > u32::MAX {
                    &&& e.field == Some(K_DESCRIPTION)
                    &&& e.kind == (ParseErrorKind::SemanticRule { msg: MSG_DESC_TOO_LONG })
                } else {
                    &&& e.field == Some(K_RECORD_SIZE)
                    &&& e.kind == (ParseErrorKind::SemanticRule { msg: MSG_BODY_TOO_LONG })
                }
                &&& e.line@.len() == 0
                &&& final(out)@ == old(out)@
            }),
    {
        let desc: &[u8] = match op.description() {
            Some(s) => s.as_bytes(),
            None => &[],
        };
        proof {
            assert(desc@ == description_bytes(op@.description));
        }
        if desc.len() > 4294967295 {
            proof {
                reveal_strlit("");
            }
            return Err(
                DataError::Parse(
                    ParseError::full(
                        0,
                        Some(K_DESCRIPTION),
                        ParseErrorKind::SemanticRule { msg: MSG_DESC_TOO_LONG },
                        "",
                    ),
                ),
            );
        }
        if desc.len() > 4294967249 {
            proof {
                reveal_strlit("");
            }
            return Err(
                DataError::Parse(
                    ParseError::full(
                        0,
                        Some(K_RECORD_SIZE),
                        ParseErrorKind::SemanticRule { msg: MSG_BODY_TOO_LONG },
                        "",
                    ),
                ),
            );
        }
        let desc_len = desc.len() as u32;
        let body_len = desc_len + 46;
        let ghost before = out@;
        out.push(0x59u8);
        out.push(0x50u8);
        out.push(0x42u8);
        out.push(0x4eu8);
        push_u32(out, body_len);
        push_u64(out, op.tx_id());
        out.push(tx_type_byte(op.tx_type()));
        push_u64(out, op.from_user_id());
        push_u64(out, op.to_user_id());
        push_u64(out, op.amount() as u64);
        push_u64(out, op.timestamp_ms());
        out.push(status_byte(op.status()));
        push_u32(out, desc_len);
        push_bytes(out, desc);
        proof {
            assert(encode_body(op@).len() == body_len);
            assert(out@ =~= before + encode_record(op@));
        }
        Ok(())
    }
}

/// The first index at or after `from` where MAGIC starts.
fn find_magic_from(d: &Vec<u8>, from: usize) -> (r: Option<usize>)
    requires
        from <= d@.len(),
    ensures
        match find_magic(d@, from as int) {
            Some(k) => r == Some(k as usize) && from <= k && k + 4 <= d.len(),
            None => r is None,
        },
{
    let n = d.len();
    let mut i = from;
    while i < n && n - i >= 4
        invariant
            from <= i <= n == d@.len(),
            find_magic(d@, from as int) == find_magic(d@, i as int),
        decreases n - i,
    {
        if d[i] == 0x59u8 && d[i + 1] == 0x50u8 && d[i + 2] == 0x42u8 && d[i + 3] == 0x4eu8 {
            proof {
                assert(d@.subrange(i as int, i + 4) =~= magic());
            }
            return Some(i);
        }
        proof {
            assert(d@.subrange(i as int, i + 4) != magic()) by {
                if d@.subrange(i as int, i + 4) == magic() {
                    assert(d@.subrange(i as int, i + 4)[0] == d@[i as int]);
                    assert(d@.subrange(i as int, i + 4)[1] == d@[i + 1]);
                    assert(d@.subrange(i as int, i + 4)[2] == d@[i + 2]);
                    assert(d@.subrange(i as int, i + 4)[3] == d@[i + 3]);
                }
            }
        }
        i = i + 1;
    }
    None
}

/// The big-endian u32 at `d[at..at + 4]`.
fn read_u32(d: &Vec<u8>, at: usize) -> (r: u32)
    requires
        at + 4 <= d.len(),
    ensures
        r == be_u32_at(d@, at as int),
{
    ((d[at] as u32) << 24u32) | ((d[at + 1] as u32) << 16u32) | ((d[at + 2] as u32) << 8u32) | (d[at
        + 3] as u32)
}

/// The big-endian u64 at `d[at..at + 8]`.
fn read_u64(d: &Vec<u8>, at: usize) -> (r: u64)
    requires
        at + 8 <= d.len(),
    ensures
        r == be_u64_at(d@, at as int),
{
    ((d[at] as u64) << 56u64) | ((d[at + 1] as u64) << 48u64) | ((d[at + 2] as u64) << 40u64) | ((d[at
        + 3] as u64) << 32u64) | ((d[at + 4] as u64) << 24u64) | ((d[at + 5] as u64) << 16u64) | ((d[at
        + 6] as u64) << 8u64) | (d[at + 7] as u64)
}

/// Appends the big-endian bytes of a u32.
fn push_u32(out: &mut Vec<u8>, v: u32)
    ensures
        final(out)@ == old(out)@ + u32_be(v),
{
    out.push((v >> 24u32) as u8);
    out.push((v >> 16u32) as u8);
    out.push((v >> 8u32) as u8);
    out.push(v as u8);
    proof {
        assert(final(out)@ =~= old(out)@ + u32_be(v));
    }
}

/// Appends the big-endian bytes of a u64.
fn push_u64(out: &mut Vec<u8>, v: u64)
    ensures
        final(out)@ == old(out)@ + u64_be(v),
{
    out.push((v >> 56u64) as u8);
    out.push((v >> 48u64) as u8);
    out.push((v >> 40u64) as u8);
    out.push((v >> 32u64) as u8);
    out.push((v >> 24u64) as u8);
    out.push((v >> 16u64) as u8);
    out.push((v >> 8u64) as u8);
    out.push(v as u8);
    proof {
        assert(final(out)@ =~= old(out)@ + u64_be(v));
    }
}

/// Appends bytes.
pub(crate) fn push_bytes(out: &mut Vec<u8>, b: &[u8])
    ensures
        final(out)@ == old(out)@ + b@,
{
    let n = b.len();
    let ghost start = out@;
    for i in 0..n
        invariant
            n == b@.len(),
            out@ == start + b@.take(i as int),
    {
        out.push(b[i]);
        proof {
            assert(b@.take(i + 1) =~= b@.take(i as int).push(b@[i as int]));
            assert(start + b@.take(i + 1) =~= (start + b@.take(i as int)).push(b@[i as int]));
        }
    }
    proof {
        assert(b@.take(n as int) =~= b@);
    }
}

/// The byte of a transaction type.
fn tx_type_byte(t: &TransactionType) -> (r: u8)
    ensures
        r == tx_type_code(*t),
{
    match t {
        TransactionType::Deposit => 0,
        TransactionType::Transfer => 1,
        TransactionType::Withdrawal => 2,
    }
}

/// The byte of a status.
fn status_byte(s: &Status) -> (r: u8)
    ensures
        r == status_code(*s),
{
    match s {
        Status::Success => 0,
        Status::Failure => 1,
        Status::Pending => 2,
    }
}

/// The error of a record with a bad enumeration byte.
fn bad_enum(rec_no: usize, field: &'static str, b: u8, expected: &'static str) -> (r: DataError)
    ensures
        r matches DataError::Parse(e) && {
            &&& e.line_no == rec_no
            &&& e.field == Some(field)
            &&& e.kind matches ParseErrorKind::BadEnum { value, expected: x } && value@ == dec(b as nat) && x
                == expected
            &&& e.line@.len() == 0
        },
{
    let value = u64_to_string(b as u64);
    proof {
        reveal_strlit("");
    }
    DataError::Parse(ParseError::full(rec_no, Some(field), ParseErrorKind::BadEnum { value, expected }, ""))
}

/// Reads the body `d[start..end]` of record number `rec_no`.
fn decode_record(d: &Vec<u8>, start: usize, end: usize, rec_no: usize) -> (r: Result<Operation>)
    requires
        start + 46 <= end <= d.len(),
    ensures
        match decode_body(d@.subrange(start as int, end as int)) {
            Ok(m) => r matches Ok(op) && op@ == m,
            Err(f) => r matches Err(DataError::Parse(e)) && fault_reported(e, f, rec_no as int),
        },
{
    let ghost b = d@.subrange(start as int, end as int);
    proof {
        assert(b[8] == d@[start + 8]);
        assert(b[41] == d@[start + 41]);
    }
    let tt = d[start + 8];
    if tt > 2 {
        return Err(bad_enum(rec_no, K_TX_TYPE, tt, EXPECTED_TX_TYPE_CODE));
    }
    let st = d[start + 41];
    if st > 2 {
        return Err(bad_enum(rec_no, K_STATUS, st, EXPECTED_STATUS_CODE));
    }
    let dl = read_u32(d, start + 42);
    proof {
        assert(be_u32_at(b, 42) == be_u32_at(d@, start + 42));
        reveal_strlit("");
    }
    if end - start - 46 != dl as usize {
        return Err(
            DataError::Parse(
                ParseError::full(
                    rec_no,
                    Some(K_DESCRIPTION),
                    ParseErrorKind::SemanticRule { msg: MSG_DESC_LEN },
                    "",
                ),
            ),
        );
    }
    let description = if dl == 0 {
        None
    } else {
        let mut bytes: Vec<u8> = Vec::new();
        let mut i = start + 46;
        while i < end
            invariant
                start + 46 <= i <= end <= d@.len(),
                bytes@ == d@.subrange(start + 46, i as int),
            decreases end - i,
        {
            bytes.push(d[i]);
            proof {
                assert(d@.subrange(start + 46, i + 1) =~= d@.subrange(start + 46, i as int).push(d@[i as int]));
            }
            i = i + 1;
        }
        proof {
            assert(bytes@ =~= b.skip(46));
        }
        match string_from_utf8(bytes) {
            Ok(s) => Some(s),
            Err(e) => {
                let text = utf8_error_text(&e);
                return Err(
                    DataError::Parse(
                        ParseError::full(
                            rec_no,
                            Some(K_DESCRIPTION),
                            ParseErrorKind::SemanticRule { msg: MSG_BAD_UTF8 },
                            text.as_str(),
                        ),
                    ),
                );
            },
        }
    };
    proof {
        assert(be_u64_at(b, 0) == be_u64_at(d@, start as int));
        assert(be_u64_at(b, 9) == be_u64_at(d@, start + 9));
        assert(be_u64_at(b, 17) == be_u64_at(d@, start + 17));
        assert(be_u64_at(b, 25) == be_u64_at(d@, start + 25));
        assert(be_u64_at(b, 33) == be_u64_at(d@, start + 33));
    }
    let tx_type = if tt == 0 {
        TransactionType::Deposit
    } else if tt == 1 {
        TransactionType::Transfer
    } else {
        TransactionType::Withdrawal
    };
    let status = if st == 0 {
        Status::Success
    } else if st == 1 {
        Status::Failure
    } else {
        Status::Pending
    };
    let op = Operation::new(
        read_u64(d, start),
        tx_type,
        read_u64(d, start + 9),
        read_u64(d, start + 17),
        read_u64(d, start + 25) as i64,
        read_u64(d, start + 33),
        status,
        description,
    );
    match check_semantics(&op) {
        Some(f) => {
            proof {
                reveal_strlit("");
            }
            Err(
                DataError::Parse(
                    ParseError::full(
                        rec_no,
                        Some(field_of_fault(f)),
                        ParseErrorKind::SemanticRule { msg: message_of_fault(f) },
                        "",
                    ),
                ),
            )
        },
        None => Ok(op),
    }
}


// ------------------------------------------------------------------- laws

/// An operation as it reads back from its record: an empty description is
/// written as no description at all.
pub open spec fn read_back(m: OperationModel) -> OperationModel {
    OperationModel {
        description: match m.description {
            Some(s) => if s.len() == 0 {
                None
            } else {
                Some(s)
            },
            None => None,
        },
        ..m
    }
}

proof fn lemma_u32_be_at(b: Seq<u8>, at: int, v: u32)
    requires
        0 <= at,
        at + 4 <= b.len(),
        b.subrange(at, at + 4) == u32_be(v),
    ensures
        be_u32_at(b, at) == v,
{
    let e = u32_be(v);
    assert(b[at] == e[0] && b[at + 1] == e[1] && b[at + 2] == e[2] && b[at + 3] == e[3]) by {
        assert(b.subrange(at, at + 4)[0] == b[at]);
        assert(b.subrange(at, at + 4)[1] == b[at + 1]);
        assert(b.subrange(at, at + 4)[2] == b[at + 2]);
        assert(b.subrange(at, at + 4)[3] == b[at + 3]);
    }
    assert(((((v >> 24u32) as u8) as u32) << 24u32) | ((((v >> 16u32) as u8) as u32) << 16u32) | ((((v
        >> 8u32) as u8) as u32) << 8u32) | ((v as u8) as u32) == v) by (bit_vector);
}

proof fn lemma_u64_be_at(b: Seq<u8>, at: int, v: u64)
    requires
        0 <= at,
        at + 8 <= b.len(),
        b.subrange(at, at + 8) == u64_be(v),
    ensures
        be_u64_at(b, at) == v,
{
    let e = u64_be(v);
    let w = b.subrange(at, at + 8);
    assert(w[0] == b[at] && w[1] == b[at + 1] && w[2] == b[at + 2] && w[3] == b[at + 3]);
    assert(w[4] == b[at + 4] && w[5] == b[at + 5] && w[6] == b[at + 6] && w[7] == b[at + 7]);
    assert(((((v >> 56u64) as u8) as u64) << 56u64) | ((((v >> 48u64) as u8) as u64) << 48u64) | ((((v
        >> 40u64) as u8) as u64) << 40u64) | ((((v >> 32u64) as u8) as u64) << 32u64) | ((((v
        >> 24u64) as u8) as u64) << 24u64) | ((((v >> 16u64) as u8) as u64) << 16u64) | ((((v
        >> 8u64) as u8) as u64) << 8u64) | ((v as u8) as u64) == v) by (bit_vector);
}

proof fn lemma_i64_u64_round(x: i64)
    ensures
        ((x as u64) as i64) == x,
{
    assert(((x as u64) as i64) == x) by (bit_vector);
}

/// Reading a record back: the body of an operation that keeps the rules of
/// meaning decodes to that operation, up to an empty description.
#[verifier::rlimit(40)]
pub proof fn lemma_decode_encode_body(m: OperationModel)
    requires
        fits_record(m),
        semantic_fault(m) is None,
    ensures
        decode_body(encode_body(m)) == Ok::<OperationModel, BinFault>(read_back(m)),
{
    let desc = description_bytes(m.description);
    let b = encode_body(m);
    let h1 = u64_be(m.tx_id);
    let h2 = h1 + seq![tx_type_code(m.tx_type)];
    let h3 = h2 + u64_be(m.from_user_id);
    let h4 = h3 + u64_be(m.to_user_id);
    let h5 = h4 + u64_be(m.amount as u64);
    let h6 = h5 + u64_be(m.timestamp_ms);
    let h7 = h6 + seq![status_code(m.status)];
    let h8 = h7 + u32_be(desc.len() as u32);
    assert(b == h8 + desc);
    assert(h8.len() == 46);
    assert(b.subrange(0, 8) =~= u64_be(m.tx_id));
    assert(b[8] == tx_type_code(m.tx_type));
    assert(b.subrange(9, 17) =~= u64_be(m.from_user_id));
    assert(b.subrange(17, 25) =~= u64_be(m.to_user_id));
    assert(b.subrange(25, 33) =~= u64_be(m.amount as u64));
    assert(b.subrange(33, 41) =~= u64_be(m.timestamp_ms));
    assert(b[41] == status_code(m.status));
    assert(b.subrange(42, 46) =~= u32_be(desc.len() as u32));
    assert(b.skip(46) =~= desc);
    lemma_u64_be_at(b, 0, m.tx_id);
    lemma_u64_be_at(b, 9, m.from_user_id);
    lemma_u64_be_at(b, 17, m.to_user_id);
    lemma_u64_be_at(b, 25, m.amount as u64);
    lemma_u64_be_at(b, 33, m.timestamp_ms);
    lemma_u32_be_at(b, 42, desc.len() as u32);
    lemma_i64_u64_round(m.amount);
    match m.description {
        Some(s) => {
            vstd::utf8::encode_utf8_valid_utf8(s);
            vstd::utf8::encode_utf8_decode_utf8(s);
            if s.len() == 0 {
                assert(s =~= Seq::<char>::empty());
                assert(encode_utf8(s).len() == 0);
            } else {
                lemma_encode_utf8_nonempty(s);
            }
        },
        None => {},
    }
}

proof fn lemma_encode_utf8_nonempty(s: Seq<char>)
    requires
        s.len() > 0,
    ensures
        encode_utf8(s).len() > 0,
{
    vstd::utf8::encode_utf8_decode_utf8(s);
    if encode_utf8(s).len() == 0 {
        assert(encode_utf8(s) =~= Seq::<u8>::empty());
        assert(decode_utf8(Seq::<u8>::empty()) =~= Seq::<char>::empty());
    }
}

/// A whole, well-formed record at `p` reads as its operation.
proof fn lemma_bin_step_record(d: Seq<u8>, p: int, size: u32, m: OperationModel)
    requires
        0 <= p,
        find_magic(d, p) == Some(p),
        be_u32_at(d, p + 4) == size,
        size >= fixed_body_len(),
        p + 8 + size <= d.len(),
        decode_body(d.subrange(p + 8, p + 8 + size)) == Ok::<OperationModel, BinFault>(m),
    ensures
        bin_step(d, p) == BinStep::Record(m, (p + 8 + size) as usize),
{
}

/// Reading a record back: where the bytes that `write_op` writes for an
/// operation stand after any bytes (whatever follows them), the reader finds
/// that operation, up to an empty description, and stops just after its record.
#[verifier::rlimit(40)]
pub proof fn lemma_bin_roundtrip(pre: Seq<u8>, m: OperationModel, rest: Seq<u8>)
    requires
        fits_record(m),
        semantic_fault(m) is None,
    ensures
        bin_step(pre + encode_record(m) + rest, pre.len() as int) == BinStep::Record(
            read_back(m),
            (pre.len() + encode_record(m).len()) as usize,
        ),
{
    let body = encode_body(m);
    let size = body.len() as u32;
    let r = encode_record(m);
    let d = pre + r + rest;
    let p = pre.len() as int;
    assert(body.len() == description_bytes(m.description).len() + 46 && size == body.len() && r == magic()
        + u32_be(size) + body) by {
        assert(body.len() == description_bytes(m.description).len() + 46);
    }
    assert(find_magic(d, p) == Some(p)) by {
        assert(d.subrange(p, p + 4) =~= magic());
    }
    assert(be_u32_at(d, p + 4) == size) by {
        assert(d.subrange(p + 4, p + 8) =~= u32_be(size));
        lemma_u32_be_at(d, p + 4, size);
    }
    assert(decode_body(d.subrange(p + 8, p + 8 + size)) == Ok::<OperationModel, BinFault>(read_back(m))) by {
        assert(d.subrange(p + 8, p + 8 + size) =~= body);
        lemma_decode_encode_body(m);
    }
    lemma_bin_step_record(d, p, size, read_back(m));
}

// ------------------------------------------------------------- statements

/// The operations that reading from `pos` gives up to the end of the bytes;
/// `None` where a record is cut short or wrong.
pub open spec fn bin_all(d: Seq<u8>, pos: int) -> Option<Seq<OperationModel>>
    decreases d.len() - pos,
{
    match bin_step(d, pos) {
        BinStep::End => Some(Seq::empty()),
        BinStep::Record(m, next) => if pos < next <= d.len() {
            match bin_all(d, next as int) {
                Some(r) => Some(seq![m] + r),
                None => None,
            }
        } else {
            None
        },
        _ => None,
    }
}

/// The records of operations, one after another.
pub open spec fn bin_records(ops: Seq<OperationModel>) -> Seq<u8>
    decreases ops.len(),
{
    if ops.len() == 0 {
        Seq::empty()
    } else {
        bin_records(ops.drop_last()) + encode_record(ops.last())
    }
}

/// An operation that the binary format writes so that it reads back.
pub open spec fn bin_writable(m: OperationModel) -> bool {
    fits_record(m) && semantic_fault(m) is None
}

proof fn lemma_bin_records_prefix(ops: Seq<OperationModel>, j: int, k: int)
    requires
        0 <= j <= k <= ops.len(),
    ensures
        bin_records(ops.take(k)) =~= bin_records(ops.take(j)) + bin_records(ops.take(k)).skip(
            bin_records(ops.take(j)).len() as int,
        ),
        bin_records(ops.take(j)).len() <= bin_records(ops.take(k)).len(),
    decreases k - j,
{
    if j < k {
        lemma_bin_records_prefix(ops, j, k - 1);
        assert(ops.take(k).drop_last() =~= ops.take(k - 1));
    }
}

/// One record of the bytes of writable operations read back.
#[verifier::rlimit(30)]
proof fn lemma_bin_all_step(ops: Seq<OperationModel>, i: int)
    requires
        0 <= i < ops.len(),
        forall|k: int| 0 <= k < ops.len() ==> bin_writable(#[trigger] ops[k]),
        bin_records(ops).len() <= usize::MAX,
    ensures
        bin_records(ops.take(i)).len() < bin_records(ops.take(i + 1)).len() <= bin_records(ops).len(),
        bin_all(bin_records(ops), bin_records(ops.take(i)).len() as int) == match bin_all(
            bin_records(ops),
            bin_records(ops.take(i + 1)).len() as int,
        ) {
            Some(r) => Some(seq![read_back(ops[i])] + r),
            None => None,
        },
{
    let d = bin_records(ops);
    let n = ops.len() as int;
    let m = ops[i];
    let pre = bin_records(ops.take(i));
    let q = bin_records(ops.take(i + 1)).len() as int;
    let rest = d.skip(q);
    assert(d == pre + encode_record(m) + rest && q == pre.len() + encode_record(m).len() && q <= d.len()) by {
        assert(ops.take(n) =~= ops);
        lemma_bin_records_prefix(ops, i + 1, n);
        assert(ops.take(i + 1).drop_last() =~= ops.take(i));
        assert(bin_records(ops.take(i + 1)) == pre + encode_record(m));
        assert(d =~= pre + encode_record(m) + rest);
    }
    assert(bin_writable(m));
    lemma_bin_roundtrip(pre, m, rest);
}

proof fn lemma_bin_all_from(ops: Seq<OperationModel>, i: int)
    requires
        0 <= i <= ops.len(),
        forall|k: int| 0 <= k < ops.len() ==> bin_writable(#[trigger] ops[k]),
        bin_records(ops).len() <= usize::MAX,
    ensures
        bin_all(bin_records(ops), bin_records(ops.take(i)).len() as int) == Some(
            ops.skip(i).map_values(|m: OperationModel| read_back(m)),
        ),
    decreases ops.len() - i,
{
    let n = ops.len() as int;
    if i == n {
        assert(ops.take(n) =~= ops);
        assert(ops.skip(i).map_values(|m: OperationModel| read_back(m)) =~= Seq::<OperationModel>::empty());
    } else {
        lemma_bin_all_step(ops, i);
        lemma_bin_all_from(ops, i + 1);
        assert(ops.skip(i).map_values(|m: OperationModel| read_back(m)) =~= seq![read_back(ops[i])]
            + ops.skip(i + 1).map_values(|m: OperationModel| read_back(m)));
    }
}

/// Reading back a statement: the records of writable operations, one after
/// another, read as those operations, up to empty descriptions.
pub proof fn lemma_bin_read_written(ops: Seq<OperationModel>)
    requires
        forall|k: int| 0 <= k < ops.len() ==> bin_writable(#[trigger] ops[k]),
        bin_records(ops).len() <= usize::MAX,
    ensures
        bin_all(bin_records(ops), 0) == Some(ops.map_values(|m: OperationModel| read_back(m))),
{
    lemma_bin_all_from(ops, 0);
    assert(ops.take(0) =~= Seq::<OperationModel>::empty());
    assert(ops.skip(0) =~= ops);
}

// ------------------------------------------------------------- strategies

/// The reading strategy for `Statement::from_read`: each call reads the next
/// record from the reader it is handed.
pub fn make_next_op() -> (f: impl FnMut(&mut YPBankBin) -> Result<Option<Operation>>)
    ensures
        forall|p: &mut YPBankBin| call_requires(f, (p,)),
        forall|p: &mut YPBankBin, r: Result<Option<Operation>>| call_ensures(f, (p,), r) ==> (*p).read_gives(
            *final(p),
            r,
        ),
{
    |p: &mut YPBankBin| -> (r: Result<Option<Operation>>)
        ensures
            old(p).read_gives(*final(p), r),
        { p.next_op() }
}

/// The writing strategy for `Statement::write_to`: each call appends the
/// record of one operation to the bytes it is handed.
pub fn make_write_op() -> (f: impl FnMut(&mut Vec<u8>, &Operation) -> Result<()>)
    ensures
        forall|w: &mut Vec<u8>, op: &Operation| call_requires(f, (w, op)),
        forall|w: &mut Vec<u8>, op: &Operation, r: Result<()>| call_ensures(f, (w, op), r) ==> (fits_record(
            op@,
        ) ==> r is Ok && final(w)@ == (*w)@ + encode_record(op@)) && (!fits_record(op@) ==> r is Err
            && final(w)@ == (*w)@),
{
    |w: &mut Vec<u8>, op: &Operation| -> (r: Result<()>)
        ensures
            fits_record(op@) ==> r is Ok && final(w)@ == old(w)@ + encode_record(op@),
            !fits_record(op@) ==> r is Err && final(w)@ == old(w)@,
        { YPBankBin::write_op(w, op) }
}

} // verus!
