//! Laws of the YPBankBin byte layout, stated against the format's own
//! definition: every integer is big-endian (its bytes spell it in base 256,
//! the most significant byte first), and the TX_TYPE and STATUS bytes follow
//! the fixed tables 0 = DEPOSIT, 1 = TRANSFER, 2 = WITHDRAWAL and
//! 0 = SUCCESS, 1 = FAILURE, 2 = PENDING.

use vstd::prelude::*;

use crate::data::{OperationModel, Status, TransactionType};
use crate::formats::ypbank::bin::{
    be_u32_at, be_u64_at, bin_step, decode_body, description_bytes, encode_body, encode_record, find_magic, u32_be,
    u64_be,
};

verus! {

/// The number that the eight bytes `b[at..at + 8]` spell in base 256, the
/// most significant byte first.
pub open spec fn base256_8(b: Seq<u8>, at: int) -> int {
    b[at] * 0x100000000000000int + b[at + 1] * 0x1000000000000int + b[at + 2] * 0x10000000000int + b[at + 3]
        * 0x100000000int + b[at + 4] * 0x1000000int + b[at + 5] * 0x10000int + b[at + 6] * 0x100int + b[at
        + 7] as int
}

/// Reading eight bytes as a u64 is reading them in base 256, most significant first.
pub proof fn lemma_be_u64_at_base256(b: Seq<u8>, at: int)
    requires
        0 <= at,
        at + 8 <= b.len(),
    ensures
        be_u64_at(b, at) as int == base256_8(b, at),
{
    let x0 = b[at];
    let x1 = b[at + 1];
    let x2 = b[at + 2];
    let x3 = b[at + 3];
    let x4 = b[at + 4];
    let x5 = b[at + 5];
    let x6 = b[at + 6];
    let x7 = b[at + 7];
    assert(((x0 as u64) << 56u64) | ((x1 as u64) << 48u64) | ((x2 as u64) << 40u64) | ((x3 as u64) << 32u64)
        | ((x4 as u64) << 24u64) | ((x5 as u64) << 16u64) | ((x6 as u64) << 8u64) | (x7 as u64) == x0
        * 0x100000000000000u64 + x1 * 0x1000000000000u64 + x2 * 0x10000000000u64 + x3 * 0x100000000u64 + x4
        * 0x1000000u64 + x5 * 0x10000u64 + x6 * 0x100u64 + x7) by (bit_vector);
}

/// The eight bytes written for a u64 spell it in base 256, most significant first.
pub proof fn lemma_u64_be_base256(v: u64)
    ensures
        u64_be(v).len() == 8,
        base256_8(u64_be(v), 0) == v as int,
{
    assert(v == ((v >> 56u64) as u8) * 0x100000000000000u64 + ((v >> 48u64) as u8) * 0x1000000000000u64 + ((v
        >> 40u64) as u8) * 0x10000000000u64 + ((v >> 32u64) as u8) * 0x100000000u64 + ((v >> 24u64) as u8)
        * 0x1000000u64 + ((v >> 16u64) as u8) * 0x10000u64 + ((v >> 8u64) as u8) * 0x100u64 + (v as u8))
        by (bit_vector);
}

/// The number that the four bytes `b[at..at + 4]` spell in base 256, the
/// most significant byte first.
pub open spec fn base256_4(b: Seq<u8>, at: int) -> int {
    b[at] * 0x1000000int + b[at + 1] * 0x10000int + b[at + 2] * 0x100int + b[at + 3] as int
}

/// Reading four bytes as a u32 is reading them in base 256, most significant first.
pub proof fn lemma_be_u32_at_base256(b: Seq<u8>, at: int)
    requires
        0 <= at,
        at + 4 <= b.len(),
    ensures
        be_u32_at(b, at) as int == base256_4(b, at),
{
    let x0 = b[at];
    let x1 = b[at + 1];
    let x2 = b[at + 2];
    let x3 = b[at + 3];
    assert(((x0 as u32) << 24u32) | ((x1 as u32) << 16u32) | ((x2 as u32) << 8u32) | (x3 as u32) == x0
        * 0x1000000u32 + x1 * 0x10000u32 + x2 * 0x100u32 + x3) by (bit_vector);
}

/// The four bytes written for a u32 spell it in base 256, most significant first.
pub proof fn lemma_u32_be_base256(v: u32)
    ensures
        u32_be(v).len() == 4,
        base256_4(u32_be(v), 0) == v as int,
{
    assert(v == ((v >> 24u32) as u8) * 0x1000000u32 + ((v >> 16u32) as u8) * 0x10000u32 + ((v >> 8u32) as u8)
        * 0x100u32 + (v as u8)) by (bit_vector);
}

/// Eight bytes read in place read as the same eight bytes taken out.
proof fn lemma_base256_sub(b: Seq<u8>, at: int, w: Seq<u8>)
    requires
        0 <= at,
        at + 8 <= b.len(),
        b.subrange(at, at + 8) == w,
    ensures
        base256_8(b, at) == base256_8(w, 0),
{
    assert(b[at] == w[0] && b[at + 1] == w[1] && b[at + 2] == w[2] && b[at + 3] == w[3]);
    assert(b[at + 4] == w[4] && b[at + 5] == w[5] && b[at + 6] == w[6] && b[at + 7] == w[7]);
}

/// The byte of a transaction type in the format's table.
pub open spec fn tx_type_byte_in_table(t: TransactionType, b: u8) -> bool {
    ||| t is Deposit && b == 0
    ||| t is Transfer && b == 1
    ||| t is Withdrawal && b == 2
}

/// The byte of a status in the format's table.
pub open spec fn status_byte_in_table(s: Status, b: u8) -> bool {
    ||| s is Success && b == 0
    ||| s is Failure && b == 1
    ||| s is Pending && b == 2
}

/// Writing a record body: TX_ID at bytes 0..8, FROM_USER_ID at 9..17,
/// TO_USER_ID at 17..25, AMOUNT (as its two's-complement u64) at 25..33 and
/// TIMESTAMP at 33..41 are each the big-endian bytes of the value; byte 8 is
/// the TX_TYPE and byte 41 the STATUS, by the format's tables.
pub proof fn lemma_encode_body_layout(m: OperationModel)
    ensures
        encode_body(m).len() >= 46,
        base256_8(encode_body(m), 0) == m.tx_id as int,
        base256_8(encode_body(m), 9) == m.from_user_id as int,
        base256_8(encode_body(m), 17) == m.to_user_id as int,
        base256_8(encode_body(m), 25) == (m.amount as u64) as int,
        base256_8(encode_body(m), 33) == m.timestamp_ms as int,
        tx_type_byte_in_table(m.tx_type, encode_body(m)[8]),
        status_byte_in_table(m.status, encode_body(m)[41]),
        description_bytes(m.description).len() <= u32::MAX ==> base256_4(encode_body(m), 42)
            == description_bytes(m.description).len(),
        encode_body(m).skip(46) == description_bytes(m.description),
        encode_body(m).len() == 46 + description_bytes(m.description).len(),
{
    let b = encode_body(m);
    let desc = description_bytes(m.description);
    lemma_u32_be_base256(desc.len() as u32);
    assert(b.subrange(42, 46) =~= u32_be(desc.len() as u32));
    assert(b.skip(46) =~= desc);
    assert(base256_4(b, 42) == base256_4(u32_be(desc.len() as u32), 0));
    lemma_u64_be_base256(m.tx_id);
    lemma_u64_be_base256(m.from_user_id);
    lemma_u64_be_base256(m.to_user_id);
    lemma_u64_be_base256(m.amount as u64);
    lemma_u64_be_base256(m.timestamp_ms);
    assert(b.subrange(0, 8) =~= u64_be(m.tx_id));
    assert(b.subrange(9, 17) =~= u64_be(m.from_user_id));
    assert(b.subrange(17, 25) =~= u64_be(m.to_user_id));
    assert(b.subrange(25, 33) =~= u64_be(m.amount as u64));
    assert(b.subrange(33, 41) =~= u64_be(m.timestamp_ms));
    lemma_base256_sub(b, 0, u64_be(m.tx_id));
    lemma_base256_sub(b, 9, u64_be(m.from_user_id));
    lemma_base256_sub(b, 17, u64_be(m.to_user_id));
    lemma_base256_sub(b, 25, u64_be(m.amount as u64));
    lemma_base256_sub(b, 33, u64_be(m.timestamp_ms));
}

/// Reading a record body: whatever operation it gives has the big-endian
/// values of bytes 0..8, 9..17, 17..25, 25..33 (as a two's-complement u64)
/// and 33..41 as TX_ID, FROM_USER_ID, TO_USER_ID, AMOUNT and TIMESTAMP, and
/// the TX_TYPE and STATUS that bytes 8 and 41 stand for in the format's tables.
pub proof fn lemma_decode_body_layout(b: Seq<u8>)
    ensures
        decode_body(b) matches Ok(m) ==> {
            &&& b.len() >= 46
            &&& m.tx_id as int == base256_8(b, 0)
            &&& m.from_user_id as int == base256_8(b, 9)
            &&& m.to_user_id as int == base256_8(b, 17)
            &&& (m.amount as u64) as int == base256_8(b, 25)
            &&& m.timestamp_ms as int == base256_8(b, 33)
            &&& tx_type_byte_in_table(m.tx_type, b[8])
            &&& status_byte_in_table(m.status, b[41])
            &&& base256_4(b, 42) == b.len() - 46
        },
{
    if decode_body(b) is Ok {
        lemma_be_u32_at_base256(b, 42);
        lemma_be_u64_at_base256(b, 0);
        lemma_be_u64_at_base256(b, 9);
        lemma_be_u64_at_base256(b, 17);
        lemma_be_u64_at_base256(b, 25);
        lemma_be_u64_at_base256(b, 33);
        let v = be_u64_at(b, 25);
        assert(((v as i64) as u64) == v) by (bit_vector);
    }
}

/// Writing a record: the four bytes of MAGIC "YPBN", then RECORD_SIZE as the
/// big-endian length of the body, then the body.
pub proof fn lemma_encode_record_layout(m: OperationModel)
    requires
        encode_body(m).len() <= u32::MAX,
    ensures
        encode_record(m).len() == 8 + encode_body(m).len(),
        encode_record(m)[0] == 0x59u8 && encode_record(m)[1] == 0x50u8,
        encode_record(m)[2] == 0x42u8 && encode_record(m)[3] == 0x4eu8,
        base256_4(encode_record(m), 4) == encode_body(m).len(),
        encode_record(m).skip(8) == encode_body(m),
{
    let r = encode_record(m);
    let n = encode_body(m).len() as u32;
    lemma_u32_be_base256(n);
    assert(r.subrange(4, 8) =~= u32_be(n));
    assert(base256_4(r, 4) == base256_4(u32_be(n), 0));
    assert(r.skip(8) =~= encode_body(m));
}

/// Reading a record: an operation read from position `pos` comes from the
/// first MAGIC "YPBN" at or after `pos`, whose next four bytes give, in
/// big-endian, the length of the body that follows; the operation is what
/// that body reads as, and reading goes on just after it.
pub proof fn lemma_bin_step_layout(d: Seq<u8>, pos: int)
    requires
        d.len() <= usize::MAX,
    ensures
        bin_step(d, pos) matches crate::formats::ypbank::bin::BinStep::Record(m, next) ==> {
            let k = find_magic(d, pos)->Some_0;
            &&& find_magic(d, pos) is Some
            &&& pos <= k
            &&& d[k] == 0x59u8 && d[k + 1] == 0x50u8 && d[k + 2] == 0x42u8 && d[k + 3] == 0x4eu8
            &&& k + 8 + base256_4(d, k + 4) == next <= d.len()
            &&& decode_body(d.subrange(k + 8, next as int)) == Ok::<OperationModel, crate::formats::ypbank::bin::BinFault>(m)
        },
{
    if bin_step(d, pos) is Record {
        lemma_find_magic(d, pos);
        let k = find_magic(d, pos)->Some_0;
        lemma_be_u32_at_base256(d, k + 4);
        assert(d[k] == d.subrange(k, k + 4)[0] && d[k + 1] == d.subrange(k, k + 4)[1]);
        assert(d[k + 2] == d.subrange(k, k + 4)[2] && d[k + 3] == d.subrange(k, k + 4)[3]);
    }
}

/// Where the search for MAGIC from `from >= 0` stops, MAGIC stands.
proof fn lemma_find_magic(d: Seq<u8>, from: int)
    requires
        0 <= from,
    ensures
        find_magic(d, from) matches Some(k) ==> from <= k && k + 4 <= d.len() && d.subrange(k, k + 4)
            == seq![0x59u8, 0x50u8, 0x42u8, 0x4eu8],
    decreases d.len() - from,
{
    if from + 4 <= d.len() && d.subrange(from, from + 4) != seq![0x59u8, 0x50u8, 0x42u8, 0x4eu8] {
        lemma_find_magic(d, from + 1);
    }
}

} // verus!
