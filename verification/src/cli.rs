//! What the command-line tools decide: the names of formats, the help texts,
//! and reading, writing and comparing whole statements.

use vstd::prelude::*;
use vstd::string::StrSliceExecFns;
use vstd::utf8::encode_utf8;

use crate::data::{OperationModel, Statement, lemma_sorted_from_push, same_keys, sorted_build, sorted_by_key, sorted_from};
use crate::errors::{DataError, Result};
use crate::formats::ypbank::bin::{
    YPBankBin, bin_all, bin_last_step, bin_records, bin_step_failure, bin_writable, fits_record,
    lemma_bin_read_written, push_bytes, read_back,
};
use crate::formats::ypbank::csv::{
    HEADER, YPBankCsv, csv_all, csv_last_step, csv_lines, csv_step_failure, csv_text, lemma_csv_read_written,
};
use crate::formats::ypbank::fields::{text_read_back, text_writable};
use crate::formats::ypbank::text::{lemma_encode_utf8_len, lemma_readable_encoded, readable_lines, readable_text};
use crate::formats::ypbank::txt::{
    YPBankText, lemma_txt_read_written, txt_all, txt_last_step, txt_records, txt_step_failure,
};

/// The converter tool.
pub mod converter;
/// The comparer tool.
pub mod comparer;

verus! {

/// The formats a statement can be read from and written to.
#[derive(Debug, Clone, Copy, PartialEq, Eq, Structural)]
pub enum Format {
    Txt,
    Csv,
    Bin,
}

/// `char::to_ascii_lowercase`.
pub open spec fn ascii_lower_char(c: char) -> char {
    if 'A' <= c && c <= 'Z' {
        ((c as u32) + 32) as char
    } else {
        c
    }
}

/// `str::to_ascii_lowercase`, on characters.
pub open spec fn ascii_lower(s: Seq<char>) -> Seq<char> {
    s.map_values(|c: char| ascii_lower_char(c))
}

/// The characters of `s` with ASCII capitals made small.
pub fn to_ascii_lowercase(s: &str) -> (r: Vec<char>)
    ensures
        r@ == ascii_lower(s@),
{
    let n = s.unicode_len();
    let mut r: Vec<char> = Vec::new();
    for i in 0..n
        invariant
            n == s@.len(),
            r@ == ascii_lower(s@).take(i as int),
    {
        let c = s.get_char(i);
        let l = if 'A' <= c && c <= 'Z' {
            ((c as u32 + 32) as u8) as char
        } else {
            c
        };
        r.push(l);
        proof {
            assert(ascii_lower(s@).take(i + 1) =~= ascii_lower(s@).take(i as int).push(ascii_lower(s@)[i as int]));
        }
    }
    proof {
        assert(ascii_lower(s@).take(n as int) =~= ascii_lower(s@));
    }
    r
}

// -------------------------------------------------------------- arguments

/// The texts of the command-line arguments.
pub open spec fn arg_texts(args: Seq<String>) -> Seq<Seq<char>> {
    args.map_values(|a: String| a@)
}

/// The text of an optional argument.
pub open spec fn opt_text(s: Option<String>) -> Option<Seq<char>> {
    match s {
        Some(t) => Some(t@),
        None => None,
    }
}

/// The argument `a` is the text `name`.
pub fn arg_is(a: &String, name: &str) -> (r: bool)
    ensures
        r == (a@ == name@),
{
    let cs = crate::formats::ypbank::text::chars_of(a.as_str());
    crate::formats::ypbank::text::chars_eq_str(&cs, name)
}

/// A format error with the message `msg`.
pub fn format_message(msg: &str) -> (e: DataError)
    ensures
        e matches DataError::Format(m) && m@ == msg@,
{
    DataError::Format(msg.to_owned())
}

/// A format error with the message `prefix` followed by `rest`.
pub fn format_error(prefix: &str, rest: &str) -> (e: DataError)
    ensures
        e matches DataError::Format(m) && m@ == prefix@ + rest@,
{
    let mut m = String::new();
    m.push_str(prefix);
    m.push_str(rest);
    DataError::Format(m)
}

// ------------------------------------------------------------- statements

/// `prefix` before the sequence that `rest` holds, if it holds one.
pub open spec fn after(prefix: Seq<OperationModel>, rest: Option<Seq<OperationModel>>) -> Option<Seq<OperationModel>> {
    match rest {
        Some(r) => Some(prefix + r),
        None => None,
    }
}

/// The operations that a statement in format `fmt` holds, in the order of its
/// records; `None` where it cannot be read (a missing or wrong CSV header, a
/// wrong or cut-short record, a line of a text format that is not UTF-8 and
/// that the reading reaches).
pub open spec fn records_of(fmt: Format, input: Seq<u8>) -> Option<Seq<OperationModel>> {
    let (text, cut) = readable_lines(input);
    match fmt {
        Format::Txt => txt_all(text, 0, 0, cut),
        Format::Csv => csv_all(text, 0, 0, false, cut),
        Format::Bin => bin_all(input, 0),
    }
}

/// The bytes of a statement of the operations `ops` in format `fmt`.
pub open spec fn statement_bytes(fmt: Format, ops: Seq<OperationModel>) -> Seq<u8> {
    match fmt {
        Format::Txt => encode_utf8(txt_records(ops)),
        Format::Csv => encode_utf8(csv_text(ops)),
        Format::Bin => bin_records(ops),
    }
}

/// `e` is the error that reading a statement in format `fmt` from `input`
/// stops with: the error of the step at which reading stops (a missing or
/// wrong CSV header, the first wrong record, a record cut short, an I/O error
/// for a line of a text format that is not UTF-8).
pub open spec fn read_failure(fmt: Format, input: Seq<u8>, e: DataError) -> bool {
    let (text, cut) = readable_lines(input);
    match fmt {
        Format::Txt => txt_step_failure(txt_last_step(text, 0, 0, cut), e),
        Format::Csv => csv_step_failure(csv_last_step(text, 0, 0, false, cut), e),
        Format::Bin => bin_step_failure(bin_last_step(input, 0, 0).0, bin_last_step(input, 0, 0).1, e),
    }
}

/// Every operation has a record that the binary format can write.
pub open spec fn all_fit(ops: Seq<OperationModel>) -> bool {
    forall|k: int| 0 <= k < ops.len() ==> fits_record(#[trigger] ops[k])
}

/// Reads a statement in format `fmt` from the bytes `input`: its operations,
/// each added in its sorted place as it is read, or the first error met. The
/// text formats are read line by line as far as the lines are UTF-8: a line
/// that is not gives an I/O error when the reading reaches it.
pub fn read_statement(fmt: Format, input: Vec<u8>) -> (r: Result<Statement>)
    ensures
        match records_of(fmt, input@) {
            Some(ops) => r matches Ok(st) && st@ == sorted_build(ops) && sorted_from(st@, ops) && st.meta_value().source is None
                && st.meta_value().account_id is None && st.meta_value().generated_at_ms is None,
            None => r matches Err(e) && read_failure(fmt, input@, e),
        },
{
    match fmt {
        Format::Bin => read_bin(input),
        _ => {
            let (text, cut) = readable_text(&input);
            if fmt == Format::Txt {
                read_txt(text.as_str(), cut)
            } else {
                read_csv(text.as_str(), cut)
            }
        },
    }
}

/// Reads the operations of a YPBankText statement.
fn read_txt(text: &str, cut: bool) -> (r: Result<Statement>)
    ensures
        match txt_all(text@, 0, 0, cut) {
            Some(ops) => r matches Ok(st) && st@ == sorted_build(ops) && sorted_from(st@, ops) && st.meta_value().source is None
                && st.meta_value().account_id is None && st.meta_value().generated_at_ms is None,
            None => r matches Err(e) && txt_step_failure(txt_last_step(text@, 0, 0, cut), e),
        },
{
    let mut reader = YPBankText::with_end(text, cut);
    let mut st = Statement::empty();
    let ghost mut got: Seq<OperationModel> = Seq::empty();
    proof {
        assert(got + Seq::<OperationModel>::empty() =~= got);
    }
    loop
        invariant
            reader.text() == text@,
            0 <= reader.position() <= text@.len(),
            reader.stops_short() == cut,
            txt_all(text@, 0, 0, cut) == after(got, txt_all(text@, reader.position(), reader.lines_read(), cut)),
            txt_last_step(text@, 0, 0, cut) == txt_last_step(text@, reader.position(), reader.lines_read(), cut),
            sorted_from(st@, got),
            st@ == sorted_build(got),
            st.meta_value().source is None,
            st.meta_value().account_id is None,
            st.meta_value().generated_at_ms is None,
        decreases text@.len() - reader.position(),
    {
        match reader.next_op() {
            Ok(Some(op)) => {
                proof {
                    let rest = txt_all(text@, reader.position(), reader.lines_read(), cut);
                    if let Some(r) = rest {
                        assert(got + (seq![op@] + r) =~= got.push(op@) + r);
                    }
                }
                let ghost before = st@;
                st.append(op);
                proof {
                    lemma_sorted_from_push(before, got, st@, op@);
                    assert(got.push(op@).drop_last() =~= got);
                    got = got.push(op@);
                }
            },
            Ok(None) => {
                proof {
                    assert(got + Seq::<OperationModel>::empty() =~= got);
                }
                return Ok(st);
            },
            Err(e) => {
                return Err(e);
            },
        }
    }
}

/// Reads the operations of a CSV statement.
fn read_csv(text: &str, cut: bool) -> (r: Result<Statement>)
    ensures
        match csv_all(text@, 0, 0, false, cut) {
            Some(ops) => r matches Ok(st) && st@ == sorted_build(ops) && sorted_from(st@, ops) && st.meta_value().source is None
                && st.meta_value().account_id is None && st.meta_value().generated_at_ms is None,
            None => r matches Err(e) && csv_step_failure(csv_last_step(text@, 0, 0, false, cut), e),
        },
{
    let mut reader = YPBankCsv::with_end(text, cut);
    let mut st = Statement::empty();
    let ghost mut got: Seq<OperationModel> = Seq::empty();
    proof {
        assert(got + Seq::<OperationModel>::empty() =~= got);
    }
    loop
        invariant
            reader.text() == text@,
            0 <= reader.position() <= text@.len(),
            reader.stops_short() == cut,
            csv_all(text@, 0, 0, false, cut) == after(
                got,
                csv_all(text@, reader.position(), reader.lines_read(), reader.header_read(), cut),
            ),
            csv_last_step(text@, 0, 0, false, cut) == csv_last_step(
                text@,
                reader.position(),
                reader.lines_read(),
                reader.header_read(),
                cut,
            ),
            sorted_from(st@, got),
            st@ == sorted_build(got),
            st.meta_value().source is None,
            st.meta_value().account_id is None,
            st.meta_value().generated_at_ms is None,
        decreases text@.len() - reader.position(),
    {
        match reader.next_op() {
            Ok(Some(op)) => {
                proof {
                    let rest = csv_all(text@, reader.position(), reader.lines_read(), true, cut);
                    if let Some(r) = rest {
                        assert(got + (seq![op@] + r) =~= got.push(op@) + r);
                    }
                }
                let ghost before = st@;
                st.append(op);
                proof {
                    lemma_sorted_from_push(before, got, st@, op@);
                    assert(got.push(op@).drop_last() =~= got);
                    got = got.push(op@);
                }
            },
            Ok(None) => {
                proof {
                    assert(got + Seq::<OperationModel>::empty() =~= got);
                }
                return Ok(st);
            },
            Err(e) => {
                return Err(e);
            },
        }
    }
}

/// Reads the operations of a binary statement.
fn read_bin(data: Vec<u8>) -> (r: Result<Statement>)
    ensures
        match bin_all(data@, 0) {
            Some(ops) => r matches Ok(st) && st@ == sorted_build(ops) && sorted_from(st@, ops) && st.meta_value().source is None
                && st.meta_value().account_id is None && st.meta_value().generated_at_ms is None,
            None => r matches Err(e) && bin_step_failure(bin_last_step(data@, 0, 0).0, bin_last_step(data@, 0, 0).1, e),
        },
{
    let ghost d = data@;
    let mut reader = YPBankBin::new(data);
    let mut st = Statement::empty();
    let ghost mut got: Seq<OperationModel> = Seq::empty();
    proof {
        assert(got + Seq::<OperationModel>::empty() =~= got);
    }
    loop
        invariant
            reader.bytes() == d,
            d == data@,
            0 <= reader.position() <= d.len(),
            bin_all(d, 0) == after(got, bin_all(d, reader.position())),
            bin_last_step(d, 0, 0) == bin_last_step(d, reader.position(), reader.records_begun()),
            sorted_from(st@, got),
            st@ == sorted_build(got),
            st.meta_value().source is None,
            st.meta_value().account_id is None,
            st.meta_value().generated_at_ms is None,
        decreases d.len() - reader.position(),
    {
        match reader.next_op() {
            Ok(Some(op)) => {
                proof {
                    let rest = bin_all(d, reader.position());
                    if let Some(r) = rest {
                        assert(got + (seq![op@] + r) =~= got.push(op@) + r);
                    }
                }
                let ghost before = st@;
                st.append(op);
                proof {
                    lemma_sorted_from_push(before, got, st@, op@);
                    assert(got.push(op@).drop_last() =~= got);
                    got = got.push(op@);
                }
            },
            Ok(None) => {
                proof {
                    assert(got + Seq::<OperationModel>::empty() =~= got);
                }
                return Ok(st);
            },
            Err(e) => {
                return Err(e);
            },
        }
    }
}

/// Writes the statement `st` in format `fmt` after the bytes that `out` holds.
/// The binary format fails on the first operation whose record does not fit,
/// after the records before it.
pub fn write_statement(fmt: Format, st: &Statement, out: &mut Vec<u8>) -> (r: Result<()>)
    ensures
        fmt != Format::Bin || all_fit(st@) ==> r is Ok && final(out)@ == old(out)@ + statement_bytes(fmt, st@),
        fmt == Format::Bin && !all_fit(st@) ==> r is Err && exists|k: int|
            0 <= k < st@.len() && !fits_record(#[trigger] st@[k]) && all_fit(st@.take(k)) && final(out)@
                == old(out)@ + bin_records(st@.take(k)),
{
    let n = st.len();
    match fmt {
        Format::Bin => {
            let ghost start = out@;
            proof {
                assert(st@.take(0) =~= Seq::<OperationModel>::empty());
            }
            for i in 0..n
                invariant
                    n == st@.len(),
                    fmt == Format::Bin,
                    start == old(out)@,
                    out@ == start + bin_records(st@.take(i as int)),
                    all_fit(st@.take(i as int)),
            {
                let op = st.operation(i);
                proof {
                    assert(st@.take(i + 1).drop_last() =~= st@.take(i as int));
                }
                match YPBankBin::write_op(out, op) {
                    Ok(()) => {
                        proof {
                            assert(out@ =~= start + bin_records(st@.take(i + 1)));
                            assert forall|k: int| 0 <= k < i + 1 implies fits_record(#[trigger] st@.take(i + 1)[k]) by {
                                if k < i {
                                    assert(st@.take(i + 1)[k] == st@.take(i as int)[k]);
                                }
                            }
                        }
                    },
                    Err(e) => {
                        proof {
                            assert(out@ =~= start + bin_records(st@.take(i as int)));
                            assert(!fits_record(st@[i as int]));
                        }
                        return Err(e);
                    },
                }
            }
            proof {
                assert(st@.take(n as int) =~= st@);
            }
            Ok(())
        },
        Format::Txt => {
            let mut text = String::new();
            proof {
                assert(st@.take(0) =~= Seq::<OperationModel>::empty());
                assert(text@ =~= txt_records(st@.take(0)));
            }
            for i in 0..n
                invariant
                    n == st@.len(),
                    text@ == txt_records(st@.take(i as int)),
            {
                let op = st.operation(i);
                let _ = YPBankText::write_op(&mut text, op);
                proof {
                    assert(st@.take(i + 1).drop_last() =~= st@.take(i as int));
                }
            }
            proof {
                assert(st@.take(n as int) =~= st@);
            }
            push_bytes(out, text.as_str().as_bytes());
            Ok(())
        },
        Format::Csv => {
            let mut text = String::new();
            let _ = YPBankCsv::write_header(&mut text);
            let ghost head = text@;
            proof {
                assert(st@.take(0) =~= Seq::<OperationModel>::empty());
                assert(text@ =~= head + csv_lines(st@.take(0)));
            }
            for i in 0..n
                invariant
                    n == st@.len(),
                    head == HEADER@ + seq!['\n'],
                    text@ == head + csv_lines(st@.take(i as int)),
            {
                let op = st.operation(i);
                let _ = YPBankCsv::write_op(&mut text, op);
                proof {
                    assert(st@.take(i + 1).drop_last() =~= st@.take(i as int));
                    assert(text@ =~= head + csv_lines(st@.take(i + 1)));
                }
            }
            proof {
                assert(st@.take(n as int) =~= st@);
            }
            push_bytes(out, text.as_str().as_bytes());
            Ok(())
        },
    }
}

/// The operation as it reads back from its record in format `fmt`: the text
/// formats keep the description as written, the binary one drops an empty one.
pub open spec fn read_back_in(fmt: Format, m: OperationModel) -> OperationModel {
    match fmt {
        Format::Bin => read_back(m),
        _ => text_read_back(m),
    }
}

/// An operation whose record in format `fmt` reads back: see `text_writable`
/// and `bin_writable`.
pub open spec fn writable_in(fmt: Format, m: OperationModel) -> bool {
    match fmt {
        Format::Bin => bin_writable(m),
        _ => text_writable(m),
    }
}

/// Writing, then reading: a statement written in any format reads back as the
/// same operations, in the same order, each with the description the format
/// keeps, so that the comparer finds the two identical; a sorted statement
/// reads back sorted.
pub proof fn lemma_read_written(fmt: Format, ops: Seq<OperationModel>)
    requires
        forall|k: int| 0 <= k < ops.len() ==> writable_in(fmt, #[trigger] ops[k]),
        statement_bytes(fmt, ops).len() <= usize::MAX,
    ensures
        records_of(fmt, statement_bytes(fmt, ops)) == Some(
            ops.map_values(|m: OperationModel| read_back_in(fmt, m)),
        ),
        same_keys(ops.map_values(|m: OperationModel| read_back_in(fmt, m)), ops),
        sorted_by_key(ops) ==> sorted_by_key(ops.map_values(|m: OperationModel| read_back_in(fmt, m))),
{
    let back = ops.map_values(|m: OperationModel| read_back_in(fmt, m));
    match fmt {
        Format::Txt => {
            let t = txt_records(ops);
            lemma_readable_encoded(t);
            lemma_encode_utf8_len(t);
            assert forall|k: int| 0 <= k < ops.len() implies text_writable(#[trigger] ops[k]) by {
                assert(writable_in(fmt, ops[k]));
            }
            lemma_txt_read_written(ops);
            assert(back =~= ops.map_values(|m: OperationModel| text_read_back(m)));
        },
        Format::Csv => {
            let t = csv_text(ops);
            lemma_readable_encoded(t);
            lemma_encode_utf8_len(t);
            assert forall|k: int| 0 <= k < ops.len() implies text_writable(#[trigger] ops[k]) by {
                assert(writable_in(fmt, ops[k]));
            }
            lemma_csv_read_written(ops);
            assert(back =~= ops.map_values(|m: OperationModel| text_read_back(m)));
        },
        Format::Bin => {
            assert forall|k: int| 0 <= k < ops.len() implies bin_writable(#[trigger] ops[k]) by {
                assert(writable_in(fmt, ops[k]));
            }
            lemma_bin_read_written(ops);
            assert(back =~= ops.map_values(|m: OperationModel| read_back(m)));
        },
    }
    assert forall|i: int, j: int| 0 <= i < j < back.len() implies crate::data::key_order(#[trigger] back[i], #[trigger] back[j])
        == crate::data::key_order(ops[i], ops[j]) by {
    }
}

/// A statement written in a format and read back is identical to it: for a
/// sorted sequence of writable operations, a statement that holds the sorted
/// form of what their bytes read as (as `read_statement` builds it) agrees
/// with them one by one.
pub proof fn lemma_written_reads_identical(fmt: Format, ops: Seq<OperationModel>, back: Seq<OperationModel>)
    requires
        sorted_by_key(ops),
        forall|k: int| 0 <= k < ops.len() ==> writable_in(fmt, #[trigger] ops[k]),
        statement_bytes(fmt, ops).len() <= usize::MAX,
        records_of(fmt, statement_bytes(fmt, ops)) matches Some(r) && sorted_from(back, r),
    ensures
        same_keys(back, ops),
{
    lemma_read_written(fmt, ops);
}

} // verus!
