//! Tests of whole statements: reading and writing them in each format,
//! converting between formats, comparing them, and the error messages.

use utils::cli::comparer::{compare_statements, DIFFERENT, IDENTICAL};
use utils::cli::{read_statement, write_statement, Format};
use utils::data::{Operation, Statement, Status, TransactionType};
use utils::errors::{DataError, ParseError, ParseErrorKind};

fn op(
    tx_id: u64,
    tx_type: TransactionType,
    from_user_id: u64,
    to_user_id: u64,
    amount: i64,
    timestamp_ms: u64,
    status: Status,
    description: Option<&str>,
) -> Operation {
    Operation::new(
        tx_id,
        tx_type,
        from_user_id,
        to_user_id,
        amount,
        timestamp_ms,
        status,
        description.map(|s| s.to_string()),
    )
}

fn sample() -> Statement {
    let mut ops = vec![
        op(1003, TransactionType::Withdrawal, 502, 0, 1000, 1672538400000, Status::Pending, Some("ATM, \"withdrawal\"")),
        op(1001, TransactionType::Deposit, 0, 501, 50000, 1672531200000, Status::Success, Some("Initial account funding")),
        op(1002, TransactionType::Transfer, 501, 502, 15000, 1672534800000, Status::Failure, None),
    ];
    let mut r: &[u8] = &[];
    Statement::from_read(&mut r, move |_| Ok(ops.pop())).unwrap()
}

fn written(fmt: Format, st: &Statement) -> Vec<u8> {
    let mut out = Vec::new();
    write_statement(fmt, st, &mut out).unwrap();
    out
}

#[test]
fn each_format_reads_back_what_it_writes() {
    let st = sample();
    for fmt in [Format::Txt, Format::Csv, Format::Bin] {
        let bytes = written(fmt, &st);
        let back = read_statement(fmt, bytes).unwrap();
        assert_eq!(back, st);
        assert_eq!(compare_statements(&back, &st), IDENTICAL);
    }
}

#[test]
fn converting_across_formats_keeps_the_records() {
    let st = sample();
    let csv = written(Format::Csv, &st);
    let from_csv = read_statement(Format::Csv, csv).unwrap();
    let bin = written(Format::Bin, &from_csv);
    let from_bin = read_statement(Format::Bin, bin).unwrap();
    let txt = written(Format::Txt, &from_bin);
    let from_txt = read_statement(Format::Txt, txt).unwrap();
    assert_eq!(compare_statements(&from_txt, &st), IDENTICAL);
}

#[test]
fn csv_statement_is_written_exactly() {
    let st = sample();
    let text = String::from_utf8(written(Format::Csv, &st)).unwrap();
    assert_eq!(
        text,
        "TX_ID,TX_TYPE,FROM_USER_ID,TO_USER_ID,AMOUNT,TIMESTAMP,STATUS,DESCRIPTION\n\
         1001,DEPOSIT,0,501,50000,1672531200000,SUCCESS,\"Initial account funding\"\n\
         1002,TRANSFER,501,502,15000,1672534800000,FAILURE,\"\"\n\
         1003,WITHDRAWAL,502,0,1000,1672538400000,PENDING,\"ATM, 'withdrawal'\"\n"
    );
}

#[test]
fn empty_statement_in_each_format() {
    let mut r: &[u8] = &[];
    let st = Statement::from_read(&mut r, |_| Ok(None)).unwrap();
    assert_eq!(written(Format::Txt, &st), Vec::<u8>::new());
    assert_eq!(written(Format::Bin, &st), Vec::<u8>::new());
    assert_eq!(
        String::from_utf8(written(Format::Csv, &st)).unwrap(),
        "TX_ID,TX_TYPE,FROM_USER_ID,TO_USER_ID,AMOUNT,TIMESTAMP,STATUS,DESCRIPTION\n"
    );
    for fmt in [Format::Txt, Format::Csv, Format::Bin] {
        let back = read_statement(fmt, written(fmt, &st)).unwrap();
        assert_eq!(back, st);
    }
}

#[test]
fn records_in_another_order_compare_identical() {
    let a = "TX_ID,TX_TYPE,FROM_USER_ID,TO_USER_ID,AMOUNT,TIMESTAMP,STATUS,DESCRIPTION\n\
             2,TRANSFER,1,2,5,9,SUCCESS,\"x\"\n\
             1,DEPOSIT,0,1,5,9,SUCCESS,\"y\"\n";
    let b = "TX_ID,TX_TYPE,FROM_USER_ID,TO_USER_ID,AMOUNT,TIMESTAMP,STATUS,DESCRIPTION\n\
             1,DEPOSIT,0,1,5,9,SUCCESS,\"other\"\n\
             2,TRANSFER,1,2,5,9,SUCCESS,\"text\"\n";
    let sa = read_statement(Format::Csv, a.as_bytes().to_vec()).unwrap();
    let sb = read_statement(Format::Csv, b.as_bytes().to_vec()).unwrap();
    assert_eq!(compare_statements(&sa, &sb), IDENTICAL);
}

#[test]
fn a_different_record_compares_different() {
    let a = format!("{}\n{}", txt_block(1, 5), txt_block(2, 6));
    let b = format!("{}\n{}", txt_block(1, 5), txt_block(2, 7));
    let sa = read_statement(Format::Txt, a.as_bytes().to_vec()).unwrap();
    let sb = read_statement(Format::Txt, b.as_bytes().to_vec()).unwrap();
    assert_eq!(compare_statements(&sa, &sb), DIFFERENT);
    let c = txt_block(1, 5);
    let sc = read_statement(Format::Txt, c.as_bytes().to_vec()).unwrap();
    assert_eq!(compare_statements(&sa, &sc), DIFFERENT);
}

#[test]
fn text_formats_reject_invalid_utf8() {
    let bytes = vec![b'T', b'X', 0xff, b'\n'];
    assert!(matches!(read_statement(Format::Txt, bytes.clone()), Err(DataError::Io(_))));
    assert!(matches!(read_statement(Format::Csv, bytes.clone()), Err(DataError::Io(_))));
    let mut r: &[u8] = &[];
    let empty = Statement::from_read(&mut r, |_| Ok(None)).unwrap();
    assert_eq!(read_statement(Format::Bin, bytes).unwrap(), empty);
}

#[test]
fn reading_stops_at_the_first_wrong_record() {
    let text = "TX_ID,TX_TYPE,FROM_USER_ID,TO_USER_ID,AMOUNT,TIMESTAMP,STATUS,DESCRIPTION\n\
                1,DEPOSIT,0,1,5,9,SUCCESS,\"x\"\n\
                2,DEPOSIT,0,1,-5,9,SUCCESS,\"x\"\n\
                3,DEPOSIT,0,1,x,9,SUCCESS,\"x\"\n";
    match read_statement(Format::Csv, text.as_bytes().to_vec()) {
        Err(DataError::Parse(e)) => {
            assert_eq!(e.line_no, 3);
            assert!(matches!(e.kind, ParseErrorKind::NegativeNotAllowed { .. }));
        }
        _ => panic!("expected a parse error"),
    }
}

#[test]
fn binary_statement_starts_with_a_record_header() {
    let st = sample();
    let bytes = written(Format::Bin, &st);
    assert_eq!(&bytes[0..4], b"YPBN");
    assert_eq!(u32::from_be_bytes([bytes[4], bytes[5], bytes[6], bytes[7]]), 46 + 23);
}

// --- messages -------------------------------------------------------------

#[test]
fn parse_error_messages() {
    let e = ParseError::full(
        3,
        Some("TX_ID"),
        ParseErrorKind::BadNumber { value: "abc".to_string(), ty: "u64" },
        "TX_ID: abc",
    );
    assert_eq!(e.to_string(), "Line 3, field TX_ID: bad u64 number `abc` (input: TX_ID: abc)");
    let e = ParseError::new(4, ParseErrorKind::ExpectedKeyValue);
    assert_eq!(e.to_string(), "Line 4: expected `KEY: VALUE`");
    let e = ParseError::new(1, ParseErrorKind::MissingFields { names: vec!["TX_ID", "AMOUNT"] });
    assert_eq!(e.to_string(), "Line 1: missing fields: TX_ID, AMOUNT");
    let e = ParseError::new(2, ParseErrorKind::UnknownField { name: "X".to_string() });
    assert_eq!(e.to_string(), "Line 2: unknown field `X`");
    let e = ParseError::new(2, ParseErrorKind::DuplicateField { name: "STATUS" });
    assert_eq!(e.to_string(), "Line 2: duplicate field `STATUS`");
    let e = ParseError::new(5, ParseErrorKind::NegativeNotAllowed { value: "-1".to_string() });
    assert_eq!(e.to_string(), "Line 5: negative value not allowed `-1`");
    let e = ParseError::new(5, ParseErrorKind::BadEnum { value: "Q".to_string(), expected: "A | B" });
    assert_eq!(e.to_string(), "Line 5: bad value `Q`, expected A | B");
    let e = ParseError::new(6, ParseErrorKind::BadQuotedString { value: "q".to_string() });
    assert_eq!(e.to_string(), "Line 6: expected quoted string, got `q`");
    let e = ParseError::new(7, ParseErrorKind::SemanticRule { msg: "rule" }).with_field("AMOUNT").with_line("l");
    assert_eq!(e.to_string(), "Line 7, field AMOUNT: rule (input: l)");
}

#[test]
fn data_error_messages() {
    assert_eq!(DataError::Format("bad".to_string()).to_string(), "Format error: bad");
    let e = DataError::BadLine { line_no: 2, line: String::new(), msg: "oops".to_string() };
    assert_eq!(e.to_string(), "Line 2: oops");
    let e = DataError::BadLine { line_no: 2, line: "x".to_string(), msg: "oops".to_string() };
    assert_eq!(e.to_string(), "Line 2: oops (input: x)");
    let e = DataError::from(ParseError::new(1, ParseErrorKind::ExpectedKeyValue));
    assert_eq!(e.to_string(), "Line 1: expected `KEY: VALUE`");
    let e = DataError::from(std::io::Error::new(std::io::ErrorKind::Other, "disk"));
    assert_eq!(e.to_string(), "I/O error: disk");
}

#[test]
fn converts_txt_to_csv_in_memory() {
    let txt = [
        "TX_ID: 1",
        "TX_TYPE: DEPOSIT",
        "FROM_USER_ID: 0",
        "TO_USER_ID: 42",
        "AMOUNT: 100",
        "TIMESTAMP: 1700000000000",
        "STATUS: SUCCESS",
        "DESCRIPTION: \"hello\"",
        "",
    ]
    .join("\n");
    let expected = [
        "TX_ID,TX_TYPE,FROM_USER_ID,TO_USER_ID,AMOUNT,TIMESTAMP,STATUS,DESCRIPTION",
        "1,DEPOSIT,0,42,100,1700000000000,SUCCESS,\"hello\"",
        "",
    ]
    .join("\n");
    let st = read_statement(Format::Txt, txt.into_bytes()).unwrap();
    let out = written(Format::Csv, &st);
    assert_eq!(String::from_utf8(out).unwrap(), expected);
}

#[test]
fn equality_of_statements_is_an_equivalence() {
    let a = sample();
    let b = read_statement(Format::Csv, written(Format::Csv, &a)).unwrap();
    let c = read_statement(Format::Bin, written(Format::Bin, &b)).unwrap();
    assert_eq!(a, a);
    assert_eq!(a, b);
    assert_eq!(b, a);
    assert_eq!(b, c);
    assert_eq!(a, c);
}

#[test]
fn extreme_numbers_read_back_in_each_format() {
    let mut ops = vec![
        op(u64::MAX, TransactionType::Transfer, u64::MAX, u64::MAX, i64::MAX, u64::MAX, Status::Pending, Some("")),
        op(0, TransactionType::Deposit, 0, 0, 0, 0, Status::Success, None),
    ];
    let mut r: &[u8] = &[];
    let st = Statement::from_read(&mut r, move |_| Ok(ops.pop())).unwrap();
    for fmt in [Format::Txt, Format::Csv, Format::Bin] {
        let back = read_statement(fmt, written(fmt, &st)).unwrap();
        assert_eq!(back, st);
    }
    let text = String::from_utf8(written(Format::Csv, &st)).unwrap();
    assert!(text.contains("18446744073709551615,TRANSFER,18446744073709551615,18446744073709551615,9223372036854775807,"));
}

#[test]
fn what_the_formats_cannot_carry_back() {
    let neg = vec![op(1, TransactionType::Transfer, 1, 2, -5, 9, Status::Success, None)];
    let mut r: &[u8] = &[];
    let mut ops = neg;
    let st = Statement::from_read(&mut r, move |_| Ok(ops.pop())).unwrap();
    let back = read_statement(Format::Bin, written(Format::Bin, &st)).unwrap();
    assert_eq!(back, st);
    match read_statement(Format::Csv, written(Format::Csv, &st)) {
        Err(DataError::Parse(e)) => assert!(matches!(e.kind, ParseErrorKind::NegativeNotAllowed { .. })),
        _ => panic!("a negative amount does not read back from CSV"),
    }
    let mut ops = vec![op(1, TransactionType::Transfer, 1, 2, 5, 9, Status::Success, Some("two\nlines"))];
    let st = Statement::from_read(&mut r, move |_| Ok(ops.pop())).unwrap();
    assert!(read_statement(Format::Txt, written(Format::Txt, &st)).is_err());
    let back = read_statement(Format::Bin, written(Format::Bin, &st)).unwrap();
    assert_eq!(back, st);
}

#[test]
fn lines_before_an_unreadable_line_are_read_first() {
    let mut bytes = format!("{}\nno colon\n", txt_block(1, 5)).into_bytes();
    bytes.extend_from_slice(&[0xff, b'\n']);
    match read_statement(Format::Txt, bytes) {
        Err(DataError::Parse(e)) => {
            assert_eq!(e.line_no, 10);
            assert!(matches!(e.kind, ParseErrorKind::ExpectedKeyValue));
        }
        _ => panic!("the wrong line comes before the unreadable one"),
    }
    let mut bytes = format!("{}\n", txt_block(1, 5)).into_bytes();
    bytes.extend_from_slice(&[b'X', 0xc3, b'\n', b'Y']);
    assert!(matches!(read_statement(Format::Txt, bytes), Err(DataError::Io(_))));

    let mut bytes = b"TX_ID,TX_TYPE,FROM_USER_ID,TO_USER_ID,AMOUNT,TIMESTAMP,STATUS,DESCRIPTION\nbad\n".to_vec();
    bytes.extend_from_slice(&[0xff]);
    match read_statement(Format::Csv, bytes) {
        Err(DataError::Parse(e)) => assert_eq!(e.line_no, 2),
        _ => panic!("the wrong line comes before the unreadable one"),
    }
    let mut bytes = b"TX_ID,TX_TYPE,FROM_USER_ID,TO_USER_ID,AMOUNT,TIMESTAMP,STATUS,DESCRIPTION\n".to_vec();
    bytes.extend_from_slice(&[0xe2, 0x82]);
    assert!(matches!(read_statement(Format::Csv, bytes), Err(DataError::Io(_))));
}

#[test]
fn readers_stop_at_an_unreadable_line() {
    let mut r = utils::ypbank::txt::YPBankText::with_end("TX_ID: 1\n", true);
    assert!(matches!(r.next_op(), Err(DataError::Io(_))));
    let mut r = utils::ypbank::txt::YPBankText::with_end(&format!("{}\n", txt_block(1, 5)), true);
    assert_eq!(r.next_op().unwrap().unwrap().tx_id(), 1);
    assert!(matches!(r.next_op(), Err(DataError::Io(_))));
    let mut r = utils::ypbank::csv::YPBankCsv::with_end("", true);
    assert!(matches!(r.next_op(), Err(DataError::Io(_))));
}

/// A complete text block (without its closing blank line) of a deposit to user 1.
fn txt_block(tx_id: u64, amount: i64) -> String {
    format!(
        "TX_ID: {}\nTX_TYPE: DEPOSIT\nFROM_USER_ID: 0\nTO_USER_ID: 1\nAMOUNT: {}\nTIMESTAMP: 9\nSTATUS: SUCCESS\nDESCRIPTION: \"\"\n",
        tx_id, amount
    )
}
