//! Tests of the three YPBank formats: reading, writing, and their errors.

use utils::data::{Operation, Statement, Status, TransactionType};
use utils::errors::{DataError, ParseError, ParseErrorKind};
use utils::ypbank::bin::YPBankBin;
use utils::ypbank::csv::YPBankCsv;
use utils::ypbank::txt::YPBankText;

const HEADER: &str = "TX_ID,TX_TYPE,FROM_USER_ID,TO_USER_ID,AMOUNT,TIMESTAMP,STATUS,DESCRIPTION";

fn op(
    tx_id: u64,
    tx_type: TransactionType,
    from_user_id: u64,
    to_user_id: u64,
    amount: i64,
    timestamp_ms: u64,
    status: Status,
    description: Option<&str>,
) -> Operation {
    Operation::new(
        tx_id,
        tx_type,
        from_user_id,
        to_user_id,
        amount,
        timestamp_ms,
        status,
        description.map(|s| s.to_string()),
    )
}

fn parse_error(r: Result<Option<Operation>, DataError>) -> ParseError {
    match r {
        Err(DataError::Parse(e)) => e,
        Err(e) => panic!("expected a parse error, got {}", e.to_string()),
        Ok(_) => panic!("expected a parse error, got a value"),
    }
}

fn csv_one(line: &str) -> Result<Option<Operation>, DataError> {
    let text = format!("{HEADER}\n{line}\n");
    let mut r = YPBankCsv::new(&text);
    r.next_op()
}

// --- CSV ------------------------------------------------------------------

#[test]
fn csv_reads_records_and_skips_blank_lines() {
    let text = format!(
        "{HEADER}\n1001,DEPOSIT,0,501,50000,1672531200000,SUCCESS,\"Initial, account funding\"\n\n   \n1002,TRANSFER,501,502,15000,1672534800000,FAILURE,\"Payment\"\n"
    );
    let mut r = YPBankCsv::new(&text);
    let a = r.next_op().unwrap().unwrap();
    assert_eq!(a.tx_id(), 1001);
    assert_eq!(*a.tx_type(), TransactionType::Deposit);
    assert_eq!(a.from_user_id(), 0);
    assert_eq!(a.to_user_id(), 501);
    assert_eq!(a.amount(), 50000);
    assert_eq!(a.timestamp_ms(), 1672531200000);
    assert_eq!(*a.status(), Status::Success);
    assert_eq!(a.description(), Some("Initial, account funding"));
    let b = r.next_op().unwrap().unwrap();
    assert_eq!(b.tx_id(), 1002);
    assert_eq!(*b.tx_type(), TransactionType::Transfer);
    assert_eq!(*b.status(), Status::Failure);
    assert_eq!(b.description(), Some("Payment"));
    assert!(r.next_op().unwrap().is_none());
    assert!(r.next_op().unwrap().is_none());
}

#[test]
fn csv_empty_fields_take_defaults() {
    let a = csv_one(",,,,,,,").unwrap().unwrap();
    assert_eq!(a.tx_id(), 0);
    assert_eq!(*a.tx_type(), TransactionType::Deposit);
    assert_eq!(a.amount(), 0);
    assert_eq!(*a.status(), Status::Success);
    assert_eq!(a.description(), Some(""));
}

#[test]
fn csv_fields_are_trimmed_and_plus_sign_accepted() {
    let a = csv_one(" 7 , WITHDRAWAL , 3 , 0 , +10 , 5 , PENDING , \"x\" ").unwrap().unwrap();
    assert_eq!(a.tx_id(), 7);
    assert_eq!(*a.tx_type(), TransactionType::Withdrawal);
    assert_eq!(a.from_user_id(), 3);
    assert_eq!(a.amount(), 10);
    assert_eq!(*a.status(), Status::Pending);
    assert_eq!(a.description(), Some("x"));
}

#[test]
fn csv_without_header_fails() {
    let mut r = YPBankCsv::new("\n  \n");
    let e = parse_error(r.next_op());
    assert_eq!(e.line_no, 0);
    assert!(e.field.is_none());
    assert!(matches!(e.kind, ParseErrorKind::SemanticRule { msg: "Пустой CSV: отсутствует заголовок" }));
    assert_eq!(e.line, "");
}

#[test]
fn csv_wrong_header_fails_with_its_line() {
    let mut r = YPBankCsv::new("\nTX_ID,TX_TYPE\n1,DEPOSIT\n");
    let e = parse_error(r.next_op());
    assert_eq!(e.line_no, 2);
    assert!(matches!(
        e.kind,
        ParseErrorKind::SemanticRule { msg: "Неверный заголовок CSV (ожидался строго заданный HEADER)" }
    ));
    assert_eq!(e.line, "TX_ID,TX_TYPE");
}

#[test]
fn csv_too_few_fields_fails() {
    let e = parse_error(csv_one("1,DEPOSIT,0,1"));
    assert_eq!(e.line_no, 2);
    assert!(e.field.is_none());
    assert!(matches!(
        e.kind,
        ParseErrorKind::SemanticRule { msg: "Неверное число полей: ожидалось минимум 7 запятых (8 полей)" }
    ));
    assert_eq!(e.line, "1,DEPOSIT,0,1");
}

#[test]
fn csv_bad_number_fails() {
    let e = parse_error(csv_one("x1,DEPOSIT,0,1,1,1,SUCCESS,\"\""));
    assert_eq!(e.field, Some("TX_ID"));
    match e.kind {
        ParseErrorKind::BadNumber { value, ty } => {
            assert_eq!(value, "x1");
            assert_eq!(ty, "u64");
        }
        _ => panic!("wrong kind"),
    }
}

#[test]
fn csv_number_too_large_fails() {
    let e = parse_error(csv_one("18446744073709551616,DEPOSIT,0,1,1,1,SUCCESS,\"\""));
    assert!(matches!(e.kind, ParseErrorKind::BadNumber { .. }));
}

#[test]
fn csv_negative_amount_fails() {
    let e = parse_error(csv_one("1,DEPOSIT,0,1,-5,1,SUCCESS,\"\""));
    assert_eq!(e.field, Some("AMOUNT"));
    match e.kind {
        ParseErrorKind::NegativeNotAllowed { value } => assert_eq!(value, "-5"),
        _ => panic!("wrong kind"),
    }
}

#[test]
fn csv_bad_type_and_status_fail() {
    let e = parse_error(csv_one("1,GIFT,0,1,5,1,SUCCESS,\"\""));
    assert_eq!(e.field, Some("TX_TYPE"));
    match e.kind {
        ParseErrorKind::BadEnum { value, expected } => {
            assert_eq!(value, "GIFT");
            assert_eq!(expected, "DEPOSIT | TRANSFER | WITHDRAWAL");
        }
        _ => panic!("wrong kind"),
    }
    let e = parse_error(csv_one("1,DEPOSIT,0,1,5,1,DONE,\"\""));
    assert_eq!(e.field, Some("STATUS"));
    match e.kind {
        ParseErrorKind::BadEnum { value, expected } => {
            assert_eq!(value, "DONE");
            assert_eq!(expected, "SUCCESS | FAILURE | PENDING");
        }
        _ => panic!("wrong kind"),
    }
}

#[test]
fn csv_unquoted_description_fails() {
    let e = parse_error(csv_one("1,DEPOSIT,0,1,5,1,SUCCESS,plain"));
    assert_eq!(e.field, Some("DESCRIPTION"));
    match e.kind {
        ParseErrorKind::BadQuotedString { value } => assert_eq!(value, "plain"),
        _ => panic!("wrong kind"),
    }
}

#[test]
fn csv_semantic_rules_are_checked() {
    let e = parse_error(csv_one("1,DEPOSIT,7,1,5,1,SUCCESS,\"\""));
    assert_eq!(e.field, Some("FROM_USER_ID"));
    match e.kind {
        ParseErrorKind::SemanticRule { msg } => assert_eq!(msg, "Для DEPOSIT ожидается FROM_USER_ID = 0"),
        _ => panic!("wrong kind"),
    }
    let e = parse_error(csv_one("1,WITHDRAWAL,7,1,5,1,SUCCESS,\"\""));
    assert_eq!(e.field, Some("TO_USER_ID"));
    match e.kind {
        ParseErrorKind::SemanticRule { msg } => assert_eq!(msg, "Для WITHDRAWAL ожидается TO_USER_ID = 0"),
        _ => panic!("wrong kind"),
    }
}

#[test]
fn csv_writes_header_and_lines() {
    let mut out = String::new();
    YPBankCsv::write_header(&mut out).unwrap();
    let a = op(1, TransactionType::Deposit, 0, 5, 100, 1000, Status::Success, Some("hi \"x\", ok"));
    YPBankCsv::write_op(&mut out, &a).unwrap();
    let b = op(2, TransactionType::Transfer, 5, 6, 7, 8, Status::Pending, None);
    YPBankCsv::write_op(&mut out, &b).unwrap();
    assert_eq!(
        out,
        format!("{HEADER}\n1,DEPOSIT,0,5,100,1000,SUCCESS,\"hi 'x', ok\"\n2,TRANSFER,5,6,7,8,PENDING,\"\"\n")
    );
}

#[test]
fn csv_written_line_reads_back() {
    let a = op(9, TransactionType::Withdrawal, 4, 0, 12345, 99, Status::Failure, Some("a, \"b\""));
    let mut out = String::new();
    YPBankCsv::write_header(&mut out).unwrap();
    YPBankCsv::write_op(&mut out, &a).unwrap();
    let mut r = YPBankCsv::new(&out);
    let b = r.next_op().unwrap().unwrap();
    assert_eq!(a, b);
    assert_eq!(b.description(), Some("a, 'b'"));
    assert!(r.next_op().unwrap().is_none());
}

// --- TXT ------------------------------------------------------------------

#[test]
fn txt_reads_blocks_and_comments_and_refuses_missing_fields() {
    let text = "# a comment\nTX_ID: 7\nTX_TYPE: WITHDRAWAL\nFROM_USER_ID: 3\nTO_USER_ID: 0\nAMOUNT: 10\nTIMESTAMP: 5\nSTATUS: PENDING\nDESCRIPTION: \"a: b\"\n\n\nSTATUS: FAILURE\nTX_ID: 8\n";
    let mut r = YPBankText::new(text);
    let a = r.next_op().unwrap().unwrap();
    assert_eq!(a.tx_id(), 7);
    assert_eq!(*a.tx_type(), TransactionType::Withdrawal);
    assert_eq!(a.from_user_id(), 3);
    assert_eq!(a.to_user_id(), 0);
    assert_eq!(a.amount(), 10);
    assert_eq!(a.timestamp_ms(), 5);
    assert_eq!(*a.status(), Status::Pending);
    assert_eq!(a.description(), Some("a: b"));
    let e = parse_error(r.next_op());
    assert_eq!(e.line_no, 13);
    assert!(e.field.is_none());
    assert_eq!(e.line, "");
    match e.kind {
        ParseErrorKind::MissingFields { names } => assert_eq!(
            names,
            vec!["TX_TYPE", "FROM_USER_ID", "TO_USER_ID", "AMOUNT", "TIMESTAMP", "DESCRIPTION"]
        ),
        _ => panic!("wrong kind"),
    }
}

#[test]
fn txt_block_with_one_field_reports_the_seven_missing() {
    let mut r = YPBankText::new("TX_ID: 5\n\n");
    let e = parse_error(r.next_op());
    assert_eq!(e.line_no, 2);
    assert!(e.field.is_none());
    match e.kind {
        ParseErrorKind::MissingFields { names } => assert_eq!(
            names,
            vec!["TX_TYPE", "FROM_USER_ID", "TO_USER_ID", "AMOUNT", "TIMESTAMP", "STATUS", "DESCRIPTION"]
        ),
        _ => panic!("wrong kind"),
    }
}

#[test]
fn txt_empty_values_count_as_present() {
    let text = "TX_ID:\nTX_TYPE:\nFROM_USER_ID:\nTO_USER_ID: 4\nAMOUNT:\nTIMESTAMP:\nSTATUS:\nDESCRIPTION:\n";
    let mut r = YPBankText::new(text);
    let a = r.next_op().unwrap().unwrap();
    assert_eq!(a.tx_id(), 0);
    assert_eq!(*a.tx_type(), TransactionType::Deposit);
    assert_eq!(a.to_user_id(), 4);
    assert_eq!(*a.status(), Status::Success);
    assert_eq!(a.description(), Some(""));
    assert!(r.next_op().unwrap().is_none());
}

#[test]
fn txt_duplicate_field_fails() {
    let mut r = YPBankText::new("TX_ID: 1\nTX_ID: 2\n");
    let e = parse_error(r.next_op());
    assert_eq!(e.line_no, 2);
    assert_eq!(e.field, Some("TX_ID"));
    assert!(matches!(e.kind, ParseErrorKind::DuplicateField { name: "TX_ID" }));
    assert_eq!(e.line, "TX_ID: 2");
}

#[test]
fn txt_unknown_field_fails() {
    let mut r = YPBankText::new("COLOR: red\n");
    let e = parse_error(r.next_op());
    assert_eq!(e.line_no, 1);
    assert!(e.field.is_none());
    match e.kind {
        ParseErrorKind::UnknownField { name } => assert_eq!(name, "COLOR"),
        _ => panic!("wrong kind"),
    }
}

#[test]
fn txt_line_without_colon_fails() {
    let mut r = YPBankText::new("TX_ID: 1\nno colon here\n");
    let e = parse_error(r.next_op());
    assert_eq!(e.line_no, 2);
    assert!(matches!(e.kind, ParseErrorKind::ExpectedKeyValue));
    assert_eq!(e.line, "no colon here");
}

#[test]
fn txt_semantic_rule_reported_on_closing_line() {
    let mut r = YPBankText::new(
        "TX_ID: 1\nTX_TYPE: WITHDRAWAL\nFROM_USER_ID: 2\nTO_USER_ID: 5\nAMOUNT: 3\nTIMESTAMP: 4\nSTATUS: SUCCESS\nDESCRIPTION: \"\"\n\n",
    );
    let e = parse_error(r.next_op());
    assert_eq!(e.line_no, 9);
    assert_eq!(e.field, Some("TO_USER_ID"));
    assert_eq!(e.line, "");
    assert!(matches!(e.kind, ParseErrorKind::SemanticRule { .. }));
}

#[test]
fn txt_writes_a_block() {
    let a = op(1, TransactionType::Deposit, 0, 5, 100, 1000, Status::Success, Some("hi \"x\""));
    let mut out = String::new();
    YPBankText::write_op(&mut out, &a).unwrap();
    assert_eq!(
        out,
        "TX_ID: 1\nTX_TYPE: DEPOSIT\nFROM_USER_ID: 0\nTO_USER_ID: 5\nAMOUNT: 100\nTIMESTAMP: 1000\nSTATUS: SUCCESS\nDESCRIPTION: \"hi 'x'\"\n\n"
    );
}

#[test]
fn txt_written_blocks_read_back() {
    let a = op(3, TransactionType::Transfer, 1, 2, 300, 4, Status::Failure, Some(" spaced : text "));
    let b = op(4, TransactionType::Deposit, 0, 2, 0, 4, Status::Success, None);
    let mut out = String::new();
    YPBankText::write_op(&mut out, &a).unwrap();
    YPBankText::write_op(&mut out, &b).unwrap();
    let mut r = YPBankText::new(&out);
    let a2 = r.next_op().unwrap().unwrap();
    let b2 = r.next_op().unwrap().unwrap();
    assert_eq!(a, a2);
    assert_eq!(a2.description(), Some(" spaced : text "));
    assert_eq!(b, b2);
    assert_eq!(b2.description(), Some(""));
    assert!(r.next_op().unwrap().is_none());
}

// --- BIN ------------------------------------------------------------------

fn record_bytes(a: &Operation) -> Vec<u8> {
    let mut out = Vec::new();
    YPBankBin::write_op(&mut out, a).unwrap();
    out
}

#[test]
fn bin_writes_the_record_layout() {
    let a = op(1, TransactionType::Transfer, 2, 3, -4, 5, Status::Pending, Some("é"));
    let bytes = record_bytes(&a);
    let mut want: Vec<u8> = b"YPBN".to_vec();
    want.extend_from_slice(&48u32.to_be_bytes());
    want.extend_from_slice(&1u64.to_be_bytes());
    want.push(1);
    want.extend_from_slice(&2u64.to_be_bytes());
    want.extend_from_slice(&3u64.to_be_bytes());
    want.extend_from_slice(&(-4i64).to_be_bytes());
    want.extend_from_slice(&5u64.to_be_bytes());
    want.push(2);
    want.extend_from_slice(&2u32.to_be_bytes());
    want.extend_from_slice("é".as_bytes());
    assert_eq!(bytes, want);
}

#[test]
fn bin_reads_back_and_skips_bytes_before_magic() {
    let a = op(10, TransactionType::Deposit, 0, 3, 7, 8, Status::Success, Some("note"));
    let b = op(11, TransactionType::Withdrawal, 3, 0, 1, 9, Status::Failure, Some(""));
    let mut bytes = vec![0u8, 1, 2];
    bytes.extend(record_bytes(&a));
    bytes.extend(record_bytes(&b));
    bytes.extend_from_slice(b"tail");
    let mut r = YPBankBin::new(bytes);
    let a2 = r.next_op().unwrap().unwrap();
    assert_eq!(a, a2);
    assert_eq!(a2.description(), Some("note"));
    let b2 = r.next_op().unwrap().unwrap();
    assert_eq!(b, b2);
    assert_eq!(b2.description(), None);
    assert!(r.next_op().unwrap().is_none());
}

#[test]
fn bin_cut_short_record_is_an_io_error() {
    let a = op(10, TransactionType::Deposit, 0, 3, 7, 8, Status::Success, Some("note"));
    let mut bytes = record_bytes(&a);
    bytes.truncate(bytes.len() - 1);
    let mut r = YPBankBin::new(bytes);
    assert!(matches!(r.next_op(), Err(DataError::Io(_))));
    let mut r = YPBankBin::new(b"YPBN\0\0".to_vec());
    assert!(matches!(r.next_op(), Err(DataError::Io(_))));
}

#[test]
fn bin_short_record_size_fails() {
    let mut bytes = b"YPBN".to_vec();
    bytes.extend_from_slice(&10u32.to_be_bytes());
    bytes.extend_from_slice(&[0u8; 10]);
    let mut r = YPBankBin::new(bytes);
    let e = parse_error(r.next_op());
    assert_eq!(e.line_no, 1);
    assert_eq!(e.field, Some("RECORD_SIZE"));
    assert!(matches!(
        e.kind,
        ParseErrorKind::SemanticRule { msg: "RECORD_SIZE меньше минимально допустимого размера тела записи" }
    ));
    assert_eq!(e.line, "10");
}

#[test]
fn bin_bad_enum_bytes_fail() {
    let a = op(1, TransactionType::Deposit, 0, 3, 7, 8, Status::Success, None);
    let mut bytes = record_bytes(&a);
    bytes[8 + 8] = 9;
    let mut r = YPBankBin::new(bytes);
    let e = parse_error(r.next_op());
    assert_eq!(e.field, Some("TX_TYPE"));
    match e.kind {
        ParseErrorKind::BadEnum { value, expected } => {
            assert_eq!(value, "9");
            assert_eq!(expected, "0=DEPOSIT | 1=TRANSFER | 2=WITHDRAWAL");
        }
        _ => panic!("wrong kind"),
    }
    let mut bytes = record_bytes(&a);
    bytes[8 + 41] = 7;
    let mut r = YPBankBin::new(bytes);
    let e = parse_error(r.next_op());
    assert_eq!(e.field, Some("STATUS"));
}

#[test]
fn bin_description_length_mismatch_and_bad_utf8_fail() {
    let a = op(1, TransactionType::Deposit, 0, 3, 7, 8, Status::Success, Some("ab"));
    let mut bytes = record_bytes(&a);
    bytes[8 + 45] = 3;
    let mut r = YPBankBin::new(bytes);
    let e = parse_error(r.next_op());
    assert_eq!(e.field, Some("DESCRIPTION"));
    assert!(matches!(e.kind, ParseErrorKind::SemanticRule { .. }));
    let mut bytes = record_bytes(&a);
    bytes[8 + 46] = 0xff;
    let mut r = YPBankBin::new(bytes);
    let e = parse_error(r.next_op());
    assert_eq!(e.field, Some("DESCRIPTION"));
    assert!(matches!(e.kind, ParseErrorKind::SemanticRule { .. }));
}

#[test]
fn bin_semantic_rule_is_checked() {
    let a = op(1, TransactionType::Transfer, 4, 3, 7, 8, Status::Success, None);
    let mut bytes = record_bytes(&a);
    bytes[8 + 8] = 0;
    let mut r = YPBankBin::new(bytes);
    let e = parse_error(r.next_op());
    assert_eq!(e.field, Some("FROM_USER_ID"));
    assert!(matches!(e.kind, ParseErrorKind::SemanticRule { .. }));
}

// --- strategies -------------------------------------------------------------

#[test]
fn strategies_read_and_write_statements() {
    let text = format!("{HEADER}\n2,DEPOSIT,0,1,5,1,SUCCESS,\"b\"\n1,DEPOSIT,0,1,5,1,SUCCESS,\"a\"\n");
    let mut reader = YPBankCsv::new(&text);
    let mut st = Statement::from_read(&mut reader, utils::ypbank::csv::make_next_op()).unwrap();
    let mut out = String::new();
    st.write_to(&mut out, utils::ypbank::csv::make_write_op()).unwrap();
    assert_eq!(out, "1,DEPOSIT,0,1,5,1,SUCCESS,\"a\"\n2,DEPOSIT,0,1,5,1,SUCCESS,\"b\"\n");

    let mut txt = String::new();
    st.write_to(&mut txt, utils::ypbank::txt::make_write_op()).unwrap();
    let mut reader = YPBankText::new(&txt);
    let st2 = Statement::from_read(&mut reader, utils::ypbank::txt::make_next_op()).unwrap();
    assert_eq!(st, st2);

    let mut bytes = Vec::new();
    st.write_to(&mut bytes, utils::ypbank::bin::make_write_op()).unwrap();
    let mut reader = YPBankBin::new(bytes);
    let st3 = Statement::from_read(&mut reader, utils::ypbank::bin::make_next_op()).unwrap();
    assert_eq!(st, st3);
}

#[test]
fn strategy_error_stops_reading() {
    let text = format!("{HEADER}\n1,DEPOSIT,0,1,5,1,SUCCESS,\"a\"\nbroken\n");
    let mut reader = YPBankCsv::new(&text);
    let r = Statement::from_read(&mut reader, utils::ypbank::csv::make_next_op());
    assert!(matches!(r, Err(DataError::Parse(_))));
}

#[test]
fn csv_header_only_input_reads_nothing_twice() {
    let mut r = YPBankCsv::new("TX_ID,TX_TYPE,FROM_USER_ID,TO_USER_ID,AMOUNT,TIMESTAMP,STATUS,DESCRIPTION\n\n");
    assert!(r.next_op().unwrap().is_none());
    assert!(r.next_op().unwrap().is_none());
}
