//! Tests of what the comparer decides.

use utils::cli::comparer::parse_format;
use utils::cli::Format;
use utils::data::{Operation, Statement, Status, TransactionType};

fn op_new(
    tx_id: u64,
    tx_type: TransactionType,
    from_user_id: u64,
    to_user_id: u64,
    amount: i64,
    timestamp_ms: u64,
    status: Status,
) -> Operation {
    Operation::new(
        tx_id,
        tx_type,
        from_user_id,
        to_user_id,
        amount,
        timestamp_ms,
        status,
        None,
    )
}

fn statement_from_ops(mut ops: Vec<Operation>) -> Statement {
    let mut r: &[u8] = &[];
    Statement::from_read(&mut r, move |_| Ok(ops.pop())).unwrap()
}

#[test]
fn parse_format_prinimaet_ozhidaemye_aliasy() {
    assert_eq!(parse_format("txt"), Some(Format::Txt));
    assert_eq!(parse_format("TEXT"), Some(Format::Txt));
    assert_eq!(parse_format("csv"), Some(Format::Csv));
    assert_eq!(parse_format("bin"), Some(Format::Bin));
    assert_eq!(parse_format("binary"), Some(Format::Bin));
    assert_eq!(parse_format("unknown"), None);
}

#[test]
fn statement_eq_ispolzuet_operatsii_bez_meta() {
    let a = statement_from_ops(vec![
        op_new(1, TransactionType::Deposit, 1, 1, 10, 100, Status::Success),
        op_new(2, TransactionType::Transfer, 1, 2, 20, 110, Status::Failure),
    ]);
    let b = statement_from_ops(vec![
        op_new(1, TransactionType::Deposit, 1, 1, 10, 100, Status::Success),
        op_new(2, TransactionType::Transfer, 1, 2, 20, 110, Status::Failure),
    ]);
    assert_eq!(a, b);
}
