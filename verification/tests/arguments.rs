//! Tests of the command-line arguments of the converter and the comparer.

use utils::cli::comparer;
use utils::cli::converter;
use utils::cli::Format;
use utils::errors::DataError;

fn args(list: &[&str]) -> Vec<String> {
    list.iter().map(|s| s.to_string()).collect()
}

fn refused<T>(r: Result<T, DataError>) -> String {
    match r {
        Err(DataError::Format(m)) => m,
        Err(e) => panic!("expected a format error, got {}", e.to_string()),
        Ok(_) => panic!("expected a format error"),
    }
}

#[test]
fn converter_reads_formats_and_paths() {
    let s = converter::parse_args(&args(&["--in", "TXT", "-O", "bin", "-i", "a.txt", "-o", "b.ypb"]))
        .unwrap()
        .unwrap();
    assert_eq!(s.in_fmt, Format::Txt);
    assert_eq!(s.out_fmt, Format::Bin);
    assert_eq!(s.in_path.as_deref(), Some("a.txt"));
    assert_eq!(s.out_path.as_deref(), Some("b.ypb"));
    let s = converter::parse_args(&args(&["-I", "csv", "--out", "txt"])).unwrap().unwrap();
    assert_eq!(s.in_fmt, Format::Csv);
    assert_eq!(s.out_fmt, Format::Txt);
    assert!(s.in_path.is_none());
    assert!(s.out_path.is_none());
}

#[test]
fn converter_help_wins_over_later_arguments() {
    assert!(converter::parse_args(&args(&["--in", "txt", "-h", "--bogus"])).unwrap().is_none());
    assert!(converter::parse_args(&args(&["--help"])).unwrap().is_none());
    assert!(converter::usage().starts_with("Usage:"));
}

#[test]
fn converter_refuses_wrong_arguments() {
    assert_eq!(refused(converter::parse_args(&args(&["--bogus"]))), "Unknown argument: --bogus");
    assert_eq!(refused(converter::parse_args(&args(&["--in"]))), "Missing value for --in");
    assert_eq!(refused(converter::parse_args(&args(&["--in", "xml"]))), "Unknown --in format");
    assert_eq!(refused(converter::parse_args(&args(&["--in", "txt", "--out"]))), "Missing value for --out");
    assert_eq!(refused(converter::parse_args(&args(&["--out", "text"]))), "Unknown --out format");
    assert_eq!(refused(converter::parse_args(&args(&["-i"]))), "Missing value for -i");
    assert_eq!(refused(converter::parse_args(&args(&["-o"]))), "Missing value for -o");
    assert_eq!(refused(converter::parse_args(&args(&[]))), "Missing --in");
    assert_eq!(refused(converter::parse_args(&args(&["--in", "bin"]))), "Missing --out");
}

#[test]
fn unknown_argument_fails() {
    let e = converter::parse_args(&args(&["--nope"])).unwrap_err();
    assert_eq!(e.to_string(), "Format error: Unknown argument: --nope");
}

#[test]
fn comparer_reads_files_and_formats() {
    let s = comparer::parse_args(&args(&[
        "--file1", "a.bin", "--format1", "binary", "--file2", "b.csv", "--format2", "CSV",
    ]))
    .unwrap()
    .unwrap();
    assert_eq!(s.file1, "a.bin");
    assert_eq!(s.format1, Format::Bin);
    assert_eq!(s.file2, "b.csv");
    assert_eq!(s.format2, Format::Csv);
}

#[test]
fn comparer_refuses_wrong_arguments() {
    assert!(comparer::parse_args(&args(&["-h"])).unwrap().is_none());
    assert_eq!(refused(comparer::parse_args(&args(&["-x"]))), "Unknown argument: -x");
    assert_eq!(refused(comparer::parse_args(&args(&["--file1"]))), "Missing value for --file1");
    assert_eq!(refused(comparer::parse_args(&args(&["--file2"]))), "Missing value for --file2");
    assert_eq!(refused(comparer::parse_args(&args(&["--format1"]))), "Missing value for --format1");
    assert_eq!(refused(comparer::parse_args(&args(&["--format2"]))), "Missing value for --format2");
    assert_eq!(refused(comparer::parse_args(&args(&["--format1", "doc"]))), "Unknown --format1 format");
    assert_eq!(refused(comparer::parse_args(&args(&["--format2", "doc"]))), "Unknown --format2 format");
    assert_eq!(refused(comparer::parse_args(&args(&[]))), "Missing --file1");
    assert_eq!(refused(comparer::parse_args(&args(&["--file1", "a"]))), "Missing --file2");
    assert_eq!(refused(comparer::parse_args(&args(&["--file1", "a", "--file2", "b"]))), "Missing --format1");
    assert_eq!(
        refused(comparer::parse_args(&args(&["--file1", "a", "--file2", "b", "--format1", "txt"]))),
        "Missing --format2"
    );
}
