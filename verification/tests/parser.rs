use trx_processor::parser::corasick::{parse_corasick, CorasickError};
use trx_processor::parser::csv::{parse_csv, record_to_item, CsvRecord};
use trx_processor::parser::fields::{parse_amount_bytes, parse_line_bytes, parse_u16, parse_u32};
use trx_processor::parser::text::{amount_fails, parse_amount};
use trx_processor::feed::{chargeback_line, dispute_line, resolve_line};
use trx_processor::types::CsvItem;

const SAMPLE_CSV: &str = "\
type,client,tx,amount
deposit,1,1,1.0000
withdrawal,1,2,0.5000
dispute,1,1,
resolve,1,1,
chargerback,1,1,
";

fn read_records(text: &str) -> Vec<CsvRecord> {
    let mut reader = csv::ReaderBuilder::new()
        .trim(csv::Trim::All)
        .flexible(true)
        .from_reader(text.as_bytes());
    let mut records = Vec::new();
    for row in reader.records() {
        let row = row.unwrap();
        let client = match row.get(1).unwrap().parse::<u16>() {
            Ok(c) => c,
            Err(_) => continue,
        };
        let tx = match row.get(2).unwrap().parse::<u32>() {
            Ok(t) => t,
            Err(_) => continue,
        };
        let amount = match row.get(3) {
            Some(a) if !a.is_empty() => Some(a.to_string()),
            _ => None,
        };
        records.push(CsvRecord {
            tx_type: row.get(0).unwrap().to_string(),
            client,
            tx,
            amount,
        });
    }
    records
}

#[test]
fn test_csv_parser() {
    let items: Vec<CsvItem> = parse_csv(&read_records(SAMPLE_CSV)).unwrap();
    assert_eq!(items.len(), 5);
    match &items[0] {
        CsvItem::Deposit(c, t, a) => {
            assert_eq!(*c, 1);
            assert_eq!(*t, 1);
            assert_eq!(*a, 10000);
        }
        _ => panic!("Expected deposit"),
    }
    match &items[1] {
        CsvItem::Withdrawal(c, t, a) => {
            assert_eq!(*c, 1);
            assert_eq!(*t, 2);
            assert_eq!(*a, 5000);
        }
        _ => panic!("Expected withdrawal"),
    }
}

#[test]
fn test_corasick_parser() {
    let items: Vec<CsvItem> = parse_corasick(SAMPLE_CSV.as_bytes()).unwrap();
    assert_eq!(items.len(), 5);
    match &items[0] {
        CsvItem::Deposit(c, t, a) => {
            assert_eq!(*c, 1);
            assert_eq!(*t, 1);
            assert_eq!(*a, 10000);
        }
        _ => panic!("Expected deposit"),
    }
}

fn record(tx_type: &str, amount: Option<&str>) -> CsvRecord {
    CsvRecord {
        tx_type: tx_type.to_string(),
        client: 4,
        tx: 8,
        amount: amount.map(|a| a.to_string()),
    }
}

#[test]
fn csv_type_is_matched_after_lowercasing() {
    let items = parse_csv(&vec![
        record("DEPOSIT", Some("2")),
        record("ChargeBack", None),
        record("Resolve", None),
        record("refund", Some("1")),
        record("withdrawal", None),
    ])
    .unwrap();
    assert_eq!(items.len(), 3);
    assert!(matches!(items[0], CsvItem::Deposit(4, 8, 20000)));
    assert!(matches!(items[1], CsvItem::ChargerBack(4, 8)));
    assert!(matches!(items[2], CsvItem::Resolve(4, 8)));
}

#[test]
fn csv_reports_the_record_whose_amount_overflows() {
    let r = parse_csv(&vec![
        record("dispute", None),
        record("deposit", Some("18446744073709551615")),
        record("deposit", Some("x")),
    ]);
    assert!(matches!(r, Err(1)));
    // an unknown type does not read its amount
    assert!(parse_csv(&vec![record("other", Some("18446744073709551615"))]).is_ok());
}

#[test]
fn record_to_item_uses_given_lowercase_type() {
    let rec = record("IGNORED", Some("0.5"));
    assert!(matches!(record_to_item(&rec, "withdrawal"), Some(CsvItem::Withdrawal(4, 8, 5000))));
    assert!(record_to_item(&rec, "Withdrawal").is_none());
}

#[test]
fn parse_amount_cases() {
    assert_eq!(parse_amount("1.0000"), Some(10000));
    assert_eq!(parse_amount(" 2.5 "), Some(25000));
    assert_eq!(parse_amount("3"), Some(30000));
    assert_eq!(parse_amount("1.23456"), Some(12345));
    assert_eq!(parse_amount("+1.+5"), Some(10500));
    assert_eq!(parse_amount("1.2.9"), Some(12000));
    assert_eq!(parse_amount("1."), Some(10000));
    assert_eq!(parse_amount(".5"), None);
    assert_eq!(parse_amount("-1"), None);
    assert_eq!(parse_amount("1.x"), None);
    assert_eq!(parse_amount(""), None);
    assert_eq!(parse_amount("1.\u{e9}"), None);
    assert_eq!(parse_amount("1844674407370955.1615"), Some(u64::MAX));
    assert!(amount_fails("1844674407370955.1616"));
    assert!(amount_fails("1.123\u{e9}"));
    assert!(!amount_fails("1.12\u{e9}"));
    assert_eq!(parse_amount("1.12\u{e9}"), None);
    assert!(!amount_fails("abc"));
    assert!(amount_fails("1.\u{e9}\u{20ac}"));
    assert!(amount_fails("1.a\u{e9}\u{20ac}"));
    assert!(!amount_fails("1.\u{e9}\u{e9}"));
    assert_eq!(parse_amount("1.\u{e9}\u{e9}"), None);
    assert!(!amount_fails("1.\u{e9}"));
}

#[test]
fn byte_field_parsers() {
    assert_eq!(parse_u16(b" 65535\r"), Some(65535));
    assert_eq!(parse_u16(b"65536"), None);
    assert_eq!(parse_u16(b"\t"), None);
    assert_eq!(parse_u16(b"1 2"), None);
    assert_eq!(parse_u32(b"4294967295"), Some(4294967295));
    assert_eq!(parse_u32(b"4294967296"), None);
    assert_eq!(parse_amount_bytes(b" 1.5 "), Some(15000));
    assert_eq!(parse_amount_bytes(b".25"), Some(2500));
    assert_eq!(parse_amount_bytes(b"2.123456"), Some(21234));
    assert_eq!(parse_amount_bytes(b"2.1x9"), Some(21000));
    assert_eq!(parse_amount_bytes(b"2x"), None);
    assert_eq!(parse_amount_bytes(b""), None);
}

#[test]
fn line_parser_reads_fields_by_kind() {
    assert!(matches!(parse_line_bytes(b"deposit,3,9,1.5", 0), Some(CsvItem::Deposit(3, 9, 15000))));
    assert!(matches!(parse_line_bytes(b"withdrawal, 3 , 9 ,1", 1), Some(CsvItem::Withdrawal(3, 9, 10000))));
    assert!(matches!(parse_line_bytes(b"dispute,3,9,", 2), Some(CsvItem::Dispute(3, 9))));
    assert!(matches!(parse_line_bytes(b"resolve,3,9", 3), Some(CsvItem::Resolve(3, 9))));
    assert!(matches!(parse_line_bytes(b"chargeback,3,9", 4), Some(CsvItem::ChargerBack(3, 9))));
    assert!(parse_line_bytes(b"deposit,3,9", 0).is_none());
    assert!(parse_line_bytes(b"deposit,3", 0).is_none());
    assert!(parse_line_bytes(b"deposit,3,9,1", 5).is_none());
}

#[test]
fn corasick_reads_lines_by_prefix() {
    let input = b"type,client,tx,amount\ndelete,2,3,4\nxdeposit,1,1,1\nchargerback,2,3,\nwi,5,6,0.5";
    let items = parse_corasick(input).unwrap();
    assert_eq!(items.len(), 3);
    assert!(matches!(items[0], CsvItem::Deposit(2, 3, 40000)));
    assert!(matches!(items[1], CsvItem::ChargerBack(2, 3)));
    assert!(matches!(items[2], CsvItem::Withdrawal(5, 6, 5000)));
}

#[test]
fn corasick_reports_overflowing_amount() {
    let input = b"deposit,1,1,18446744073709551615\n";
    assert_eq!(parse_corasick(input), Err(CorasickError::AmountOverflow));
}

#[test]
fn corasick_handles_input_longer_than_buffer() {
    let mut input = Vec::new();
    for i in 0..5000u32 {
        input.extend_from_slice(format!("deposit,1,{},0.0001\n", i).as_bytes());
    }
    let items = parse_corasick(&input).unwrap();
    assert_eq!(items.len(), 5000);
    assert!(matches!(items[4999], CsvItem::Deposit(1, 4999, 1)));
}

#[test]
fn claim_lines_of_the_feed() {
    assert_eq!(dispute_line(12, 3400), "dispute,12,3400,");
    assert_eq!(resolve_line(0, 7), "resolve,0,7,");
    assert_eq!(chargeback_line(65535, 4294967295), "chargerback,65535,4294967295,");
}

#[test]
fn formatted_amounts_read_back() {
    use_format_roundtrip(0);
    use_format_roundtrip(1);
    use_format_roundtrip(12345);
    use_format_roundtrip(99_999_999);
    use_format_roundtrip(u64::MAX);
}

fn use_format_roundtrip(v: u64) {
    let text = trx_processor::transactions::format_amount(v);
    assert_eq!(parse_amount(&text), Some(v));
    assert_eq!(parse_amount_bytes(text.as_bytes()), Some(v));
}

#[test]
fn byte_and_text_amount_readers_agree_on_plain_amounts() {
    for s in ["0", "7", "1.", "1.5", "2.25", "3.1234", "12.345678", "0.0001", "1844674407370955.1615", "18446744073709551616"] {
        assert!(!amount_fails(s));
        assert_eq!(parse_amount_bytes(s.as_bytes()), parse_amount(s), "{s}");
    }
    assert_eq!(parse_amount_bytes(b"12.345678"), Some(123456));
}

#[test]
fn corasick_reads_only_lines_that_start_with_a_prefix() {
    let input = b"type,client,tx,amount\nxdeposit,1,1,1.0\ndeposit,2,2,2.0\n  withdrawal,2,3,1.0\nresolve,2,2,\n";
    let items = parse_corasick(input).unwrap();
    assert_eq!(items.len(), 2);
    assert!(matches!(items[0], CsvItem::Deposit(2, 2, 20000)));
    assert!(matches!(items[1], CsvItem::Resolve(2, 2)));
}
