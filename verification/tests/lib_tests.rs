use ypbank_parser::transaction::{Transaction, TxStatus, TxType};
use ypbank_parser::error::ParserError;
use ypbank_parser::{format_from_name, parse_format, read_transactions, write_transactions, Format};

fn sample_transactions() -> Vec<Transaction> {
    vec![
        Transaction {
            tx_id: 1,
            tx_type: TxType::Deposit,
            from_user_id: 100,
            to_user_id: 200,
            amount: 5000,
            timestamp: 1_700_000_000,
            status: TxStatus::Success,
            description: "Test deposit".to_string(),
        },
        Transaction {
            tx_id: 2,
            tx_type: TxType::Transfer,
            from_user_id: 200,
            to_user_id: 300,
            amount: -2500,
            timestamp: 1_700_000_100,
            status: TxStatus::Pending,
            description: "Transfer, \"quoted\" description".to_string(),
        },
    ]
}

#[test]
fn parse_format_supports_all_known_variants() {
    assert!(matches!(parse_format("csv"), Format::Csv));
    assert!(matches!(parse_format("text"), Format::Text));
    assert!(matches!(parse_format("txt"), Format::Text));
    assert!(matches!(parse_format("binary"), Format::Binary));
    assert!(matches!(parse_format("bin"), Format::Binary));
}

#[test]
fn format_from_name_rejects_unsupported_value() {
    assert_eq!(format_from_name("xml"), None);
    assert_eq!(format_from_name("CSV"), None);
    assert_eq!(format_from_name("bin"), Some(Format::Binary));
}

#[test]
fn csv_roundtrip_preserves_transactions() {
    let original = sample_transactions();
    let buffer = write_transactions(Format::Csv, &original);
    let parsed = read_transactions(Format::Csv, &buffer).expect("read csv");
    assert_eq!(parsed, original);
}

#[test]
fn text_roundtrip_preserves_transactions() {
    let original = sample_transactions();
    let buffer = write_transactions(Format::Text, &original);
    let parsed = read_transactions(Format::Text, &buffer).expect("read txt");
    assert_eq!(parsed, original);
}

#[test]
fn binary_roundtrip_preserves_transactions() {
    let original = sample_transactions();
    let buffer = write_transactions(Format::Binary, &original);
    let parsed = read_transactions(Format::Binary, &buffer).expect("read bin");
    assert_eq!(parsed, original);
}

#[test]
fn conversion_between_formats_keeps_transactions() {
    let original = sample_transactions();
    let formats = [Format::Csv, Format::Text, Format::Binary];
    for from in formats {
        let parsed = read_transactions(from, &write_transactions(from, &original)).unwrap();
        for to in formats {
            let again = read_transactions(to, &write_transactions(to, &parsed)).unwrap();
            assert_eq!(again, original);
        }
    }
}

#[test]
fn csv_line_without_description_is_missing_field() {
    let data = b"TX_ID,TX_TYPE,FROM_USER_ID,TO_USER_ID,AMOUNT,TIMESTAMP,STATUS,DESCRIPTION\n1,DEPOSIT,0,1,10,5,SUCCESS\n";
    let r = read_transactions(Format::Csv, data);
    assert!(matches!(r, Err(ParserError::MissingRequiredFields(m)) if m == "DESCRIPTION"));
}

#[test]
fn lone_quote_description_is_kept() {
    let data = b"TX_ID: 1\nTX_TYPE: DEPOSIT\nFROM_USER_ID: 0\nTO_USER_ID: 1\nAMOUNT: 10\nTIMESTAMP: 5\nSTATUS: SUCCESS\nDESCRIPTION: \"\n";
    let txs = read_transactions(Format::Text, data).expect("reads");
    assert_eq!(txs.len(), 1);
    assert_eq!(txs[0].description, "\"");
}

#[test]
fn reading_gives_back_what_was_written() {
    let txs = sample_transactions();
    for format in [Format::Csv, Format::Text, Format::Binary] {
        let bytes = write_transactions(format, &txs);
        assert_eq!(read_transactions(format, &bytes).unwrap(), txs);
    }
}

#[test]
fn reading_reports_errors() {
    let r = read_transactions(Format::Csv, b"");
    assert!(matches!(r, Err(ParserError::FormatParseError(m)) if m == "Empty csv file"));
    let r = read_transactions(Format::Csv, b"TX_ID,TX_TYPE,FROM_USER_ID,TO_USER_ID,AMOUNT,TIMESTAMP,STATUS,DESCRIPTION\n1,2,3\n");
    assert!(matches!(r, Err(ParserError::MissingRequiredFields(m)) if m == "Expected at least 7 fields, got: 3"));
}
