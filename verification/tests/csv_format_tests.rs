use ypbank_parser::csv_format::{fields_to_transaction, parse_csv_line, read_csv, write_csv};
use ypbank_parser::error::ParserError;
use ypbank_parser::transaction::{Transaction, TxStatus, TxType};

fn csv_sample() -> Vec<Transaction> {
    vec![
        Transaction {
            tx_id: 7,
            tx_type: TxType::Transfer,
            from_user_id: 1,
            to_user_id: 2,
            amount: -35,
            timestamp: 99,
            status: TxStatus::Pending,
            description: "a, \"b\" and \"\"c\"\"".into(),
        },
        Transaction {
            tx_id: 8,
            tx_type: TxType::Deposit,
            from_user_id: 0,
            to_user_id: 3,
            amount: 0,
            timestamp: 100,
            status: TxStatus::Success,
            description: String::new(),
        },
    ]
}

#[test]
fn csv_writer_output_is_exact() {
    let out = write_csv(&csv_sample());
    let expected = "TX_ID,TX_TYPE,FROM_USER_ID,TO_USER_ID,AMOUNT,TIMESTAMP,STATUS,DESCRIPTION\n\
7,TRANSFER,1,2,-35,99,PENDING,\"a, \"\"b\"\" and \"\"\"\"c\"\"\"\"\"\n\
8,DEPOSIT,0,3,0,100,SUCCESS,\"\"\n";
    assert_eq!(String::from_utf8(out).unwrap(), expected);
}

#[test]
fn csv_roundtrip_with_quotes_and_commas() {
    let txs = csv_sample();
    assert_eq!(read_csv(&write_csv(&txs)).unwrap(), txs);
}

#[test]
fn csv_empty_list_roundtrips() {
    let out = write_csv(&[]);
    assert_eq!(read_csv(&out).unwrap(), Vec::<Transaction>::new());
}

#[test]
fn csv_line_splitting_handles_quotes() {
    let fields = parse_csv_line("a,\"b,c\",\"d\"\"e\",,f").unwrap();
    assert_eq!(fields, vec!["a", "b,c", "d\"e", "", "f"]);
    assert_eq!(parse_csv_line("").unwrap(), vec![""]);
}

#[test]
fn csv_empty_input_is_format_error() {
    match read_csv(b"") {
        Err(ParserError::FormatParseError(msg)) => assert_eq!(msg, "Empty csv file"),
        other => panic!("Unexpected result: {:?}", other),
    }
}

#[test]
fn csv_wrong_header_is_reported() {
    match read_csv(b"ID,TYPE\n1,DEPOSIT\n") {
        Err(ParserError::FormatParseError(msg)) => assert_eq!(
            msg,
            "Header does not match: expected - TX_ID,TX_TYPE,FROM_USER_ID,TO_USER_ID,AMOUNT,TIMESTAMP,STATUS,DESCRIPTION, got - ID,TYPE"
        ),
        other => panic!("Unexpected result: {:?}", other),
    }
}

#[test]
fn csv_header_is_trimmed_and_blank_lines_skipped() {
    let data = b"  TX_ID,TX_TYPE,FROM_USER_ID,TO_USER_ID,AMOUNT,TIMESTAMP,STATUS,DESCRIPTION \r\n\n   \n1,DEPOSIT,2,3,4,5,SUCCESS,desc\r\n";
    let txs = read_csv(data).unwrap();
    assert_eq!(txs.len(), 1);
    assert_eq!(txs[0].description, "desc");
    assert_eq!(txs[0].amount, 4);
}

#[test]
fn csv_too_few_fields_is_reported() {
    match read_csv(b"TX_ID,TX_TYPE,FROM_USER_ID,TO_USER_ID,AMOUNT,TIMESTAMP,STATUS,DESCRIPTION\n1,2,3\n") {
        Err(ParserError::MissingRequiredFields(msg)) => assert_eq!(msg, "Expected at least 7 fields, got: 3"),
        other => panic!("Unexpected result: {:?}", other),
    }
}

#[test]
fn csv_bad_fields_are_reported() {
    let header = "TX_ID,TX_TYPE,FROM_USER_ID,TO_USER_ID,AMOUNT,TIMESTAMP,STATUS,DESCRIPTION\n";
    let bad_id = format!("{}x,DEPOSIT,1,2,3,4,SUCCESS,d\n", header);
    assert!(matches!(read_csv(bad_id.as_bytes()), Err(ParserError::ParseIntError(_))));
    let bad_type = format!("{}1,GIFT,1,2,3,4,SUCCESS,d\n", header);
    assert!(matches!(read_csv(bad_type.as_bytes()), Err(ParserError::InvalidTransactionType(t)) if t == "GIFT"));
    let bad_status = format!("{}1,DEPOSIT,1,2,3,4,DONE,d\n", header);
    assert!(matches!(read_csv(bad_status.as_bytes()), Err(ParserError::InvalidTransactionStatus(t)) if t == "DONE"));
    let spaced = format!("{}1, DEPOSIT,1,2,3,4,SUCCESS,d\n", header);
    assert!(matches!(read_csv(spaced.as_bytes()), Err(ParserError::InvalidTransactionType(t)) if t == " DEPOSIT"));
    let overflow = format!("{}1,DEPOSIT,1,2,9223372036854775808,4,SUCCESS,d\n", header);
    assert!(matches!(read_csv(overflow.as_bytes()), Err(ParserError::ParseIntError(_))));
}

#[test]
fn csv_invalid_utf8_line_is_io_error() {
    let mut data = b"TX_ID,TX_TYPE,FROM_USER_ID,TO_USER_ID,AMOUNT,TIMESTAMP,STATUS,DESCRIPTION\n".to_vec();
    data.extend_from_slice(&[0xff, b'\n']);
    assert!(matches!(read_csv(&data), Err(ParserError::Io(e)) if e.kind() == std::io::ErrorKind::InvalidData));
}

#[test]
fn csv_fields_convert_to_transaction() {
    let fields: Vec<String> = ["12", "WITHDRAWAL", "+3", "4", "-5", "6", "FAILURE", "text", "extra"]
        .iter()
        .map(|s| s.to_string())
        .collect();
    let tx = fields_to_transaction(fields).unwrap();
    assert_eq!(tx.tx_id, 12);
    assert_eq!(tx.tx_type, TxType::Withdrawal);
    assert_eq!(tx.from_user_id, 3);
    assert_eq!(tx.amount, -5);
    assert_eq!(tx.status, TxStatus::Failure);
    assert_eq!(tx.description, "text");
}

#[test]
fn splitting_undoes_quoting_and_joining() {
    let fields = vec!["a,b".to_string(), "say \"hi\"".to_string(), String::new(), "\"".to_string()];
    let line = fields
        .iter()
        .map(|f| format!("\"{}\"", f.replace('"', "\"\"")))
        .collect::<Vec<_>>()
        .join(",");
    assert_eq!(parse_csv_line(&line).unwrap(), fields);
}
