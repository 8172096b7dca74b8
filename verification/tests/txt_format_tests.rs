use ypbank_parser::error::ParserError;
use ypbank_parser::transaction::{Transaction, TxStatus, TxType};
use ypbank_parser::txt_format::{construct_transaction, read_txt, write_txt, RecordFields};

fn txt_sample_transactions() -> Vec<Transaction> {
    vec![
        Transaction {
            tx_id: 1,
            tx_type: TxType::Deposit,
            from_user_id: 10,
            to_user_id: 20,
            amount: 100,
            timestamp: 1,
            status: TxStatus::Success,
            description: "desc1".into(),
        },
        Transaction {
            tx_id: 2,
            tx_type: TxType::Withdrawal,
            from_user_id: 30,
            to_user_id: 40,
            amount: -200,
            timestamp: 2,
            status: TxStatus::Failure,
            description: "with spaces and \"quotes\"".into(),
        },
    ]
}

#[test]
fn txt_roundtrip_preserves_transactions() {
    let original = txt_sample_transactions();
    let buffer = write_txt(&original);
    let parsed = read_txt(&buffer).expect("read_txt");
    assert_eq!(parsed, original);
}

#[test]
fn txt_reader_ignores_comments_and_blank_lines() {
    let data = b"# comment 1\n\
\n\
TX_ID: 1\n\
TX_TYPE: DEPOSIT\n\
FROM_USER_ID: 10\n\
TO_USER_ID: 20\n\
AMOUNT: 100\n\
TIMESTAMP: 1\n\
STATUS: SUCCESS\n\
DESCRIPTION: \"desc\"\n\
\n\
# another comment\n";

    let txs = read_txt(&data[..]).expect("read_txt");
    assert_eq!(txs.len(), 1);
    assert_eq!(txs[0].tx_id, 1);
}

#[test]
fn duplicated_field_produces_error() {
    let data = b"TX_ID: 1\nTX_ID: 2\n";
    let res = read_txt(&data[..]);
    assert!(matches!(
        res,
        Err(ParserError::DuplicatedFieldInRecord { key }) if key == "TX_ID"
    ));
}

#[test]
fn line_without_colon_is_ignored_and_produces_no_transactions() {
    let data = b"TX_ID 1\n";
    let res = read_txt(&data[..]).expect("read_txt");
    assert!(res.is_empty());
}

#[test]
fn missing_required_field_produces_error() {
    let data = b"TX_ID: 1\nFROM_USER_ID: 1\n";
    let res = read_txt(&data[..]);
    assert!(matches!(res, Err(ParserError::MissingRequiredFields(_))));
}

#[test]
fn txt_writer_output_is_exact() {
    let out = write_txt(&txt_sample_transactions());
    let expected = "TX_ID: 1\nTX_TYPE: DEPOSIT\nFROM_USER_ID: 10\nTO_USER_ID: 20\nAMOUNT: 100\nTIMESTAMP: 1\nSTATUS: SUCCESS\nDESCRIPTION: \"desc1\"\n\
\n\
TX_ID: 2\nTX_TYPE: WITHDRAWAL\nFROM_USER_ID: 30\nTO_USER_ID: 40\nAMOUNT: -200\nTIMESTAMP: 2\nSTATUS: FAILURE\nDESCRIPTION: \"with spaces and \"quotes\"\"\n";
    assert_eq!(String::from_utf8(out).unwrap(), expected);
    assert!(write_txt(&[]).is_empty());
}

#[test]
fn txt_missing_field_names_the_first_missing() {
    match read_txt(b"TX_ID: 1\nFROM_USER_ID: 1\n") {
        Err(ParserError::MissingRequiredFields(k)) => assert_eq!(k, "TO_USER_ID"),
        other => panic!("Unexpected result: {:?}", other),
    }
}

#[test]
fn txt_fields_in_any_order_and_unquoted_description() {
    let data = b"  DESCRIPTION : plain text  \nSTATUS:PENDING\nTX_TYPE: TRANSFER\nTIMESTAMP: 5\nAMOUNT: -7\nTO_USER_ID: 2\nFROM_USER_ID: 1\nTX_ID: 3\nEXTRA: ignored\n";
    let txs = read_txt(&data[..]).unwrap();
    assert_eq!(txs.len(), 1);
    assert_eq!(txs[0].description, "plain text");
    assert_eq!(txs[0].status, TxStatus::Pending);
    assert_eq!(txs[0].amount, -7);
}

#[test]
fn txt_bad_values_are_reported() {
    let base = "TX_ID: 1\nFROM_USER_ID: 1\nTO_USER_ID: 2\nAMOUNT: 3\nTIMESTAMP: 4\nSTATUS: SUCCESS\nDESCRIPTION: d\n";
    let bad_type = format!("TX_TYPE: GIFT\n{}", base);
    assert!(matches!(read_txt(bad_type.as_bytes()), Err(ParserError::InvalidTransactionType(t)) if t == "GIFT"));
    let bad_id = "TX_ID: one\n";
    assert!(matches!(read_txt(bad_id.as_bytes()), Err(ParserError::ParseIntError(_))));
    let mut invalid = b"TX_ID: 1\n".to_vec();
    invalid.extend_from_slice(&[0xc3, b'\n']);
    assert!(matches!(read_txt(&invalid), Err(ParserError::Io(_))));
}

#[test]
fn txt_record_fields_behave_as_a_map() {
    let key: Vec<char> = "TX_ID".chars().collect();
    let mut parts = RecordFields::new();
    assert!(!parts.contains_key(&key));
    parts.insert(key.clone(), "1".chars().collect());
    parts.insert(key.clone(), "2".chars().collect());
    assert!(parts.contains_key(&key));
    assert_eq!(parts.get(&key).unwrap().iter().collect::<String>(), "2");
    assert!(matches!(construct_transaction(&parts), Err(ParserError::MissingRequiredFields(k)) if k == "FROM_USER_ID"));
}

#[test]
fn duplicated_field_with_space_before_colon_produces_error() {
    let data = b"TX_ID : 1\nTX_ID : 2\n";
    let res = read_txt(&data[..]);
    assert!(matches!(
        res,
        Err(ParserError::DuplicatedFieldInRecord { key }) if key == "TX_ID"
    ));
    let data = b"TX_ID: 1\n  TX_ID   : 2\n";
    assert!(matches!(
        read_txt(&data[..]),
        Err(ParserError::DuplicatedFieldInRecord { key }) if key == "TX_ID"
    ));
}

#[test]
fn inserted_comment_line_changes_nothing() {
    let base: &[u8] = b"TX_ID: 1\nTX_TYPE: DEPOSIT\nFROM_USER_ID: 0\nTO_USER_ID: 1\nAMOUNT: 10\nTIMESTAMP: 5\nSTATUS: SUCCESS\nDESCRIPTION: \"d\"\n";
    let with_comment: &[u8] = b"TX_ID: 1\nTX_TYPE: DEPOSIT\n   # a note: with a colon\r\nFROM_USER_ID: 0\nTO_USER_ID: 1\nAMOUNT: 10\nTIMESTAMP: 5\nSTATUS: SUCCESS\nDESCRIPTION: \"d\"\n#end\n";
    assert_eq!(read_txt(base).unwrap(), read_txt(with_comment).unwrap());
}
