use ypbank_parser::bin_format::{parse_body, read_bin, write_bin, write_i64, write_u32, write_u64, write_u8, MAGIC};
use ypbank_parser::error::ParserError;
use ypbank_parser::transaction::{Transaction, TxStatus, TxType};

fn bin_sample_transactions() -> Vec<Transaction> {
    vec![
        Transaction {
            tx_id: 1,
            tx_type: TxType::Deposit,
            from_user_id: 10,
            to_user_id: 20,
            amount: 100,
            timestamp: 1,
            status: TxStatus::Success,
            description: "bin one".into(),
        },
        Transaction {
            tx_id: 2,
            tx_type: TxType::Withdrawal,
            from_user_id: 30,
            to_user_id: 40,
            amount: -200,
            timestamp: 2,
            status: TxStatus::Failure,
            description: "second".into(),
        },
    ]
}

#[test]
fn bin_roundtrip_preserves_transactions() {
    let expected = bin_sample_transactions();
    let buffer = write_bin(&expected);
    let parsed = read_bin(&buffer).expect("read_bin");
    assert_eq!(parsed, expected);
}

#[test]
fn invalid_magic_produces_format_error() {
    let mut buf = Vec::new();
    buf.extend_from_slice(&[0, 0, 0, 0]);
    buf.extend_from_slice(&1u32.to_be_bytes());
    buf.extend_from_slice(&[0u8; 1]);

    let res = read_bin(&buf[..]);
    assert!(matches!(
        res,
        Err(ParserError::FormatParseError(msg)) if msg.contains("Invalid magic")
    ));
}

#[test]
fn invalid_tx_type_byte_produces_error() {
    let mut body = Vec::new();
    write_u64(&mut body, 1);
    write_u8(&mut body, 9);
    write_u64(&mut body, 10);
    write_u64(&mut body, 20);
    write_i64(&mut body, 100);
    write_u64(&mut body, 1);
    write_u8(&mut body, TxStatus::Success.to_u8());
    write_u32(&mut body, 0);

    let mut buf = Vec::new();
    buf.extend_from_slice(&MAGIC);
    write_u32(&mut buf, body.len() as u32);
    buf.extend_from_slice(&body);

    let res = read_bin(&buf[..]);
    assert!(matches!(
        res,
        Err(ParserError::InvalidTransactionType(msg)) if msg.contains("Invalid byte")
    ));
}

#[test]
fn invalid_tx_status_byte_produces_error() {
    let mut body = Vec::new();
    write_u64(&mut body, 1);
    write_u8(&mut body, TxType::Deposit.to_u8());
    write_u64(&mut body, 10);
    write_u64(&mut body, 20);
    write_i64(&mut body, 100);
    write_u64(&mut body, 1);
    write_u8(&mut body, 9);
    write_u32(&mut body, 0);

    let mut buf = Vec::new();
    buf.extend_from_slice(&MAGIC);
    write_u32(&mut buf, body.len() as u32);
    buf.extend_from_slice(&body);

    let res = read_bin(&buf[..]);
    assert!(matches!(
        res,
        Err(ParserError::InvalidTransactionStatus(msg)) if msg.contains("Invalid byte")
    ));
}

#[test]
fn bin_writer_layout_is_exact() {
    let tx = Transaction {
        tx_id: 0x0102030405060708,
        tx_type: TxType::Transfer,
        from_user_id: 1,
        to_user_id: 2,
        amount: -1,
        timestamp: 3,
        status: TxStatus::Pending,
        description: "é".into(),
    };
    let bytes = write_bin(&[tx]);
    let mut expected: Vec<u8> = vec![0x59, 0x50, 0x42, 0x4E, 0, 0, 0, 48];
    expected.extend_from_slice(&[1, 2, 3, 4, 5, 6, 7, 8, 1]);
    expected.extend_from_slice(&[0, 0, 0, 0, 0, 0, 0, 1]);
    expected.extend_from_slice(&[0, 0, 0, 0, 0, 0, 0, 2]);
    expected.extend_from_slice(&[0xff; 8]);
    expected.extend_from_slice(&[0, 0, 0, 0, 0, 0, 0, 3, 2]);
    expected.extend_from_slice(&[0, 0, 0, 2, 0xC3, 0xA9]);
    assert_eq!(bytes, expected);
}

#[test]
fn bin_integer_writers_are_big_endian() {
    let mut out = Vec::new();
    write_u32(&mut out, 0x0A0B0C0D);
    write_u64(&mut out, 258);
    write_i64(&mut out, i64::MIN);
    write_u8(&mut out, 7);
    let mut expected = vec![0x0A, 0x0B, 0x0C, 0x0D, 0, 0, 0, 0, 0, 0, 1, 2, 0x80, 0, 0, 0, 0, 0, 0, 0, 7];
    assert_eq!(out, expected);
    expected.clear();
    assert!(expected.is_empty());
}

#[test]
fn bin_extreme_values_roundtrip() {
    let txs = vec![Transaction {
        tx_id: u64::MAX,
        tx_type: TxType::Withdrawal,
        from_user_id: 0,
        to_user_id: u64::MAX,
        amount: i64::MIN,
        timestamp: u64::MAX,
        status: TxStatus::Failure,
        description: String::new(),
    }, Transaction {
        tx_id: 0,
        tx_type: TxType::Deposit,
        from_user_id: 5,
        to_user_id: 6,
        amount: i64::MAX,
        timestamp: 0,
        status: TxStatus::Success,
        description: "многоязычный 🦀 text".into(),
    }];
    assert_eq!(read_bin(&write_bin(&txs)).unwrap(), txs);
}

#[test]
fn bin_reader_stops_quietly_on_short_tail() {
    let txs = bin_sample_transactions();
    let mut bytes = write_bin(&txs);
    bytes.extend_from_slice(&[0x59, 0x50, 0x42]);
    assert_eq!(read_bin(&bytes).unwrap(), txs);
    assert_eq!(read_bin(&[]).unwrap(), Vec::<Transaction>::new());
}

#[test]
fn bin_reader_reports_truncated_input_as_io() {
    let bytes = write_bin(&bin_sample_transactions());
    assert!(matches!(read_bin(&bytes[..6]), Err(ParserError::Io(e)) if e.kind() == std::io::ErrorKind::UnexpectedEof));
    assert!(matches!(read_bin(&bytes[..20]), Err(ParserError::Io(e)) if e.kind() == std::io::ErrorKind::UnexpectedEof));
    let mut cut = vec![0x59, 0x50, 0x42, 0x4E];
    cut.extend_from_slice(&100u32.to_be_bytes());
    cut.extend_from_slice(&[0u8; 10]);
    assert!(matches!(read_bin(&cut), Err(ParserError::Io(e)) if e.kind() == std::io::ErrorKind::UnexpectedEof));
}

#[test]
fn bin_reader_strips_quotes_around_description() {
    let tx = Transaction {
        tx_id: 9,
        tx_type: TxType::Deposit,
        from_user_id: 1,
        to_user_id: 1,
        amount: 0,
        timestamp: 0,
        status: TxStatus::Success,
        description: "\"\"quoted\"".into(),
    };
    let parsed = read_bin(&write_bin(&[tx])).unwrap();
    assert_eq!(parsed[0].description, "quoted");
}

#[test]
fn bin_invalid_utf8_description_is_format_error() {
    let mut body = Vec::new();
    write_u64(&mut body, 1);
    write_u8(&mut body, 0);
    write_u64(&mut body, 1);
    write_u64(&mut body, 1);
    write_i64(&mut body, 1);
    write_u64(&mut body, 1);
    write_u8(&mut body, 0);
    write_u32(&mut body, 2);
    body.extend_from_slice(&[0xff, 0xfe]);
    match parse_body(&body) {
        Err(ParserError::FormatParseError(msg)) => {
            assert!(msg.starts_with("Invalid UTF-8 in description: "));
            assert!(msg.len() > "Invalid UTF-8 in description: ".len());
        }
        other => panic!("Unexpected result: {:?}", other),
    }
}

#[test]
fn bin_invalid_byte_message_is_exact() {
    let mut body = Vec::new();
    write_u64(&mut body, 1);
    write_u8(&mut body, 200);
    match parse_body(&body) {
        Err(ParserError::InvalidTransactionType(msg)) => assert_eq!(msg, "Invalid byte: 200"),
        other => panic!("Unexpected result: {:?}", other),
    }
}

#[test]
fn bin_body_ignores_bytes_after_description() {
    let tx = bin_sample_transactions().remove(0);
    let bytes = write_bin(&[tx.clone()]);
    let mut body = bytes[8..].to_vec();
    body.extend_from_slice(&[1, 2, 3]);
    assert_eq!(parse_body(&body).unwrap(), tx);
}
