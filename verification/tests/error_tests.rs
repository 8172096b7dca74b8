use ypbank_parser::error::ParserError;

#[test]
fn display_io_error_contains_message() {
    let io_err = std::io::Error::other("boom");
    let err = ParserError::Io(io_err);
    let msg = err.to_string();
    assert!(msg.contains("IO error:"));
    assert!(msg.contains("boom"));
}

#[test]
fn display_format_parse_error_contains_message() {
    let err = ParserError::FormatParseError("bad header".into());
    let msg = err.to_string();
    assert!(msg.contains("Format parsing error:"));
    assert!(msg.contains("bad header"));
}

#[test]
fn display_invalid_transaction_status_and_type_contain_values() {
    let status_err = ParserError::InvalidTransactionStatus("X".into());
    let type_err = ParserError::InvalidTransactionType("Y".into());

    assert!(status_err.to_string().contains("Invalid transaction state: X"));
    assert!(type_err.to_string().contains("Invalid transaction type: Y"));
}

#[test]
fn display_missing_required_fields_contains_field_name() {
    let err = ParserError::MissingRequiredFields("TX_ID".into());
    let msg = err.to_string();
    assert!(msg.contains("Missing required transaction fields: TX_ID"));
}

#[test]
fn display_invalid_transaction_line_format_contains_line() {
    let err = ParserError::InvalidTransactionLineFormat { line: "oops".into() };
    let msg = err.to_string();
    assert!(msg.contains("Invalid transaction line format: oops"));
}

#[test]
fn display_duplicated_field_in_record_contains_key() {
    let err = ParserError::DuplicatedFieldInRecord { key: "STATUS".into() };
    let msg = err.to_string();
    assert!(msg.contains("Duplicate field 'STATUS' in record"));
}

#[test]
fn display_utf8_error_contains_message() {
    let err = ParserError::Utf8Error("broken utf8".into());
    let msg = err.to_string();
    assert!(msg.contains("Error parsing UTF-8: broken utf8"));
}

#[test]
fn from_io_error_creates_io_variant() {
    let io_err = std::io::Error::other("io");
    let err: ParserError = io_err.into();
    match err {
        ParserError::Io(e) => assert_eq!(e.to_string(), "io"),
        other => panic!("Unexpected variant: {:?}", other),
    }
}

#[test]
fn from_parse_int_error_creates_parse_int_variant() {
    let parse_err = "abc".parse::<u32>().unwrap_err();
    let err: ParserError = parse_err.into();
    match err {
        ParserError::ParseIntError(_) => {}
        other => panic!("Unexpected variant: {:?}", other),
    }
}

#[test]
fn from_utf8_error_creates_utf8_variant() {
    let bytes = vec![0xff, 0xfe];
    let utf8_err = String::from_utf8(bytes).unwrap_err();
    let err: ParserError = utf8_err.into();
    match err {
        ParserError::Utf8Error(msg) => {
            assert!(msg.contains("invalid utf-8 sequence"));
        }
        other => panic!("Unexpected variant: {:?}", other),
    }
}

#[test]
fn display_messages_are_exact() {
    assert_eq!(ParserError::FormatParseError("x".into()).to_string(), "Format parsing error: x");
    assert_eq!(ParserError::InvalidTransactionStatus("s".into()).to_string(), "Invalid transaction state: s");
    assert_eq!(ParserError::InvalidTransactionType("t".into()).to_string(), "Invalid transaction type: t");
    assert_eq!(ParserError::MissingRequiredFields("F".into()).to_string(), "Missing required transaction fields: F");
    assert_eq!(
        ParserError::InvalidTransactionLineFormat { line: "l".into() }.to_string(),
        "Invalid transaction line format: l"
    );
    assert_eq!(ParserError::DuplicatedFieldInRecord { key: "K".into() }.to_string(), "Duplicate field 'K' in record");
    assert_eq!(ParserError::Utf8Error("u".into()).to_string(), "Error parsing UTF-8: u");
    let parse_err = "".parse::<u64>().unwrap_err();
    let text = ParserError::ParseIntError(parse_err).to_string();
    assert!(text.starts_with("Error parsing integer: "));
    assert!(text.len() > "Error parsing integer: ".len());
}
