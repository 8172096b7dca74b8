use std::str::FromStr;
use ypbank_parser::error::ParserError;
use ypbank_parser::transaction::{TxStatus, TxType};

#[test]
fn tx_type_from_str_parses_valid_values() {
    assert_eq!(TxType::from_str("DEPOSIT").unwrap(), TxType::Deposit);
    assert_eq!(TxType::from_str("TRANSFER").unwrap(), TxType::Transfer);
    assert_eq!(TxType::from_str("WITHDRAWAL").unwrap(), TxType::Withdrawal);
}

#[test]
fn tx_type_from_str_returns_error_on_invalid_value() {
    let err = TxType::from_str("UNKNOWN").unwrap_err();
    match err {
        ParserError::InvalidTransactionType(s) => {
            assert_eq!(s, "UNKNOWN");
        }
        other => panic!("Unexpected error variant: {:?}", other),
    }
}

#[test]
fn tx_status_from_str_parses_valid_values() {
    assert_eq!(TxStatus::from_str("SUCCESS").unwrap(), TxStatus::Success);
    assert_eq!(TxStatus::from_str("FAILURE").unwrap(), TxStatus::Failure);
    assert_eq!(TxStatus::from_str("PENDING").unwrap(), TxStatus::Pending);
}

#[test]
fn tx_status_from_str_returns_error_on_invalid_value() {
    let err = TxStatus::from_str("BROKEN").unwrap_err();
    match err {
        ParserError::InvalidTransactionStatus(s) => {
            assert_eq!(s, "BROKEN");
        }
        other => panic!("Unexpected error variant: {:?}", other),
    }
}

#[test]
fn tx_type_display_matches_string_representation() {
    assert_eq!(TxType::Deposit.to_string(), "DEPOSIT");
    assert_eq!(TxType::Transfer.to_string(), "TRANSFER");
    assert_eq!(TxType::Withdrawal.to_string(), "WITHDRAWAL");
}

#[test]
fn tx_status_display_matches_string_representation() {
    assert_eq!(TxStatus::Success.to_string(), "SUCCESS");
    assert_eq!(TxStatus::Failure.to_string(), "FAILURE");
    assert_eq!(TxStatus::Pending.to_string(), "PENDING");
}

#[test]
fn tx_type_u8_roundtrip_is_consistent() {
    for ty in [TxType::Deposit, TxType::Transfer, TxType::Withdrawal] {
        let byte = ty.to_u8();
        let parsed = TxType::from_u8(byte).expect("valid byte");
        assert_eq!(parsed, ty);
    }
}

#[test]
fn tx_type_from_u8_invalid_values_return_none() {
    assert!(TxType::from_u8(3).is_none());
    assert!(TxType::from_u8(255).is_none());
}

#[test]
fn tx_status_u8_roundtrip_is_consistent() {
    for status in [TxStatus::Success, TxStatus::Failure, TxStatus::Pending] {
        let byte = status.to_u8();
        let parsed = TxStatus::from_u8(byte).expect("valid byte");
        assert_eq!(parsed, status);
    }
}

#[test]
fn tx_status_from_u8_invalid_values_return_none() {
    assert!(TxStatus::from_u8(3).is_none());
    assert!(TxStatus::from_u8(255).is_none());
}

#[test]
fn tx_codes_are_fixed_bytes() {
    assert_eq!(TxType::Deposit.to_u8(), 0);
    assert_eq!(TxType::Transfer.to_u8(), 1);
    assert_eq!(TxType::Withdrawal.to_u8(), 2);
    assert_eq!(TxStatus::Success.to_u8(), 0);
    assert_eq!(TxStatus::Failure.to_u8(), 1);
    assert_eq!(TxStatus::Pending.to_u8(), 2);
    assert_eq!(TxType::from_u8(1), Some(TxType::Transfer));
    assert_eq!(TxStatus::from_u8(2), Some(TxStatus::Pending));
}

#[test]
fn tx_names_read_back_and_are_case_sensitive() {
    for ty in [TxType::Deposit, TxType::Transfer, TxType::Withdrawal] {
        assert_eq!(TxType::parse_name(ty.to_string().as_str()).unwrap(), ty);
    }
    for st in [TxStatus::Success, TxStatus::Failure, TxStatus::Pending] {
        assert_eq!(TxStatus::parse_name(st.to_string().as_str()).unwrap(), st);
    }
    assert!(TxType::from_str("deposit").is_err());
    assert!(TxType::from_str(" DEPOSIT").is_err());
    assert!(TxStatus::from_str("").is_err());
}
