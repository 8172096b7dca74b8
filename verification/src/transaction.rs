//! YPBank transactions and their field types.

use vstd::prelude::*;
use crate::error::{ParserError, ParserFault};
use crate::text::{chars_of, chars_equal_str};

verus! {

/// The type of a bank transaction.
#[derive(Debug, PartialEq, Eq, Clone, Copy, Structural)]
pub enum TxType {
    /// Money paid into an account.
    Deposit,
    /// Money moved between users.
    Transfer,
    /// Money taken from an account.
    Withdrawal,
}

/// The processing status of a transaction.
#[derive(Debug, PartialEq, Eq, Clone, Copy, Structural)]
pub enum TxStatus {
    /// The transaction went through.
    Success,
    /// The transaction failed.
    Failure,
    /// The transaction is still being processed.
    Pending,
}

/// One YPBank transaction.
#[derive(Debug, Clone, Eq)]
pub struct Transaction {
    /// Unique transaction identifier.
    pub tx_id: u64,
    /// Transaction type.
    pub tx_type: TxType,
    /// Sending user.
    pub from_user_id: u64,
    /// Receiving user.
    pub to_user_id: u64,
    /// Amount in the smallest currency unit (may be negative).
    pub amount: i64,
    /// Time of the transaction (usually a Unix timestamp).
    pub timestamp: u64,
    /// Processing status.
    pub status: TxStatus,
    /// Human-readable description.
    pub description: String,
}

/// A transaction as a mathematical value: its description as characters.
pub struct TxRecord {
    pub tx_id: u64,
    pub tx_type: TxType,
    pub from_user_id: u64,
    pub to_user_id: u64,
    pub amount: i64,
    pub timestamp: u64,
    pub status: TxStatus,
    pub description: Seq<char>,
}

impl View for Transaction {
    type V = TxRecord;

    open spec fn view(&self) -> TxRecord {
        TxRecord {
            tx_id: self.tx_id,
            tx_type: self.tx_type,
            from_user_id: self.from_user_id,
            to_user_id: self.to_user_id,
            amount: self.amount,
            timestamp: self.timestamp,
            status: self.status,
            description: self.description@,
        }
    }
}

/// Two transactions are equal when all their fields are.
impl PartialEq for Transaction {
    fn eq(&self, other: &Self) -> (r: bool) {
        self.tx_id == other.tx_id && self.tx_type == other.tx_type && self.from_user_id == other.from_user_id
            && self.to_user_id == other.to_user_id && self.amount == other.amount && self.timestamp == other.timestamp
            && self.status == other.status && self.description == other.description
    }
}

impl vstd::std_specs::cmp::PartialEqSpecImpl for Transaction {
    open spec fn obeys_eq_spec() -> bool {
        true
    }

    open spec fn eq_spec(&self, other: &Self) -> bool {
        self@ == other@
    }
}

/// The records of a list of transactions.
pub open spec fn records(txs: Seq<Transaction>) -> Seq<TxRecord> {
    txs.map_values(|t: Transaction| t@)
}

/// Records read so far, followed by what the rest of the input gives.
pub open spec fn prepend_records<F>(done: Seq<TxRecord>, rest: Result<Seq<TxRecord>, F>) -> Result<Seq<TxRecord>, F> {
    match rest {
        Ok(more) => Ok(done + more),
        Err(f) => Err(f),
    }
}

/// Whether `v` holds the characters of the literal `lit`, with the
/// literal's characters made known to the caller.
fn is_word(v: &[char], lit: &str) -> (r: bool)
    ensures
        r == (v@ == lit@),
{
    chars_equal_str(v, lit)
}

impl TxType {
    /// The byte that encodes the type.
    pub open spec fn code(self) -> u8 {
        match self {
            TxType::Deposit => 0,
            TxType::Transfer => 1,
            TxType::Withdrawal => 2,
        }
    }

    /// The type that a byte encodes, if any.
    pub open spec fn from_code(byte: u8) -> Option<TxType> {
        if byte == 0 {
            Some(TxType::Deposit)
        } else if byte == 1 {
            Some(TxType::Transfer)
        } else if byte == 2 {
            Some(TxType::Withdrawal)
        } else {
            None
        }
    }

    /// The text of the type.
    pub open spec fn name(self) -> Seq<char> {
        match self {
            TxType::Deposit => seq!['D', 'E', 'P', 'O', 'S', 'I', 'T'],
            TxType::Transfer => seq!['T', 'R', 'A', 'N', 'S', 'F', 'E', 'R'],
            TxType::Withdrawal => seq!['W', 'I', 'T', 'H', 'D', 'R', 'A', 'W', 'A', 'L'],
        }
    }

    /// The type whose text is `s`, if any.
    pub open spec fn from_name(s: Seq<char>) -> Option<TxType> {
        if s == TxType::Deposit.name() {
            Some(TxType::Deposit)
        } else if s == TxType::Transfer.name() {
            Some(TxType::Transfer)
        } else if s == TxType::Withdrawal.name() {
            Some(TxType::Withdrawal)
        } else {
            None
        }
    }

    /// Decodes a type from its byte; `None` for an unknown byte.
    pub fn from_u8(byte: u8) -> (r: Option<Self>)
        ensures
            r == Self::from_code(byte),
    {
        match byte {
            0 => Some(TxType::Deposit),
            1 => Some(TxType::Transfer),
            2 => Some(TxType::Withdrawal),
            _ => None,
        }
    }

    /// Encodes the type in one byte.
    pub fn to_u8(&self) -> (b: u8)
        ensures
            b == self.code(),
    {
        match self {
            TxType::Deposit => 0,
            TxType::Transfer => 1,
            TxType::Withdrawal => 2,
        }
    }

    /// Reads a type from its text (`DEPOSIT`, `TRANSFER`, `WITHDRAWAL`);
    /// any other text is an `InvalidTransactionType` error carrying it.
    pub fn parse_name(s: &str) -> (r: Result<Self, ParserError>)
        ensures
            match Self::from_name(s@) {
                Some(t) => r == Ok::<TxType, ParserError>(t),
                None => r matches Err(e) && e@ == ParserFault::InvalidTransactionType(s@),
            },
    {
        let v = chars_of(s);
        proof {
            reveal_strlit("DEPOSIT");
            reveal_strlit("TRANSFER");
            reveal_strlit("WITHDRAWAL");
            assert("DEPOSIT"@ =~= TxType::Deposit.name());
            assert("TRANSFER"@ =~= TxType::Transfer.name());
            assert("WITHDRAWAL"@ =~= TxType::Withdrawal.name());
        }
        if is_word(v.as_slice(), "DEPOSIT") {
            Ok(TxType::Deposit)
        } else if is_word(v.as_slice(), "TRANSFER") {
            Ok(TxType::Transfer)
        } else if is_word(v.as_slice(), "WITHDRAWAL") {
            Ok(TxType::Withdrawal)
        } else {
            Err(ParserError::InvalidTransactionType(s.to_owned()))
        }
    }

    /// The text of the type.
    pub fn to_string(&self) -> (s: String)
        ensures
            s@ == self.name(),
    {
        proof {
            reveal_strlit("DEPOSIT");
            reveal_strlit("TRANSFER");
            reveal_strlit("WITHDRAWAL");
        }
        match self {
            TxType::Deposit => "DEPOSIT".to_owned(),
            TxType::Transfer => "TRANSFER".to_owned(),
            TxType::Withdrawal => "WITHDRAWAL".to_owned(),
        }
    }
}

impl std::str::FromStr for TxType {
    type Err = ParserError;

    fn from_str(s: &str) -> (r: Result<Self, Self::Err>)
        ensures
            match TxType::from_name(s@) {
                Some(t) => r == Ok::<TxType, ParserError>(t),
                None => r matches Err(e) && e@ == ParserFault::InvalidTransactionType(s@),
            },
    {
        TxType::parse_name(s)
    }
}

impl TxStatus {
    /// The byte that encodes the status.
    pub open spec fn code(self) -> u8 {
        match self {
            TxStatus::Success => 0,
            TxStatus::Failure => 1,
            TxStatus::Pending => 2,
        }
    }

    /// The status that a byte encodes, if any.
    pub open spec fn from_code(byte: u8) -> Option<TxStatus> {
        if byte == 0 {
            Some(TxStatus::Success)
        } else if byte == 1 {
            Some(TxStatus::Failure)
        } else if byte == 2 {
            Some(TxStatus::Pending)
        } else {
            None
        }
    }

    /// The text of the status.
    pub open spec fn name(self) -> Seq<char> {
        match self {
            TxStatus::Success => seq!['S', 'U', 'C', 'C', 'E', 'S', 'S'],
            TxStatus::Failure => seq!['F', 'A', 'I', 'L', 'U', 'R', 'E'],
            TxStatus::Pending => seq!['P', 'E', 'N', 'D', 'I', 'N', 'G'],
        }
    }

    /// The status whose text is `s`, if any.
    pub open spec fn from_name(s: Seq<char>) -> Option<TxStatus> {
        if s == TxStatus::Success.name() {
            Some(TxStatus::Success)
        } else if s == TxStatus::Failure.name() {
            Some(TxStatus::Failure)
        } else if s == TxStatus::Pending.name() {
            Some(TxStatus::Pending)
        } else {
            None
        }
    }

    /// Decodes a status from its byte; `None` for an unknown byte.
    pub fn from_u8(byte: u8) -> (r: Option<Self>)
        ensures
            r == Self::from_code(byte),
    {
        match byte {
            0 => Some(TxStatus::Success),
            1 => Some(TxStatus::Failure),
            2 => Some(TxStatus::Pending),
            _ => None,
        }
    }

    /// Encodes the status in one byte.
    pub fn to_u8(&self) -> (b: u8)
        ensures
            b == self.code(),
    {
        match self {
            TxStatus::Success => 0,
            TxStatus::Failure => 1,
            TxStatus::Pending => 2,
        }
    }

    /// Reads a status from its text (`SUCCESS`, `FAILURE`, `PENDING`);
    /// any other text is an `InvalidTransactionStatus` error carrying it.
    pub fn parse_name(s: &str) -> (r: Result<Self, ParserError>)
        ensures
            match Self::from_name(s@) {
                Some(t) => r == Ok::<TxStatus, ParserError>(t),
                None => r matches Err(e) && e@ == ParserFault::InvalidTransactionStatus(s@),
            },
    {
        let v = chars_of(s);
        proof {
            reveal_strlit("SUCCESS");
            reveal_strlit("FAILURE");
            reveal_strlit("PENDING");
            assert("SUCCESS"@ =~= TxStatus::Success.name());
            assert("FAILURE"@ =~= TxStatus::Failure.name());
            assert("PENDING"@ =~= TxStatus::Pending.name());
        }
        if is_word(v.as_slice(), "SUCCESS") {
            Ok(TxStatus::Success)
        } else if is_word(v.as_slice(), "FAILURE") {
            Ok(TxStatus::Failure)
        } else if is_word(v.as_slice(), "PENDING") {
            Ok(TxStatus::Pending)
        } else {
            Err(ParserError::InvalidTransactionStatus(s.to_owned()))
        }
    }

    /// The text of the status.
    pub fn to_string(&self) -> (s: String)
        ensures
            s@ == self.name(),
    {
        proof {
            reveal_strlit("SUCCESS");
            reveal_strlit("FAILURE");
            reveal_strlit("PENDING");
        }
        match self {
            TxStatus::Success => "SUCCESS".to_owned(),
            TxStatus::Failure => "FAILURE".to_owned(),
            TxStatus::Pending => "PENDING".to_owned(),
        }
    }
}

impl std::str::FromStr for TxStatus {
    type Err = ParserError;

    fn from_str(s: &str) -> (r: Result<Self, Self::Err>)
        ensures
            match TxStatus::from_name(s@) {
                Some(t) => r == Ok::<TxStatus, ParserError>(t),
                None => r matches Err(e) && e@ == ParserFault::InvalidTransactionStatus(s@),
            },
    {
        TxStatus::parse_name(s)
    }
}

/// The byte code of a type decodes to that type, and a byte that decodes
/// to a type is that type's code.
pub proof fn lemma_tx_type_code_roundtrip(t: TxType, byte: u8)
    ensures
        TxType::from_code(t.code()) == Some(t),
        TxType::from_code(byte) == Some(t) ==> t.code() == byte,
{
}

/// The byte code of a status decodes to that status, and a byte that
/// decodes to a status is that status's code.
pub proof fn lemma_tx_status_code_roundtrip(s: TxStatus, byte: u8)
    ensures
        TxStatus::from_code(s.code()) == Some(s),
        TxStatus::from_code(byte) == Some(s) ==> s.code() == byte,
{
}

/// The text of a type reads back as that type, and a text that reads as a
/// type is that type's text.
pub proof fn lemma_tx_type_name_roundtrip(t: TxType, text: Seq<char>)
    ensures
        TxType::from_name(t.name()) == Some(t),
        TxType::from_name(text) == Some(t) ==> t.name() == text,
{
    assert(TxType::Deposit.name() != TxType::Transfer.name());
    assert(TxType::Deposit.name() != TxType::Withdrawal.name());
    assert(TxType::Transfer.name() != TxType::Withdrawal.name());
}

/// The text of a status reads back as that status, and a text that reads as
/// a status is that status's text.
pub proof fn lemma_tx_status_name_roundtrip(s: TxStatus, text: Seq<char>)
    ensures
        TxStatus::from_name(s.name()) == Some(s),
        TxStatus::from_name(text) == Some(s) ==> s.name() == text,
{
    assert(TxStatus::Success.name()[0] != TxStatus::Failure.name()[0]);
    assert(TxStatus::Success.name()[0] != TxStatus::Pending.name()[0]);
    assert(TxStatus::Failure.name()[0] != TxStatus::Pending.name()[0]);
}

} // verus!
