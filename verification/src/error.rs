//! The error type that every reader and writer of the crate reports.

use vstd::prelude::*;
use vstd::string::to_string_from_display_ensures;

verus! {

#[verifier::external_type_specification]
#[verifier::external_body]
pub struct ExIoError(std::io::Error);

#[verifier::external_type_specification]
#[verifier::external_body]
pub struct ExParseIntError(std::num::ParseIntError);

#[verifier::external_type_specification]
#[verifier::external_body]
pub struct ExFromUtf8Error(std::string::FromUtf8Error);

/// An error while parsing or serialising transactions.
#[derive(Debug)]
pub enum ParserError {
    /// An input/output error while reading or writing data.
    Io(std::io::Error),
    /// A malformed file (a wrong header or magic, for instance).
    FormatParseError(String),
    /// An unknown transaction status.
    InvalidTransactionStatus(String),
    /// An unknown transaction type.
    InvalidTransactionType(String),
    /// A record lacks a required field.
    MissingRequiredFields(String),
    /// An integer field could not be parsed.
    ParseIntError(std::num::ParseIntError),
    /// A malformed line of the text format.
    InvalidTransactionLineFormat {
        /// The line as read.
        line: String,
    },
    /// A field occurs twice in one record of the text format.
    DuplicatedFieldInRecord {
        /// The name of the repeated field.
        key: String,
    },
    /// Bytes that are not valid UTF-8.
    Utf8Error(String),
}

/// The kinds of input/output error that reading tells apart: what
/// `std::io::Error::kind` gives, with every kind but these two as `Other`.
pub enum IoErrorKind {
    /// `std::io::ErrorKind::UnexpectedEof`: the input ended too early.
    UnexpectedEof,
    /// `std::io::ErrorKind::InvalidData`: the input was malformed.
    InvalidData,
    /// Any other kind.
    Other,
}

/// The kind of an I/O error, as `std::io::Error::kind` gives it (see
/// [`IoErrorKind`]).
pub uninterp spec fn io_error_kind(e: std::io::Error) -> IoErrorKind;

/// What a [`ParserError`] says, with its texts as character sequences and
/// the kind of an I/O error. The error value in the `ParseIntError`
/// variant is opaque.
pub enum ParserFault {
    Io(IoErrorKind),
    FormatParseError(Seq<char>),
    InvalidTransactionStatus(Seq<char>),
    InvalidTransactionType(Seq<char>),
    MissingRequiredFields(Seq<char>),
    ParseIntError,
    InvalidTransactionLineFormat(Seq<char>),
    DuplicatedFieldInRecord(Seq<char>),
    Utf8Error(Seq<char>),
}

impl View for ParserError {
    type V = ParserFault;

    open spec fn view(&self) -> ParserFault {
        match self {
            ParserError::Io(e) => ParserFault::Io(io_error_kind(*e)),
            ParserError::FormatParseError(s) => ParserFault::FormatParseError(s@),
            ParserError::InvalidTransactionStatus(s) => ParserFault::InvalidTransactionStatus(s@),
            ParserError::InvalidTransactionType(s) => ParserFault::InvalidTransactionType(s@),
            ParserError::MissingRequiredFields(s) => ParserFault::MissingRequiredFields(s@),
            ParserError::ParseIntError(_) => ParserFault::ParseIntError,
            ParserError::InvalidTransactionLineFormat { line } => ParserFault::InvalidTransactionLineFormat(line@),
            ParserError::DuplicatedFieldInRecord { key } => ParserFault::DuplicatedFieldInRecord(key@),
            ParserError::Utf8Error(s) => ParserFault::Utf8Error(s@),
        }
    }
}

/// The error that `Read::read_exact` reports when the input ends before the
/// buffer is full. Calls `std::io::Error::new` with
/// `ErrorKind::UnexpectedEof`, whose documentation says that `kind` then
/// gives that kind back; its message is not stated.
#[verifier::external_body]
pub fn unexpected_eof_error() -> (e: std::io::Error)
    ensures
        io_error_kind(e) == IoErrorKind::UnexpectedEof,
{
    std::io::Error::new(std::io::ErrorKind::UnexpectedEof, "failed to fill whole buffer")
}

/// The error that `BufRead::lines` reports for a line that is not valid UTF-8.
/// Calls `std::io::Error::new` with `ErrorKind::InvalidData`, whose
/// documentation says that `kind` then gives that kind back; its message is
/// not stated.
#[verifier::external_body]
pub fn invalid_utf8_line_error() -> (e: std::io::Error)
    ensures
        io_error_kind(e) == IoErrorKind::InvalidData,
{
    std::io::Error::new(std::io::ErrorKind::InvalidData, "stream did not contain valid UTF-8")
}

/// `s` opens with `p`.
pub open spec fn starts_with(s: Seq<char>, p: Seq<char>) -> bool {
    s.len() >= p.len() && s.subrange(0, p.len() as int) == p
}

/// Whether `s` is the message of an error with fault `f`. The errors of the
/// standard library in the `Io` and `ParseIntError` variants add their own
/// text after the opening.
pub open spec fn is_message_of(f: ParserFault, s: Seq<char>) -> bool {
    match f {
        ParserFault::Io(_) => starts_with(s, "IO error: "@),
        ParserFault::FormatParseError(m) => s == "Format parsing error: "@ + m,
        ParserFault::InvalidTransactionStatus(m) => s == "Invalid transaction state: "@ + m,
        ParserFault::InvalidTransactionType(m) => s == "Invalid transaction type: "@ + m,
        ParserFault::MissingRequiredFields(m) => s == "Missing required transaction fields: "@ + m,
        ParserFault::ParseIntError => starts_with(s, "Error parsing integer: "@),
        ParserFault::InvalidTransactionLineFormat(m) => s == "Invalid transaction line format: "@ + m,
        ParserFault::DuplicatedFieldInRecord(m) => s == "Duplicate field '"@ + m + "' in record"@,
        ParserFault::Utf8Error(m) => s == "Error parsing UTF-8: "@ + m,
    }
}

/// `opening` followed by `rest`.
fn joined(opening: &str, rest: &str) -> (s: String)
    ensures
        s@ == opening@ + rest@,
{
    let mut s = opening.to_owned();
    s.append(rest);
    s
}

impl ParserError {
    /// The human-readable message of the error.
    pub fn to_string(&self) -> (s: String)
        ensures
            is_message_of(self@, s@),
            self matches ParserError::Io(e) ==> exists|t: String|
                to_string_from_display_ensures::<std::io::Error>(&e, t) && s@ == "IO error: "@ + t@,
            self matches ParserError::ParseIntError(e) ==> exists|t: String|
                to_string_from_display_ensures::<std::num::ParseIntError>(&e, t) && s@ == "Error parsing integer: "@ + t@,
    {
        match self {
            ParserError::Io(e) => {
                let t = e.to_string();
                let s = joined("IO error: ", t.as_str());
                assert(s@.subrange(0, "IO error: "@.len() as int) =~= "IO error: "@);
                s
            },
            ParserError::FormatParseError(m) => joined("Format parsing error: ", m.as_str()),
            ParserError::InvalidTransactionStatus(m) => joined("Invalid transaction state: ", m.as_str()),
            ParserError::InvalidTransactionType(m) => joined("Invalid transaction type: ", m.as_str()),
            ParserError::MissingRequiredFields(m) => joined("Missing required transaction fields: ", m.as_str()),
            ParserError::ParseIntError(e) => {
                let t = e.to_string();
                let s = joined("Error parsing integer: ", t.as_str());
                assert(s@.subrange(0, "Error parsing integer: "@.len() as int) =~= "Error parsing integer: "@);
                s
            },
            ParserError::InvalidTransactionLineFormat { line } => joined("Invalid transaction line format: ", line.as_str()),
            ParserError::DuplicatedFieldInRecord { key } => {
                let mut s = joined("Duplicate field '", key.as_str());
                s.append("' in record");
                s
            },
            ParserError::Utf8Error(m) => joined("Error parsing UTF-8: ", m.as_str()),
        }
    }
}

impl From<std::io::Error> for ParserError {
    fn from(value: std::io::Error) -> (r: Self) {
        ParserError::Io(value)
    }
}

impl vstd::std_specs::convert::FromSpecImpl<std::io::Error> for ParserError {
    open spec fn obeys_from_spec() -> bool {
        true
    }

    open spec fn from_spec(v: std::io::Error) -> Self {
        ParserError::Io(v)
    }
}

impl From<std::num::ParseIntError> for ParserError {
    fn from(value: std::num::ParseIntError) -> (r: Self) {
        ParserError::ParseIntError(value)
    }
}

impl vstd::std_specs::convert::FromSpecImpl<std::num::ParseIntError> for ParserError {
    open spec fn obeys_from_spec() -> bool {
        true
    }

    open spec fn from_spec(v: std::num::ParseIntError) -> Self {
        ParserError::ParseIntError(v)
    }
}

impl From<std::string::FromUtf8Error> for ParserError {
    fn from(err: std::string::FromUtf8Error) -> (r: Self)
        ensures
            r matches ParserError::Utf8Error(m) && to_string_from_display_ensures::<std::string::FromUtf8Error>(&err, m),
    {
        ParserError::Utf8Error(err.to_string())
    }
}

/// The conversion keeps the error's display text, which `from` states;
/// that text is not a function of values that a spec here can name, so no
/// `from_spec` is given.
impl vstd::std_specs::convert::FromSpecImpl<std::string::FromUtf8Error> for ParserError {
    open spec fn obeys_from_spec() -> bool {
        false
    }

    open spec fn from_spec(v: std::string::FromUtf8Error) -> Self {
        ParserError::Utf8Error(vstd::pervasive::arbitrary())
    }
}

} // verus!
