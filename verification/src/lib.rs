//! Reading and writing lists of YPBank transactions in the CSV, text and
//! binary formats.
//!
//! 1. Pick the format with [`parse_format`].
//! 2. Read transactions from the bytes of an input with [`read_transactions`].
//! 3. Write them in any format with [`write_transactions`].

pub mod bin_format;
pub mod compare;
pub mod csv_format;
pub mod error;
pub mod text;
pub mod transaction;
pub mod txt_format;

use vstd::prelude::*;
use vstd::utf8::encode_utf8;
use crate::bin_format::{bin_faithful, fault_agrees, lemma_bin_roundtrip, read_bin, spec_read_bin, spec_write_bin, write_bin};
use crate::csv_format::{csv_faithful, lemma_csv_roundtrip, read_csv, spec_csv_text, spec_read_csv, write_csv};
use crate::error::{ParserError, ParserFault};
use crate::text::{chars_equal_str, chars_of, lemma_final_newline_optional};
use crate::transaction::{records, Transaction, TxRecord};
use crate::txt_format::{lemma_txt_roundtrip, read_txt, spec_read_txt, spec_txt_text, txt_faithful, write_txt};

verus! {

/// A file format for transactions.
#[derive(Debug, Clone, Copy, PartialEq, Eq, Structural)]
pub enum Format {
    /// A CSV file with a header line and one line per record.
    Csv,
    /// The human-readable text format.
    Text,
    /// The compact binary format.
    Binary,
}

/// The format that a name denotes: `csv`, `text` or `txt`, `binary` or `bin`.
pub open spec fn format_named(s: Seq<char>) -> Option<Format> {
    if s == "csv"@ {
        Some(Format::Csv)
    } else if s == "text"@ || s == "txt"@ {
        Some(Format::Text)
    } else if s == "binary"@ || s == "bin"@ {
        Some(Format::Binary)
    } else {
        None
    }
}

/// The format that a name denotes, if any.
pub fn format_from_name(s: &str) -> (r: Option<Format>)
    ensures
        r == format_named(s@),
{
    let v = chars_of(s);
    if chars_equal_str(v.as_slice(), "csv") {
        Some(Format::Csv)
    } else if chars_equal_str(v.as_slice(), "text") || chars_equal_str(v.as_slice(), "txt") {
        Some(Format::Text)
    } else if chars_equal_str(v.as_slice(), "binary") || chars_equal_str(v.as_slice(), "bin") {
        Some(Format::Binary)
    } else {
        None
    }
}

/// The format that a supported name denotes (`csv`, `text`, `txt`, `binary`,
/// `bin`); callers check the name first, as any other name has no format.
pub fn parse_format(s: &str) -> (f: Format)
    requires
        format_named(s@) is Some,
    ensures
        format_named(s@) == Some(f),
{
    match format_from_name(s) {
        Some(f) => f,
        None => Format::Csv,
    }
}

/// What reading an input in a format gives: the transactions, or the
/// fault that stops reading (see [`fault_agrees`]).
pub open spec fn spec_read_transactions(format: Format, data: Seq<u8>) -> Result<Seq<TxRecord>, Option<ParserFault>> {
    let lifted = |r: Result<Seq<TxRecord>, ParserFault>| match r {
        Ok(recs) => Ok(recs),
        Err(f) => Err(Some(f)),
    };
    match format {
        Format::Csv => lifted(spec_read_csv(data)),
        Format::Text => lifted(spec_read_txt(data)),
        Format::Binary => spec_read_bin(data),
    }
}

/// Reads the transactions of an input in the given format.
pub fn read_transactions(format: Format, data: &[u8]) -> (r: Result<Vec<Transaction>, ParserError>)
    ensures
        match spec_read_transactions(format, data@) {
            Ok(recs) => r matches Ok(txs) && records(txs@) == recs,
            Err(f) => r matches Err(e) && fault_agrees(e@, f),
        },
{
    match format {
        Format::Csv => read_csv(data),
        Format::Text => read_txt(data),
        Format::Binary => read_bin(data),
    }
}

/// The bytes that writing transactions in a format gives.
pub open spec fn spec_write_transactions(format: Format, ts: Seq<TxRecord>) -> Seq<u8> {
    match format {
        Format::Csv => encode_utf8(spec_csv_text(ts)),
        Format::Text => encode_utf8(spec_txt_text(ts)),
        Format::Binary => spec_write_bin(ts),
    }
}

/// Writes transactions in the given format.
pub fn write_transactions(format: Format, transactions: &[Transaction]) -> (out: Vec<u8>)
    ensures
        out@ == spec_write_transactions(format, records(transactions@)),
{
    match format {
        Format::Csv => write_csv(transactions),
        Format::Text => write_txt(transactions),
        Format::Binary => write_bin(transactions),
    }
}

/// A transaction that a format carries unchanged: in the text formats a
/// description without line ends; in the binary format one that neither
/// begins nor ends with `"` and a record short enough for its length field.
pub open spec fn faithful(format: Format, t: TxRecord) -> bool {
    match format {
        Format::Csv => csv_faithful(t),
        Format::Text => txt_faithful(t),
        Format::Binary => bin_faithful(t),
    }
}

/// Reading what was written in a format gives back the transactions, when
/// the format carries each of them unchanged.
pub proof fn lemma_write_read_roundtrip(format: Format, ts: Seq<TxRecord>)
    requires
        forall|i: int| 0 <= i < ts.len() ==> faithful(format, #[trigger] ts[i]),
    ensures
        spec_read_transactions(format, spec_write_transactions(format, ts)) == Ok::<Seq<TxRecord>, Option<ParserFault>>(ts),
{
    match format {
        Format::Csv => {
            assert forall|i: int| 0 <= i < ts.len() implies csv_faithful(#[trigger] ts[i]) by {
                assert(faithful(format, ts[i]));
            }
            lemma_csv_roundtrip(ts);
        },
        Format::Text => {
            assert forall|i: int| 0 <= i < ts.len() implies txt_faithful(#[trigger] ts[i]) by {
                assert(faithful(format, ts[i]));
            }
            lemma_txt_roundtrip(ts);
        },
        Format::Binary => {
            assert forall|i: int| 0 <= i < ts.len() implies bin_faithful(#[trigger] ts[i]) by {
                assert(faithful(format, ts[i]));
            }
            lemma_bin_roundtrip(ts);
        },
    }
}

/// In the two text formats a final line end is optional: reading an input
/// whose last line has no line end gives what reading it with one gives.
pub proof fn lemma_text_final_newline_optional(format: Format, data: Seq<u8>)
    requires
        format != Format::Binary,
        data.len() > 0,
        data.last() != 10,
        data.last() != 13,
    ensures
        spec_read_transactions(format, data.push(10)) == spec_read_transactions(format, data),
{
    lemma_final_newline_optional(data);
}

} // verus!
