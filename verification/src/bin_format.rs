//! The binary format: each record is the magic `YPBN`, the length of its
//! body as a big-endian `u32`, and the body with the fields in a fixed order.

use vstd::prelude::*;
use vstd::utf8::{decode_utf8, encode_utf8, encode_utf8_decode_utf8, encode_utf8_valid_utf8, valid_utf8};
use crate::error::{IoErrorKind, unexpected_eof_error, ParserError, ParserFault};
use crate::text::{chars_of, decimal, quote_test, strip_end, strip_start, push_bytes, push_decimal, string_from_utf8, string_of,
    trim_quote_marks, trim_quotes};
use crate::transaction::{prepend_records, records, Transaction, TxRecord, TxStatus, TxType};

verus! {

/// The four bytes that open every record: `YPBN`.
pub const MAGIC: [u8; 4] = [0x59, 0x50, 0x42, 0x4E];

/// The four bytes that open every record.
pub open spec fn magic() -> Seq<u8> {
    seq![0x59u8, 0x50u8, 0x42u8, 0x4Eu8]
}

/// `256` to the power `n`.
pub open spec fn pow256(n: nat) -> nat
    decreases n,
{
    if n == 0 {
        1
    } else {
        256 * pow256((n - 1) as nat)
    }
}

/// The value of bytes read as a big-endian unsigned integer.
pub open spec fn be_value(s: Seq<u8>) -> nat
    decreases s.len(),
{
    if s.len() == 0 {
        0
    } else {
        be_value(s.drop_last()) * 256 + s.last() as nat
    }
}

/// The last `n` bytes of `v` in big-endian order.
pub open spec fn be_bytes(v: nat, n: nat) -> Seq<u8>
    decreases n,
{
    if n == 0 {
        seq![]
    } else {
        be_bytes(v / 256, (n - 1) as nat).push((v % 256) as u8)
    }
}

/// The `i64` whose two's-complement bits are `u`.
pub open spec fn i64_of_bits(u: nat) -> i64 {
    if u < 0x8000_0000_0000_0000 {
        u as i64
    } else {
        (u - 0x1_0000_0000_0000_0000) as i64
    }
}

/// The two's-complement bits of `v`.
pub open spec fn bits_of_i64(v: i64) -> nat {
    if v < 0 {
        (v + 0x1_0000_0000_0000_0000) as nat
    } else {
        v as nat
    }
}

/// Amounts travel in two's complement: the bits written for an amount are
/// a number below `2^64` that equals the amount modulo `2^64`, and the amount
/// read from bits below `2^64` equals them modulo `2^64`. As exactly one
/// number of each range is congruent to a given one, this fixes both.
pub proof fn lemma_amount_twos_complement(v: i64, u: nat)
    requires
        u < 0x1_0000_0000_0000_0000,
    ensures
        bits_of_i64(v) < 0x1_0000_0000_0000_0000,
        (bits_of_i64(v) as int) % 0x1_0000_0000_0000_0000 == (v as int) % 0x1_0000_0000_0000_0000,
        (i64_of_bits(u) as int) % 0x1_0000_0000_0000_0000 == (u as int) % 0x1_0000_0000_0000_0000,
{
    let m: int = 0x1_0000_0000_0000_0000;
    vstd::arithmetic::div_mod::lemma_mod_add_multiples_vanish(v as int, m);
    vstd::arithmetic::div_mod::lemma_mod_sub_multiples_vanish(u as int, m);
}

/// The message for a type or status byte that encodes nothing.
pub open spec fn invalid_byte_message(b: u8) -> Seq<char> {
    "Invalid byte: "@ + decimal(b as nat)
}

/// The opening of the message for a description that is not UTF-8; the text
/// of the standard library's `FromUtf8Error` follows it.
pub open spec fn bad_description_prefix() -> Seq<char> {
    "Invalid UTF-8 in description: "@
}

/// Whether the fault `e` is what `expected` describes: `Some(f)` is the fault
/// `f` itself; `None` is a `FormatParseError` whose message opens with
/// [`bad_description_prefix`].
pub open spec fn fault_agrees(e: ParserFault, expected: Option<ParserFault>) -> bool {
    match expected {
        Some(f) => e == f,
        None => e matches ParserFault::FormatParseError(m) && m.len() >= bad_description_prefix().len()
            && m.subrange(0, bad_description_prefix().len() as int) == bad_description_prefix(),
    }
}

/// The transaction that a record body holds, or the fault of reading it.
/// A body too short for a field ends the input early (an I/O fault); bytes
/// after the description are ignored.
pub open spec fn spec_parse_body(b: Seq<u8>) -> Result<TxRecord, Option<ParserFault>> {
    if b.len() < 9 {
        Err(Some(ParserFault::Io(IoErrorKind::UnexpectedEof)))
    } else if TxType::from_code(b[8]) is None {
        Err(Some(ParserFault::InvalidTransactionType(invalid_byte_message(b[8]))))
    } else if b.len() < 42 {
        Err(Some(ParserFault::Io(IoErrorKind::UnexpectedEof)))
    } else if TxStatus::from_code(b[41]) is None {
        Err(Some(ParserFault::InvalidTransactionStatus(invalid_byte_message(b[41]))))
    } else if b.len() < 46 {
        Err(Some(ParserFault::Io(IoErrorKind::UnexpectedEof)))
    } else {
        let n = be_value(b.subrange(42, 46)) as int;
        if b.len() < 46 + n {
            Err(Some(ParserFault::Io(IoErrorKind::UnexpectedEof)))
        } else {
            let d = b.subrange(46, 46 + n);
            if !valid_utf8(d) {
                Err(None)
            } else {
                Ok(TxRecord {
                    tx_id: be_value(b.subrange(0, 8)) as u64,
                    tx_type: TxType::from_code(b[8]).unwrap(),
                    from_user_id: be_value(b.subrange(9, 17)) as u64,
                    to_user_id: be_value(b.subrange(17, 25)) as u64,
                    amount: i64_of_bits(be_value(b.subrange(25, 33))),
                    timestamp: be_value(b.subrange(33, 41)) as u64,
                    status: TxStatus::from_code(b[41]).unwrap(),
                    description: trim_quotes(decode_utf8(d)),
                })
            }
        }
    }
}

/// The transactions of a binary input, or the fault that stops reading.
/// Fewer than four bytes left end the input quietly.
pub open spec fn spec_read_bin(data: Seq<u8>) -> Result<Seq<TxRecord>, Option<ParserFault>>
    decreases data.len(),
{
    if data.len() < 4 {
        Ok(seq![])
    } else if data.subrange(0, 4) != magic() {
        Err(Some(ParserFault::FormatParseError("Invalid magic"@)))
    } else if data.len() < 8 {
        Err(Some(ParserFault::Io(IoErrorKind::UnexpectedEof)))
    } else {
        let size = be_value(data.subrange(4, 8)) as int;
        if data.len() < 8 + size {
            Err(Some(ParserFault::Io(IoErrorKind::UnexpectedEof)))
        } else {
            match spec_parse_body(data.subrange(8, 8 + size)) {
                Err(f) => Err(f),
                Ok(rec) => prepend_records(seq![rec], spec_read_bin(data.subrange(8 + size, data.len() as int))),
            }
        }
    }
}

proof fn lemma_pow256_values()
    ensures
        pow256(1) == 0x100,
        pow256(4) == 0x1_0000_0000,
        pow256(8) == 0x1_0000_0000_0000_0000,
{
    reveal_with_fuel(pow256, 9);
}

proof fn lemma_be_value_bound(s: Seq<u8>)
    ensures
        be_value(s) < pow256(s.len()),
    decreases s.len(),
{
    if s.len() > 0 {
        lemma_be_value_bound(s.drop_last());
        let a = be_value(s.drop_last());
        let p = pow256((s.len() - 1) as nat);
        let l = s.last() as nat;
        assert(a * 256 + l < p * 256) by (nonlinear_arith)
            requires
                a < p,
                l < 256,
        ;
    }
}

/// The last `n` bytes of a value below `256^n` read back as that value.
pub proof fn lemma_be_bytes_roundtrip(v: nat, n: nat)
    requires
        v < pow256(n),
    ensures
        be_bytes(v, n).len() == n,
        be_value(be_bytes(v, n)) == v,
    decreases n,
{
    if n > 0 {
        let p = pow256((n - 1) as nat);
        assert(v / 256 < p) by (nonlinear_arith)
            requires
                v < 256 * p,
        ;
        lemma_be_bytes_roundtrip(v / 256, (n - 1) as nat);
        assert(be_bytes(v, n).drop_last() =~= be_bytes(v / 256, (n - 1) as nat));
        assert((v / 256) * 256 + v % 256 == v) by (nonlinear_arith);
    }
}

/// Reads `n` bytes at `pos` as a big-endian unsigned integer.
fn read_be(body: &[u8], pos: &mut usize, n: usize) -> (r: Result<u64, ParserError>)
    requires
        n <= 8,
        *old(pos) <= body@.len(),
    ensures
        *old(pos) + n <= body@.len() ==> r == Ok::<u64, ParserError>(
            be_value(body@.subrange(*old(pos) as int, *old(pos) + n)) as u64,
        ) && *final(pos) == *old(pos) + n,
        *old(pos) + n > body@.len() ==> (r matches Err(e) && e@ == ParserFault::Io(IoErrorKind::UnexpectedEof)),
        *final(pos) <= body@.len(),
{
    if body.len() - *pos < n {
        return Err(ParserError::Io(unexpected_eof_error()));
    }
    let start = *pos;
    let end = start + n;
    let mut acc: u64 = 0;
    let mut k: usize = 0;
    proof {
        lemma_pow256_values();
    }
    while k < n
        invariant
            n <= 8,
            start + n <= body@.len(),
            end == start + n,
            k <= n,
            acc as nat == be_value(body@.subrange(start as int, start + k)),
            pow256(8) == 0x1_0000_0000_0000_0000,
        decreases n - k,
    {
        proof {
            lemma_be_value_bound(body@.subrange(start as int, start + k));
            lemma_pow256_monotone(k as nat, 7);
            let sub = body@.subrange(start as int, start + k + 1);
            assert(sub.drop_last() =~= body@.subrange(start as int, start + k));
            assert(acc * 256 + body@[start + k] < 0x1_0000_0000_0000_0000) by (nonlinear_arith)
                requires
                    acc < pow256(k as nat),
                    pow256(k as nat) <= pow256(7),
                    pow256(7) * 256 == 0x1_0000_0000_0000_0000,
                    body@[start + k] < 256,
            ;
        }
        acc = acc * 256 + body[start + k] as u64;
        k = k + 1;
    }
    *pos = end;
    Ok(acc)
}

proof fn lemma_pow256_monotone(a: nat, b: nat)
    requires
        a <= b,
    ensures
        pow256(a) <= pow256(b),
        pow256(7) * 256 == 0x1_0000_0000_0000_0000,
    decreases b,
{
    reveal_with_fuel(pow256, 9);
    if a < b {
        lemma_pow256_monotone(a, (b - 1) as nat);
    }
}

/// Reads one byte at `pos`.
pub fn read_u8(body: &[u8], pos: &mut usize) -> (r: Result<u8, ParserError>)
    requires
        *old(pos) <= body@.len(),
    ensures
        *old(pos) < body@.len() ==> r == Ok::<u8, ParserError>(body@[*old(pos) as int])
            && *final(pos) == *old(pos) + 1,
        *old(pos) >= body@.len() ==> (r matches Err(e) && e@ == ParserFault::Io(IoErrorKind::UnexpectedEof)),
        *final(pos) <= body@.len(),
{
    if *pos >= body.len() {
        return Err(ParserError::Io(unexpected_eof_error()));
    }
    let b = body[*pos];
    *pos = *pos + 1;
    Ok(b)
}

/// Reads a big-endian `u32` at `pos`.
pub fn read_u32(body: &[u8], pos: &mut usize) -> (r: Result<u32, ParserError>)
    requires
        *old(pos) <= body@.len(),
    ensures
        *old(pos) + 4 <= body@.len() ==> r == Ok::<u32, ParserError>(
            be_value(body@.subrange(*old(pos) as int, *old(pos) + 4)) as u32,
        ) && *final(pos) == *old(pos) + 4,
        *old(pos) + 4 > body@.len() ==> (r matches Err(e) && e@ == ParserFault::Io(IoErrorKind::UnexpectedEof)),
        *final(pos) <= body@.len(),
{
    let ghost p0 = *pos;
    match read_be(body, pos, 4) {
        Ok(v) => {
            proof {
                lemma_be_value_bound(body@.subrange(p0 as int, p0 + 4));
                lemma_pow256_values();
            }
            Ok(v as u32)
        },
        Err(e) => Err(e),
    }
}

/// Reads a big-endian `u64` at `pos`.
pub fn read_u64(body: &[u8], pos: &mut usize) -> (r: Result<u64, ParserError>)
    requires
        *old(pos) <= body@.len(),
    ensures
        *old(pos) + 8 <= body@.len() ==> r == Ok::<u64, ParserError>(
            be_value(body@.subrange(*old(pos) as int, *old(pos) + 8)) as u64,
        ) && *final(pos) == *old(pos) + 8,
        *old(pos) + 8 > body@.len() ==> (r matches Err(e) && e@ == ParserFault::Io(IoErrorKind::UnexpectedEof)),
        *final(pos) <= body@.len(),
{
    read_be(body, pos, 8)
}

/// Reads a big-endian two's-complement `i64` at `pos`.
pub fn read_i64(body: &[u8], pos: &mut usize) -> (r: Result<i64, ParserError>)
    requires
        *old(pos) <= body@.len(),
    ensures
        *old(pos) + 8 <= body@.len() ==> r == Ok::<i64, ParserError>(
            i64_of_bits(be_value(body@.subrange(*old(pos) as int, *old(pos) + 8))),
        ) && *final(pos) == *old(pos) + 8,
        *old(pos) + 8 > body@.len() ==> (r matches Err(e) && e@ == ParserFault::Io(IoErrorKind::UnexpectedEof)),
        *final(pos) <= body@.len(),
{
    let ghost p0 = *pos;
    match read_be(body, pos, 8) {
        Ok(u) => {
            proof {
                lemma_be_value_bound(body@.subrange(p0 as int, p0 + 8));
                lemma_pow256_values();
            }
            if u <= 0x7FFF_FFFF_FFFF_FFFF {
                Ok(u as i64)
            } else {
                Ok((u - 0x8000_0000_0000_0000) as i64 + i64::MIN)
            }
        },
        Err(e) => Err(e),
    }
}

/// The message for a byte that encodes no type or status.
fn invalid_byte(b: u8) -> (m: String)
    ensures
        m@ == invalid_byte_message(b),
{
    let mut m = "Invalid byte: ".to_owned();
    push_decimal(&mut m, b as u64);
    m
}

/// Reads the transaction that a record body holds.
pub fn parse_body(body: &[u8]) -> (r: Result<Transaction, ParserError>)
    ensures
        match spec_parse_body(body@) {
            Ok(rec) => r matches Ok(t) && t@ == rec,
            Err(f) => r matches Err(e) && fault_agrees(e@, f),
        },
{
    let mut pos: usize = 0;
    let tx_id = match read_u64(body, &mut pos) {
        Ok(v) => v,
        Err(e) => return Err(e),
    };
    let type_byte = match read_u8(body, &mut pos) {
        Ok(v) => v,
        Err(e) => return Err(e),
    };
    let tx_type = match TxType::from_u8(type_byte) {
        Some(t) => t,
        None => return Err(ParserError::InvalidTransactionType(invalid_byte(type_byte))),
    };
    let from_user_id = match read_u64(body, &mut pos) {
        Ok(v) => v,
        Err(e) => return Err(e),
    };
    let to_user_id = match read_u64(body, &mut pos) {
        Ok(v) => v,
        Err(e) => return Err(e),
    };
    let amount = match read_i64(body, &mut pos) {
        Ok(v) => v,
        Err(e) => return Err(e),
    };
    let timestamp = match read_u64(body, &mut pos) {
        Ok(v) => v,
        Err(e) => return Err(e),
    };
    let status_byte = match read_u8(body, &mut pos) {
        Ok(v) => v,
        Err(e) => return Err(e),
    };
    let status = match TxStatus::from_u8(status_byte) {
        Some(t) => t,
        None => return Err(ParserError::InvalidTransactionStatus(invalid_byte(status_byte))),
    };
    let desc_len = match read_u32(body, &mut pos) {
        Ok(v) => v as usize,
        Err(e) => return Err(e),
    };
    assert(pos == 46);
    proof {
        lemma_be_value_bound(body@.subrange(42, 46));
        lemma_pow256_values();
        assert(desc_len == be_value(body@.subrange(42, 46)));
    }
    if body.len() - pos < desc_len {
        return Err(ParserError::Io(unexpected_eof_error()));
    }
    let desc_bytes = vstd::slice::slice_to_vec(vstd::slice::slice_subrange(body, pos, pos + desc_len));
    assert(desc_bytes@ == body@.subrange(46, 46 + desc_len));
    let text = match string_from_utf8(desc_bytes) {
        Ok(s) => s,
        Err(e) => {
            let mut m = "Invalid UTF-8 in description: ".to_owned();
            let detail = e.to_string();
            m.append(detail.as_str());
            assert(m@.subrange(0, bad_description_prefix().len() as int) =~= bad_description_prefix());
            return Err(ParserError::FormatParseError(m));
        },
    };
    let chars = chars_of(text.as_str());
    let trimmed = trim_quote_marks(chars.as_slice());
    let description = string_of(trimmed.as_slice());
    Ok(Transaction { tx_id, tx_type, from_user_id, to_user_id, amount, timestamp, status, description })
}

/// Reads the transactions of a binary input, record by record, until fewer
/// than four bytes are left.
pub fn read_bin(data: &[u8]) -> (r: Result<Vec<Transaction>, ParserError>)
    ensures
        match spec_read_bin(data@) {
            Ok(recs) => r matches Ok(txs) && records(txs@) == recs,
            Err(f) => r matches Err(e) && fault_agrees(e@, f),
        },
{
    let n = data.len();
    let mut pos: usize = 0;
    let mut transactions: Vec<Transaction> = Vec::new();
    assert(data@.subrange(0, n as int) =~= data@);
    loop
        invariant
            n == data@.len(),
            pos <= n,
            spec_read_bin(data@) == prepend_records(records(transactions@), spec_read_bin(data@.subrange(pos as int, n as int))),
        decreases n - pos,
    {
        let ghost rest = data@.subrange(pos as int, n as int);
        if n - pos < 4 {
            assert(records(transactions@) + seq![] =~= records(transactions@));
            return Ok(transactions);
        }
        assert(rest.subrange(0, 4) =~= data@.subrange(pos as int, pos + 4));
        let magic_bytes: &[u8] = &MAGIC;
        assert(magic_bytes@ =~= magic());
        if data[pos] != magic_bytes[0] || data[pos + 1] != magic_bytes[1] || data[pos + 2] != magic_bytes[2]
            || data[pos + 3] != magic_bytes[3] {
            assert(rest.subrange(0, 4) != magic()) by {
                if rest.subrange(0, 4) == magic() {
                    assert(rest.subrange(0, 4)[0] == data@[pos as int]);
                }
            }
            return Err(ParserError::FormatParseError("Invalid magic".to_owned()));
        }
        assert(rest.subrange(0, 4) =~= magic());
        if n - pos < 8 {
            return Err(ParserError::Io(unexpected_eof_error()));
        }
        let mut p = pos + 4;
        let size = match read_u32(data, &mut p) {
            Ok(v) => v as usize,
            Err(e) => return Err(e),
        };
        assert(rest.subrange(4, 8) =~= data@.subrange(pos + 4, pos + 8));
        proof {
            lemma_be_value_bound(data@.subrange(pos + 4, pos + 8));
            lemma_pow256_values();
        }
        if n - pos - 8 < size {
            return Err(ParserError::Io(unexpected_eof_error()));
        }
        let body = vstd::slice::slice_subrange(data, pos + 8, pos + 8 + size);
        assert(rest.subrange(8, 8 + size) =~= body@);
        assert(rest.subrange(8 + size, rest.len() as int) =~= data@.subrange(pos + 8 + size, n as int));
        match parse_body(body) {
            Ok(t) => {
                proof {
                    assert(records(transactions@.push(t)) =~= records(transactions@) + seq![t@]);
                    let tail = spec_read_bin(data@.subrange(pos + 8 + size, n as int));
                    match tail {
                        Ok(more) => {
                            assert(records(transactions@) + (seq![t@] + more) =~= records(transactions@.push(t)) + more);
                        },
                        Err(_) => {},
                    }
                }
                transactions.push(t);
            },
            Err(e) => return Err(e),
        }
        pos = pos + 8 + size;
    }
}

/// The body of a record: the fields in order, integers big-endian, the type
/// and status as one byte each, then the length of the description's UTF-8
/// bytes as a `u32` (cut to 32 bits) and those bytes.
pub open spec fn spec_body_bytes(t: TxRecord) -> Seq<u8> {
    be_bytes(t.tx_id as nat, 8) + seq![t.tx_type.code()] + be_bytes(t.from_user_id as nat, 8)
        + be_bytes(t.to_user_id as nat, 8) + be_bytes(bits_of_i64(t.amount), 8)
        + be_bytes(t.timestamp as nat, 8) + seq![t.status.code()]
        + be_bytes((encode_utf8(t.description).len() as u32) as nat, 4) + encode_utf8(t.description)
}

/// A whole record: the magic, the body's length as a `u32` (cut to 32
/// bits), and the body.
pub open spec fn spec_record_bytes(t: TxRecord) -> Seq<u8> {
    magic() + be_bytes((spec_body_bytes(t).len() as u32) as nat, 4) + spec_body_bytes(t)
}

/// The binary form of a list of transactions: their records one after another.
pub open spec fn spec_write_bin(ts: Seq<TxRecord>) -> Seq<u8>
    decreases ts.len(),
{
    if ts.len() == 0 {
        seq![]
    } else {
        spec_write_bin(ts.drop_last()) + spec_record_bytes(ts.last())
    }
}

/// Appends the last `n` bytes of `v` in big-endian order.
fn write_be(out: &mut Vec<u8>, v: u64, n: usize)
    requires
        n <= 8,
    ensures
        final(out)@ == old(out)@ + be_bytes(v as nat, n as nat),
    decreases n,
{
    if n > 0 {
        write_be(out, v / 256, n - 1);
        out.push((v % 256) as u8);
        assert(be_bytes(v as nat, n as nat) == be_bytes((v / 256) as nat, (n - 1) as nat).push((v % 256) as u8));
        assert(final(out)@ =~= old(out)@ + be_bytes(v as nat, n as nat));
    } else {
        assert(old(out)@ + be_bytes(v as nat, 0) =~= old(out)@);
    }
}

/// Appends one byte.
pub fn write_u8(out: &mut Vec<u8>, value: u8)
    ensures
        final(out)@ == old(out)@.push(value),
{
    out.push(value);
}

/// Appends a `u32` in big-endian order.
pub fn write_u32(out: &mut Vec<u8>, value: u32)
    ensures
        final(out)@ == old(out)@ + be_bytes(value as nat, 4),
{
    write_be(out, value as u64, 4);
}

/// Appends a `u64` in big-endian order.
pub fn write_u64(out: &mut Vec<u8>, value: u64)
    ensures
        final(out)@ == old(out)@ + be_bytes(value as nat, 8),
{
    write_be(out, value, 8);
}

/// Appends an `i64` in big-endian two's complement.
pub fn write_i64(out: &mut Vec<u8>, value: i64)
    ensures
        final(out)@ == old(out)@ + be_bytes(bits_of_i64(value), 8),
{
    let bits: u64 = if value < 0 {
        ((value as i128) + 0x1_0000_0000_0000_0000i128) as u64
    } else {
        value as u64
    };
    write_be(out, bits, 8);
}

/// The binary form of a list of transactions.
pub fn write_bin(transactions: &[Transaction]) -> (out: Vec<u8>)
    ensures
        out@ == spec_write_bin(records(transactions@)),
{
    let mut out: Vec<u8> = Vec::new();
    let ghost recs = records(transactions@);
    for i in 0..transactions.len()
        invariant
            recs == records(transactions@),
            out@ == spec_write_bin(recs.take(i as int)),
    {
        let tx = &transactions[i];
        let mut body: Vec<u8> = Vec::new();
        write_u64(&mut body, tx.tx_id);
        write_u8(&mut body, tx.tx_type.to_u8());
        write_u64(&mut body, tx.from_user_id);
        write_u64(&mut body, tx.to_user_id);
        write_i64(&mut body, tx.amount);
        write_u64(&mut body, tx.timestamp);
        write_u8(&mut body, tx.status.to_u8());
        let desc_bytes = tx.description.as_str().as_bytes();
        write_u32(&mut body, desc_bytes.len() as u32);
        push_bytes(&mut body, desc_bytes);
        assert(body@ =~= spec_body_bytes(tx@));
        let magic_bytes: &[u8] = &MAGIC;
        assert(magic_bytes@ =~= magic());
        push_bytes(&mut out, magic_bytes);
        write_u32(&mut out, body.len() as u32);
        push_bytes(&mut out, body.as_slice());
        proof {
            assert(recs.take(i + 1).drop_last() =~= recs.take(i as int));
            assert(recs.take(i + 1).last() == tx@);
            assert(out@ =~= spec_write_bin(recs.take(i + 1)));
        }
    }
    assert(recs.take(transactions@.len() as int) =~= recs);
    out
}

/// A transaction that the binary form carries unchanged: its body is short
/// enough for a `u32` length, and its description neither begins nor ends
/// with `"` (reading strips those).
pub open spec fn bin_faithful(t: TxRecord) -> bool {
    &&& encode_utf8(t.description).len() + 46 <= u32::MAX
    &&& t.description.len() > 0 ==> t.description[0] != '"' && t.description.last() != '"'
}

#[verifier::spinoff_prover]
#[verifier::rlimit(30)]
proof fn lemma_parse_body_of_record(t: TxRecord)
    requires
        bin_faithful(t),
    ensures
        spec_parse_body(spec_body_bytes(t)) == Ok::<TxRecord, Option<ParserFault>>(t),
        spec_body_bytes(t).len() == 46 + encode_utf8(t.description).len(),
{
    lemma_pow256_values();
    let d = encode_utf8(t.description);
    let dl = d.len();
    let p0 = be_bytes(t.tx_id as nat, 8);
    let p1 = seq![t.tx_type.code()];
    let p2 = be_bytes(t.from_user_id as nat, 8);
    let p3 = be_bytes(t.to_user_id as nat, 8);
    let p4 = be_bytes(bits_of_i64(t.amount), 8);
    let p5 = be_bytes(t.timestamp as nat, 8);
    let p6 = seq![t.status.code()];
    let p7 = be_bytes((dl as u32) as nat, 4);
    lemma_be_bytes_roundtrip(t.tx_id as nat, 8);
    lemma_be_bytes_roundtrip(t.from_user_id as nat, 8);
    lemma_be_bytes_roundtrip(t.to_user_id as nat, 8);
    lemma_be_bytes_roundtrip(bits_of_i64(t.amount), 8);
    lemma_be_bytes_roundtrip(t.timestamp as nat, 8);
    assert((dl as u32) as nat == dl);
    lemma_be_bytes_roundtrip(dl, 4);
    let b = spec_body_bytes(t);
    assert(b == p0 + p1 + p2 + p3 + p4 + p5 + p6 + p7 + d);
    assert(b.len() == 46 + dl);
    assert(b.subrange(0, 8) =~= p0);
    assert(b[8] == t.tx_type.code());
    assert(b.subrange(9, 17) =~= p2);
    assert(b.subrange(17, 25) =~= p3);
    assert(b.subrange(25, 33) =~= p4);
    assert(b.subrange(33, 41) =~= p5);
    assert(b[41] == t.status.code());
    assert(b.subrange(42, 46) =~= p7);
    assert(b.subrange(46, 46 + dl as int) =~= d);
    encode_utf8_valid_utf8(t.description);
    encode_utf8_decode_utf8(t.description);
    assert(strip_start(t.description, quote_test()) == t.description);
    assert(strip_end(t.description, quote_test()) == t.description);
}

proof fn lemma_write_bin_front(ts: Seq<TxRecord>)
    requires
        ts.len() > 0,
    ensures
        spec_write_bin(ts) == spec_record_bytes(ts[0]) + spec_write_bin(ts.drop_first()),
    decreases ts.len(),
{
    if ts.len() == 1 {
        assert(ts.drop_last() =~= Seq::<TxRecord>::empty());
        assert(ts.drop_first() =~= Seq::<TxRecord>::empty());
        assert(spec_write_bin(ts) =~= spec_record_bytes(ts[0]) + spec_write_bin(ts.drop_first()));
    } else {
        lemma_write_bin_front(ts.drop_last());
        assert(ts.drop_last().drop_first() =~= ts.drop_first().drop_last());
        assert(ts.drop_first().last() == ts.last());
        assert(spec_write_bin(ts) =~= spec_record_bytes(ts[0]) + spec_write_bin(ts.drop_first()));
    }
}

#[verifier::spinoff_prover]
#[verifier::rlimit(30)]
proof fn lemma_read_bin_record(t: TxRecord, rest: Seq<u8>)
    requires
        bin_faithful(t),
    ensures
        spec_read_bin(spec_record_bytes(t) + rest) == prepend_records(seq![t], spec_read_bin(rest)),
{
    lemma_pow256_values();
    let body = spec_body_bytes(t);
    lemma_parse_body_of_record(t);
    let size = body.len();
    assert((size as u32) as nat == size);
    lemma_be_bytes_roundtrip(size, 4);
    let data = spec_record_bytes(t) + rest;
    assert(data.subrange(0, 4) =~= magic());
    assert(data.subrange(4, 8) =~= be_bytes(size, 4));
    assert(data.subrange(8, 8 + size as int) =~= body);
    assert(data.subrange(8 + size as int, data.len() as int) =~= rest);
}

/// Reading the binary form of transactions gives them back, when each is
/// carried unchanged ([`bin_faithful`]).
#[verifier::spinoff_prover]
#[verifier::rlimit(30)]
pub proof fn lemma_bin_roundtrip(ts: Seq<TxRecord>)
    requires
        forall|i: int| 0 <= i < ts.len() ==> bin_faithful(#[trigger] ts[i]),
    ensures
        spec_read_bin(spec_write_bin(ts)) == Ok::<Seq<TxRecord>, Option<ParserFault>>(ts),
    decreases ts.len(),
{
    if ts.len() == 0 {
        assert(spec_write_bin(ts) =~= Seq::<u8>::empty());
        assert(ts =~= Seq::<TxRecord>::empty());
    } else {
        let rest = ts.drop_first();
        lemma_write_bin_front(ts);
        assert forall|i: int| 0 <= i < rest.len() implies bin_faithful(#[trigger] rest[i]) by {
            assert(rest[i] == ts[i + 1]);
        }
        lemma_bin_roundtrip(rest);
        assert(bin_faithful(ts[0]));
        lemma_read_bin_record(ts[0], spec_write_bin(rest));
        assert(seq![ts[0]] + rest =~= ts);
        assert(spec_read_bin(spec_write_bin(ts)) == prepend_records(seq![ts[0]], spec_read_bin(spec_write_bin(rest))));
    }
}

} // verus!
