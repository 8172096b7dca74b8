//! The CSV format: a header line, then one line per transaction with the
//! fields in a fixed order and the description in double quotes.

use vstd::prelude::*;
use vstd::utf8::encode_utf8;
use crate::error::{IoErrorKind, ParserError, ParserFault};
use crate::text::{byte_lines, byte_views, chars_equal_str, chars_of, decimal, decode_line, i64_text_value,
    encode_lines, free_of, free_of_from, is_digit, lemma_free_of_from, is_white_space, lemma_decimal_free_of, lemma_free_of_concat,
    lemma_i64_text_roundtrip, lemma_line_chars_encode, lemma_lines_of_text, lemma_u64_text_roundtrip, lines_text,
    plain_line, strip_end, strip_start, white_space_test, line_chars, parse_i64, parse_u64, push_char, push_chars, push_decimal, push_signed_decimal, signed_decimal, split_lines, string_of, string_views,
    trim, trim_white_space, u64_text_value};
use crate::transaction::{lemma_tx_status_name_roundtrip, lemma_tx_type_name_roundtrip, prepend_records, records, Transaction, TxRecord, TxStatus, TxType};

verus! {

/// Scanning a line from its start: `in_quotes` tells whether a quoted part is
/// open, `cur` holds the field being read and `fields` those already read.
/// Outside quotes a `,` ends a field; a `"` opens or closes quotes; inside
/// quotes `""` stands for one `"`.
pub open spec fn csv_scan(s: Seq<char>, in_quotes: bool, cur: Seq<char>, fields: Seq<Seq<char>>) -> Seq<Seq<char>>
    decreases s.len(),
{
    if s.len() == 0 {
        fields.push(cur)
    } else if s[0] == '"' {
        if in_quotes && s.len() > 1 && s[1] == '"' {
            csv_scan(s.skip(2), in_quotes, cur.push('"'), fields)
        } else {
            csv_scan(s.skip(1), !in_quotes, cur, fields)
        }
    } else if s[0] == ',' && !in_quotes {
        csv_scan(s.skip(1), in_quotes, seq![], fields.push(cur))
    } else {
        csv_scan(s.skip(1), in_quotes, cur.push(s[0]), fields)
    }
}

/// The fields of a CSV line.
pub open spec fn csv_split(line: Seq<char>) -> Seq<Seq<char>> {
    csv_scan(line, false, seq![], seq![])
}

/// Splits a CSV line into its fields; never fails.
pub fn parse_csv_line(line: &str) -> (r: Result<Vec<String>, crate::error::ParserError>)
    ensures
        r matches Ok(fields) && string_views(fields@) == csv_split(line@),
{
    let chars = chars_of(line);
    let n = chars.len();
    let mut fields: Vec<String> = Vec::new();
    let mut current: Vec<char> = Vec::new();
    let mut in_quotes = false;
    let mut i: usize = 0;
    assert(chars@.skip(0) =~= chars@);
    assert(string_views(fields@) =~= Seq::<Seq<char>>::empty());
    assert(current@ =~= Seq::<char>::empty());
    while i < n
        invariant
            n == chars@.len(),
            chars@ == line@,
            i <= n,
            csv_split(line@) == csv_scan(chars@.skip(i as int), in_quotes, current@, string_views(fields@)),
        decreases n - i,
    {
        let c = chars[i];
        let ghost rest = chars@.skip(i as int);
        assert(rest[0] == c);
        if c == '"' {
            if in_quotes && i + 1 < n && chars[i + 1] == '"' {
                assert(rest[1] == chars@[i + 1]);
                assert(rest.skip(2) =~= chars@.skip(i + 2));
                current.push('"');
                i = i + 2;
            } else {
                assert(rest.skip(1) =~= chars@.skip(i + 1));
                in_quotes = !in_quotes;
                i = i + 1;
            }
        } else if c == ',' && !in_quotes {
            assert(rest.skip(1) =~= chars@.skip(i + 1));
            let field = string_of(current.as_slice());
            assert(string_views(fields@.push(field)) =~= string_views(fields@).push(current@));
            fields.push(field);
            current = Vec::new();
            i = i + 1;
        } else {
            assert(rest.skip(1) =~= chars@.skip(i + 1));
            current.push(c);
            i = i + 1;
        }
    }
    assert(chars@.skip(i as int) =~= Seq::<char>::empty());
    let field = string_of(current.as_slice());
    assert(string_views(fields@.push(field)) =~= string_views(fields@).push(current@));
    fields.push(field);
    Ok(fields)
}

/// The transaction that CSV fields hold, or the fault of reading them, for
/// at least seven fields. Seven fields that all read well leave the
/// description missing.
pub open spec fn spec_fields_to_record(f: Seq<Seq<char>>) -> Result<TxRecord, ParserFault> {
    match u64_text_value(f[0]) {
        None => Err(ParserFault::ParseIntError),
        Some(tx_id) => match TxType::from_name(f[1]) {
            None => Err(ParserFault::InvalidTransactionType(f[1])),
            Some(tx_type) => match u64_text_value(f[2]) {
                None => Err(ParserFault::ParseIntError),
                Some(from_user_id) => match u64_text_value(f[3]) {
                    None => Err(ParserFault::ParseIntError),
                    Some(to_user_id) => match i64_text_value(f[4]) {
                        None => Err(ParserFault::ParseIntError),
                        Some(amount) => match u64_text_value(f[5]) {
                            None => Err(ParserFault::ParseIntError),
                            Some(timestamp) => match TxStatus::from_name(f[6]) {
                                None => Err(ParserFault::InvalidTransactionStatus(f[6])),
                                Some(status) => if f.len() < 8 {
                                    Err(ParserFault::MissingRequiredFields("DESCRIPTION"@))
                                } else {
                                    Ok(TxRecord {
                                        tx_id,
                                        tx_type,
                                        from_user_id,
                                        to_user_id,
                                        amount,
                                        timestamp,
                                        status,
                                        description: f[7],
                                    })
                                },
                            },
                        },
                    },
                },
            },
        },
    }
}

/// Builds a transaction from the fields of a CSV line, in their fixed order;
/// a line whose seventh field is its last lacks the description.
pub fn fields_to_transaction(fields: Vec<String>) -> (r: Result<Transaction, ParserError>)
    requires
        fields@.len() >= 7,
    ensures
        match spec_fields_to_record(string_views(fields@)) {
            Ok(rec) => r matches Ok(t) && t@ == rec,
            Err(f) => r matches Err(e) && e@ == f,
        },
{
    let ghost f = string_views(fields@);
    assert(forall|i: int| 0 <= i < fields@.len() ==> f[i] == fields@[i]@);
    let tx_id = match parse_u64(fields[0].as_str()) {
        Ok(v) => v,
        Err(e) => return Err(ParserError::ParseIntError(e)),
    };
    let tx_type = match TxType::parse_name(fields[1].as_str()) {
        Ok(v) => v,
        Err(e) => return Err(e),
    };
    let from_user_id = match parse_u64(fields[2].as_str()) {
        Ok(v) => v,
        Err(e) => return Err(ParserError::ParseIntError(e)),
    };
    let to_user_id = match parse_u64(fields[3].as_str()) {
        Ok(v) => v,
        Err(e) => return Err(ParserError::ParseIntError(e)),
    };
    let amount = match parse_i64(fields[4].as_str()) {
        Ok(v) => v,
        Err(e) => return Err(ParserError::ParseIntError(e)),
    };
    let timestamp = match parse_u64(fields[5].as_str()) {
        Ok(v) => v,
        Err(e) => return Err(ParserError::ParseIntError(e)),
    };
    let status = match TxStatus::parse_name(fields[6].as_str()) {
        Ok(v) => v,
        Err(e) => return Err(e),
    };
    if fields.len() < 8 {
        return Err(ParserError::MissingRequiredFields("DESCRIPTION".to_owned()));
    }
    let description = fields[7].clone();
    Ok(Transaction { tx_id, tx_type, from_user_id, to_user_id, amount, timestamp, status, description })
}

/// The header line of the CSV format.
pub open spec fn csv_header() -> Seq<char> {
    "TX_ID,TX_TYPE,FROM_USER_ID,TO_USER_ID,AMOUNT,TIMESTAMP,STATUS,DESCRIPTION"@
}

/// The message for a header line `got` that is not [`csv_header`].
pub open spec fn header_mismatch_message(got: Seq<char>) -> Seq<char> {
    "Header does not match: expected - "@ + csv_header() + ", got - "@ + got
}

/// The message for a line with `n` fields, fewer than seven.
pub open spec fn field_count_message(n: nat) -> Seq<char> {
    "Expected at least 7 fields, got: "@ + decimal(n)
}

/// The transactions of the CSV lines after the header, or the fault that
/// stops reading. Lines that are blank once trimmed are skipped.
pub open spec fn spec_csv_records(lines: Seq<Seq<u8>>) -> Result<Seq<TxRecord>, ParserFault>
    decreases lines.len(),
{
    if lines.len() == 0 {
        Ok(seq![])
    } else {
        match line_chars(lines[0]) {
            None => Err(ParserFault::Io(IoErrorKind::InvalidData)),
            Some(line) => {
                let t = trim(line);
                if t.len() == 0 {
                    spec_csv_records(lines.drop_first())
                } else {
                    let f = csv_split(t);
                    if f.len() < 7 {
                        Err(ParserFault::MissingRequiredFields(field_count_message(f.len())))
                    } else {
                        match spec_fields_to_record(f) {
                            Err(e) => Err(e),
                            Ok(rec) => prepend_records(seq![rec], spec_csv_records(lines.drop_first())),
                        }
                    }
                }
            },
        }
    }
}

/// The transactions of a CSV input, or the fault that stops reading.
pub open spec fn spec_read_csv(data: Seq<u8>) -> Result<Seq<TxRecord>, ParserFault> {
    let lines = byte_lines(data);
    if lines.len() == 0 {
        Err(ParserFault::FormatParseError("Empty csv file"@))
    } else {
        match line_chars(lines[0]) {
            None => Err(ParserFault::Io(IoErrorKind::InvalidData)),
            Some(h) => if trim(h) != csv_header() {
                Err(ParserFault::FormatParseError(header_mismatch_message(h)))
            } else {
                spec_csv_records(lines.drop_first())
            },
        }
    }
}

/// Reads the transactions of a CSV input: the header line, then one
/// transaction per line that is not blank.
pub fn read_csv(data: &[u8]) -> (r: Result<Vec<Transaction>, ParserError>)
    ensures
        match spec_read_csv(data@) {
            Ok(recs) => r matches Ok(txs) && records(txs@) == recs,
            Err(f) => r matches Err(e) && e@ == f,
        },
{
    let lines = split_lines(data);
    let ghost lv = byte_views(lines@);
    assert(forall|i: int| 0 <= i < lines@.len() ==> lv[i] == lines@[i]@);
    if lines.len() == 0 {
        return Err(ParserError::FormatParseError("Empty csv file".to_owned()));
    }
    let header = match decode_line(lines[0].as_slice()) {
        Ok(h) => h,
        Err(e) => return Err(e),
    };
    let trimmed_header = trim_white_space(header.as_slice());
    if !chars_equal_str(trimmed_header.as_slice(), "TX_ID,TX_TYPE,FROM_USER_ID,TO_USER_ID,AMOUNT,TIMESTAMP,STATUS,DESCRIPTION") {
        let mut m = "Header does not match: expected - ".to_owned();
        m.append("TX_ID,TX_TYPE,FROM_USER_ID,TO_USER_ID,AMOUNT,TIMESTAMP,STATUS,DESCRIPTION");
        m.append(", got - ");
        push_chars(&mut m, header.as_slice());
        return Err(ParserError::FormatParseError(m));
    }
    let n = lines.len();
    let mut transactions: Vec<Transaction> = Vec::new();
    let mut i: usize = 1;
    assert(lv.drop_first() =~= lv.subrange(1, n as int));
    assert(records(transactions@) + Seq::<TxRecord>::empty() =~= Seq::<TxRecord>::empty());
    while i < n
        invariant
            n == lines@.len(),
            lv == byte_views(lines@),
            1 <= i <= n,
            spec_read_csv(data@) == prepend_records(records(transactions@), spec_csv_records(lv.subrange(i as int, n as int))),
        decreases n - i,
    {
        let ghost rest = lv.subrange(i as int, n as int);
        assert(rest[0] == lines@[i as int]@);
        assert(rest.drop_first() =~= lv.subrange(i + 1, n as int));
        let chars = match decode_line(lines[i].as_slice()) {
            Ok(c) => c,
            Err(e) => return Err(e),
        };
        let trimmed = trim_white_space(chars.as_slice());
        if trimmed.len() != 0 {
            let line = string_of(trimmed.as_slice());
            let fields = match parse_csv_line(line.as_str()) {
                Ok(f) => f,
                Err(e) => return Err(e),
            };
            if fields.len() < 7 {
                let mut m = "Expected at least 7 fields, got: ".to_owned();
                push_decimal(&mut m, fields.len() as u64);
                return Err(ParserError::MissingRequiredFields(m));
            }
            let tx = match fields_to_transaction(fields) {
                Ok(t) => t,
                Err(e) => return Err(e),
            };
            proof {
                assert(records(transactions@.push(tx)) =~= records(transactions@) + seq![tx@]);
                match spec_csv_records(lv.subrange(i + 1, n as int)) {
                    Ok(more) => {
                        assert(records(transactions@) + (seq![tx@] + more) =~= records(transactions@.push(tx)) + more);
                    },
                    _ => {},
                }
            }
            transactions.push(tx);
        }
        i = i + 1;
    }
    assert(lv.subrange(n as int, n as int) =~= Seq::<Seq<u8>>::empty());
    assert(records(transactions@) + Seq::<TxRecord>::empty() =~= records(transactions@));
    Ok(transactions)
}

/// `d` with each `"` doubled.
pub open spec fn escape_quotes(d: Seq<char>) -> Seq<char>
    decreases d.len(),
{
    if d.len() == 0 {
        seq![]
    } else {
        (if d[0] == '"' { seq!['"', '"'] } else { seq![d[0]] }) + escape_quotes(d.drop_first())
    }
}

/// Escaping distributes over concatenation.
pub proof fn lemma_escape_quotes_concat(a: Seq<char>, b: Seq<char>)
    ensures
        escape_quotes(a + b) == escape_quotes(a) + escape_quotes(b),
    decreases a.len(),
{
    if a.len() == 0 {
        assert(a + b =~= b);
        assert(escape_quotes(a) + escape_quotes(b) =~= escape_quotes(b));
    } else {
        lemma_escape_quotes_concat(a.drop_first(), b);
        assert((a + b).drop_first() =~= a.drop_first() + b);
        assert((a + b)[0] == a[0]);
        let p = if a[0] == '"' { seq!['"', '"'] } else { seq![a[0]] };
        assert(escape_quotes(a + b) =~= p + escape_quotes(a.drop_first() + b));
        assert(escape_quotes(a) + escape_quotes(b) =~= p + (escape_quotes(a.drop_first()) + escape_quotes(b)));
    }
}

/// The fields of a transaction before its description, as CSV writes them.
pub open spec fn csv_plain_fields(t: TxRecord) -> Seq<Seq<char>> {
    seq![
        decimal(t.tx_id as nat),
        t.tx_type.name(),
        decimal(t.from_user_id as nat),
        decimal(t.to_user_id as nat),
        signed_decimal(t.amount as int),
        decimal(t.timestamp as nat),
        t.status.name(),
    ]
}

/// A description in double quotes, with its own `"` doubled.
pub open spec fn csv_quoted(d: Seq<char>) -> Seq<char> {
    seq!['"'] + escape_quotes(d) + seq!['"']
}

/// The fields `fs` each followed by a `,`, then `last`.
pub open spec fn join_then(fs: Seq<Seq<char>>, last: Seq<char>) -> Seq<char>
    decreases fs.len(),
{
    if fs.len() == 0 {
        last
    } else {
        fs[0] + seq![','] + join_then(fs.drop_first(), last)
    }
}

/// The CSV line of a transaction, without its line end.
pub open spec fn csv_line(t: TxRecord) -> Seq<char> {
    join_then(csv_plain_fields(t), csv_quoted(t.description))
}

/// The CSV lines of transactions, each ended by `\n`.
pub open spec fn csv_body(ts: Seq<TxRecord>) -> Seq<char>
    decreases ts.len(),
{
    if ts.len() == 0 {
        seq![]
    } else {
        csv_body(ts.drop_last()) + csv_line(ts.last()) + seq!['\n']
    }
}

/// The CSV text of transactions: the header line, then a line for each.
pub open spec fn spec_csv_text(ts: Seq<TxRecord>) -> Seq<char> {
    csv_header() + seq!['\n'] + csv_body(ts)
}

/// Appends `d` with each `"` doubled.
fn push_escaped(s: &mut String, d: &[char])
    ensures
        final(s)@ == old(s)@ + escape_quotes(d@),
{
    let mut i: usize = 0;
    while i < d.len()
        invariant
            i <= d@.len(),
            s@ == old(s)@ + escape_quotes(d@.take(i as int)),
        decreases d@.len() - i,
    {
        proof {
            lemma_escape_quotes_concat(d@.take(i as int), seq![d@[i as int]]);
            assert(d@.take(i + 1) =~= d@.take(i as int) + seq![d@[i as int]]);
            assert(seq![d@[i as int]].drop_first() =~= Seq::<char>::empty());
            assert(escape_quotes(Seq::<char>::empty()) =~= Seq::<char>::empty());
        }
        if d[i] == '"' {
            push_char(s, '"');
            push_char(s, '"');
        } else {
            push_char(s, d[i]);
        }
        i = i + 1;
        assert(s@ =~= old(s)@ + escape_quotes(d@.take(i as int)));
    }
    assert(d@.take(i as int) =~= d@);
}

/// Seven fields, each followed by a `,`, then `last`, written out.
proof fn lemma_join_seven(fs: Seq<Seq<char>>, last: Seq<char>)
    requires
        fs.len() == 7,
    ensures
        join_then(fs, last) == fs[0] + seq![','] + fs[1] + seq![','] + fs[2] + seq![','] + fs[3] + seq![',']
            + fs[4] + seq![','] + fs[5] + seq![','] + fs[6] + seq![','] + last,
{
    let c = seq![','];
    let r1 = fs.drop_first();
    let r2 = r1.drop_first();
    let r3 = r2.drop_first();
    let r4 = r3.drop_first();
    let r5 = r4.drop_first();
    let r6 = r5.drop_first();
    let r7 = r6.drop_first();
    assert(r7.len() == 0);
    assert(join_then(r7, last) == last);
    assert(join_then(r6, last) == fs[6] + c + last);
    assert(join_then(r5, last) == fs[5] + c + join_then(r6, last));
    assert(join_then(r4, last) == fs[4] + c + join_then(r5, last));
    assert(join_then(r3, last) == fs[3] + c + join_then(r4, last));
    assert(join_then(r2, last) == fs[2] + c + join_then(r3, last));
    assert(join_then(r1, last) == fs[1] + c + join_then(r2, last));
    assert(join_then(fs, last) == fs[0] + c + join_then(r1, last));
    assert(join_then(fs, last) =~= fs[0] + c + fs[1] + c + fs[2] + c + fs[3] + c + fs[4] + c + fs[5] + c
        + fs[6] + c + last);
}

/// The CSV line of a transaction, without its line end.
fn csv_line_of(tx: &Transaction) -> (line: String)
    ensures
        line@ == csv_line(tx@),
{
    let mut s = String::new();
    push_decimal(&mut s, tx.tx_id);
    push_char(&mut s, ',');
    let kind_text = tx.tx_type.to_string();
    s.append(kind_text.as_str());
    push_char(&mut s, ',');
    push_decimal(&mut s, tx.from_user_id);
    push_char(&mut s, ',');
    push_decimal(&mut s, tx.to_user_id);
    push_char(&mut s, ',');
    push_signed_decimal(&mut s, tx.amount);
    push_char(&mut s, ',');
    push_decimal(&mut s, tx.timestamp);
    push_char(&mut s, ',');
    let status_text = tx.status.to_string();
    s.append(status_text.as_str());
    push_char(&mut s, ',');
    let ghost before_quote = s@;
    push_char(&mut s, '"');
    let d = chars_of(tx.description.as_str());
    push_escaped(&mut s, d.as_slice());
    push_char(&mut s, '"');
    proof {
        let f = csv_plain_fields(tx@);
        let c = seq![','];
        lemma_join_seven(f, csv_quoted(tx@.description));
        assert(before_quote =~= f[0] + c + f[1] + c + f[2] + c + f[3] + c + f[4] + c + f[5] + c + f[6] + c);
        assert(s@ =~= before_quote + csv_quoted(tx@.description));
    }
    s
}

/// The CSV form of a list of transactions, as UTF-8 bytes.
pub fn write_csv(transactions: &[Transaction]) -> (out: Vec<u8>)
    ensures
        out@ == encode_utf8(spec_csv_text(records(transactions@))),
{
    let mut s = "TX_ID,TX_TYPE,FROM_USER_ID,TO_USER_ID,AMOUNT,TIMESTAMP,STATUS,DESCRIPTION".to_owned();
    push_char(&mut s, '\n');
    let ghost recs = records(transactions@);
    for i in 0..transactions.len()
        invariant
            recs == records(transactions@),
            s@ == csv_header() + seq!['\n'] + csv_body(recs.take(i as int)),
    {
        let line = csv_line_of(&transactions[i]);
        s.append(line.as_str());
        push_char(&mut s, '\n');
        proof {
            assert(recs.take(i + 1).drop_last() =~= recs.take(i as int));
            assert(recs.take(i + 1).last() == transactions@[i as int]@);
            assert(s@ =~= csv_header() + seq!['\n'] + csv_body(recs.take(i + 1)));
        }
    }
    assert(recs.take(transactions@.len() as int) =~= recs);
    vstd::slice::slice_to_vec(s.as_str().as_bytes())
}

/// A field that CSV writes without quotes and reads back unchanged.
pub open spec fn csv_plain(s: Seq<char>) -> bool {
    free_of(s, '"') && free_of(s, ',')
}

proof fn lemma_scan_plain(p: Seq<char>, rest: Seq<char>, cur: Seq<char>, fields: Seq<Seq<char>>)
    requires
        csv_plain(p),
    ensures
        csv_scan(p + rest, false, cur, fields) == csv_scan(rest, false, cur + p, fields),
    decreases p.len(),
{
    if p.len() == 0 {
        assert(p + rest =~= rest);
        assert(cur + p =~= cur);
    } else {
        let s = p + rest;
        let q = p.drop_first();
        assert(s[0] == p[0]);
        assert(p[0] != '"' && p[0] != ',');
        assert(s.skip(1) =~= q + rest);
        assert(csv_plain(q)) by {
            assert forall|i: int| 0 <= i < q.len() implies q[i] != '"' && q[i] != ',' by {
                assert(q[i] == p[i + 1]);
            }
        }
        lemma_scan_plain(q, rest, cur.push(p[0]), fields);
        assert(cur.push(p[0]) + q =~= cur + p);
    }
}

proof fn lemma_scan_escaped(d: Seq<char>, cur: Seq<char>, fields: Seq<Seq<char>>)
    ensures
        csv_scan(escape_quotes(d) + seq!['"'], true, cur, fields) == fields.push(cur + d),
    decreases d.len(),
{
    let s = escape_quotes(d) + seq!['"'];
    if d.len() == 0 {
        assert(escape_quotes(d) =~= Seq::<char>::empty());
        assert(s =~= seq!['"']);
        assert(s.skip(1) =~= Seq::<char>::empty());
        assert(cur + d =~= cur);
        assert(csv_scan(s.skip(1), false, cur, fields) == fields.push(cur));
    } else {
        let q = d.drop_first();
        lemma_scan_escaped(q, cur.push(d[0]), fields);
        assert(cur.push(d[0]) + q =~= cur + d);
        if d[0] == '"' {
            assert(s =~= seq!['"', '"'] + (escape_quotes(q) + seq!['"']));
            assert(s.skip(2) =~= escape_quotes(q) + seq!['"']);
            assert(s[1] == '"');
        } else {
            assert(s =~= seq![d[0]] + (escape_quotes(q) + seq!['"']));
            assert(s.skip(1) =~= escape_quotes(q) + seq!['"']);
        }
    }
}

proof fn lemma_scan_quoted(d: Seq<char>, fields: Seq<Seq<char>>)
    ensures
        csv_scan(csv_quoted(d), false, seq![], fields) == fields.push(d),
{
    let s = csv_quoted(d);
    assert(s[0] == '"');
    assert(s.skip(1) =~= escape_quotes(d) + seq!['"']);
    lemma_scan_escaped(d, seq![], fields);
    assert(Seq::<char>::empty() + d =~= d);
}

proof fn lemma_scan_join(fs: Seq<Seq<char>>, d: Seq<char>, fields: Seq<Seq<char>>)
    requires
        forall|i: int| 0 <= i < fs.len() ==> csv_plain(#[trigger] fs[i]),
    ensures
        csv_scan(join_then(fs, csv_quoted(d)), false, seq![], fields) == fields + fs + seq![d],
    decreases fs.len(),
{
    if fs.len() == 0 {
        lemma_scan_quoted(d, fields);
        assert(fields + fs + seq![d] =~= fields.push(d));
    } else {
        let j = join_then(fs.drop_first(), csv_quoted(d));
        assert(join_then(fs, csv_quoted(d)) =~= fs[0] + (seq![','] + j));
        assert(csv_plain(fs[0]));
        lemma_scan_plain(fs[0], seq![','] + j, seq![], fields);
        assert(Seq::<char>::empty() + fs[0] =~= fs[0]);
        let s = seq![','] + j;
        assert(s[0] == ',');
        assert(s.skip(1) =~= j);
        assert forall|i: int| 0 <= i < fs.drop_first().len() implies csv_plain(#[trigger] fs.drop_first()[i]) by {
            assert(fs.drop_first()[i] == fs[i + 1]);
        }
        lemma_scan_join(fs.drop_first(), d, fields.push(fs[0]));
        assert(fields.push(fs[0]) + fs.drop_first() + seq![d] =~= fields + fs + seq![d]);
    }
}

proof fn lemma_scan_escaped_then(d: Seq<char>, rest: Seq<char>, cur: Seq<char>, fields: Seq<Seq<char>>)
    requires
        rest.len() == 0 || rest[0] != '"',
    ensures
        csv_scan(escape_quotes(d) + seq!['"'] + rest, true, cur, fields) == csv_scan(rest, false, cur + d, fields),
    decreases d.len(),
{
    let s = escape_quotes(d) + seq!['"'] + rest;
    if d.len() == 0 {
        assert(escape_quotes(d) =~= Seq::<char>::empty());
        assert(s =~= seq!['"'] + rest);
        assert(s.skip(1) =~= rest);
        assert(cur + d =~= cur);
        if s.len() > 1 {
            assert(s[1] == rest[0]);
        }
    } else {
        let q = d.drop_first();
        lemma_scan_escaped_then(q, rest, cur.push(d[0]), fields);
        assert(cur.push(d[0]) + q =~= cur + d);
        if d[0] == '"' {
            assert(s =~= seq!['"', '"'] + (escape_quotes(q) + seq!['"'] + rest));
            assert(s.skip(2) =~= escape_quotes(q) + seq!['"'] + rest);
            assert(s[1] == '"');
        } else {
            assert(s =~= seq![d[0]] + (escape_quotes(q) + seq!['"'] + rest));
            assert(s.skip(1) =~= escape_quotes(q) + seq!['"'] + rest);
        }
    }
}

proof fn lemma_scan_quoted_then(d: Seq<char>, rest: Seq<char>, fields: Seq<Seq<char>>)
    requires
        rest.len() == 0 || rest[0] != '"',
    ensures
        csv_scan(csv_quoted(d) + rest, false, seq![], fields) == csv_scan(rest, false, d, fields),
{
    let s = csv_quoted(d) + rest;
    assert(s[0] == '"');
    assert(s.skip(1) =~= escape_quotes(d) + seq!['"'] + rest);
    lemma_scan_escaped_then(d, rest, seq![], fields);
    assert(Seq::<char>::empty() + d =~= d);
}

/// Fields each written in quotes ([`csv_quoted`]) and joined by `,`.
pub open spec fn quoted_fields_line(fs: Seq<Seq<char>>) -> Seq<char> {
    join_then(fs.drop_last().map_values(|d: Seq<char>| csv_quoted(d)), csv_quoted(fs.last()))
}

proof fn lemma_scan_join_quoted(gs: Seq<Seq<char>>, d: Seq<char>, fields: Seq<Seq<char>>)
    ensures
        csv_scan(join_then(gs.map_values(|e: Seq<char>| csv_quoted(e)), csv_quoted(d)), false, seq![], fields)
            == fields + gs + seq![d],
    decreases gs.len(),
{
    let qs = gs.map_values(|e: Seq<char>| csv_quoted(e));
    if gs.len() == 0 {
        assert(qs =~= Seq::<Seq<char>>::empty());
        lemma_scan_quoted(d, fields);
        assert(fields + gs + seq![d] =~= fields.push(d));
    } else {
        let rest_q = gs.drop_first().map_values(|e: Seq<char>| csv_quoted(e));
        assert(qs.drop_first() =~= rest_q);
        let j = join_then(rest_q, csv_quoted(d));
        assert(join_then(qs, csv_quoted(d)) =~= csv_quoted(gs[0]) + (seq![','] + j));
        let tail = seq![','] + j;
        assert(tail[0] == ',');
        lemma_scan_quoted_then(gs[0], tail, fields);
        assert(tail.skip(1) =~= j);
        lemma_scan_join_quoted(gs.drop_first(), d, fields.push(gs[0]));
        assert(fields.push(gs[0]) + gs.drop_first() + seq![d] =~= fields + gs + seq![d]);
    }
}

/// Splitting a line of fields each written in quotes and joined by `,`
/// gives back the fields.
pub proof fn lemma_split_quoted_fields(fs: Seq<Seq<char>>)
    requires
        fs.len() >= 1,
    ensures
        csv_split(quoted_fields_line(fs)) == fs,
{
    lemma_scan_join_quoted(fs.drop_last(), fs.last(), seq![]);
    assert(Seq::<Seq<char>>::empty() + fs.drop_last() + seq![fs.last()] =~= fs);
}

/// The names of types and statuses are plain fields without `\n`.
proof fn lemma_names_plain(t: TxRecord)
    ensures
        csv_plain(t.tx_type.name()),
        csv_plain(t.status.name()),
        free_of(t.tx_type.name(), '\n'),
        free_of(t.status.name(), '\n'),
{
    let a = t.tx_type.name();
    let b = t.status.name();
    assert forall|i: int| 0 <= i < a.len() implies a[i] != '"' && a[i] != ',' && a[i] != '\n' by {
        assert('A' <= a[i] && a[i] <= 'Z');
    }
    assert forall|i: int| 0 <= i < b.len() implies b[i] != '"' && b[i] != ',' && b[i] != '\n' by {
        assert('A' <= b[i] && b[i] <= 'Z');
    }
}

/// The fields before the description are plain and hold no `\n`.
proof fn lemma_plain_fields(t: TxRecord)
    ensures
        forall|i: int| 0 <= i < csv_plain_fields(t).len() ==> csv_plain(#[trigger] csv_plain_fields(t)[i])
            && free_of(csv_plain_fields(t)[i], '\n'),
        csv_plain_fields(t).len() == 7,
        csv_plain_fields(t)[0].len() > 0,
        is_digit(csv_plain_fields(t)[0][0]),
{
    lemma_names_plain(t);
    lemma_decimal_free_of(t.tx_id as nat, t.amount as int, '"');
    lemma_decimal_free_of(t.tx_id as nat, t.amount as int, ',');
    lemma_decimal_free_of(t.tx_id as nat, t.amount as int, '\n');
    lemma_decimal_free_of(t.from_user_id as nat, 0, '"');
    lemma_decimal_free_of(t.from_user_id as nat, 0, ',');
    lemma_decimal_free_of(t.from_user_id as nat, 0, '\n');
    lemma_decimal_free_of(t.to_user_id as nat, 0, '"');
    lemma_decimal_free_of(t.to_user_id as nat, 0, ',');
    lemma_decimal_free_of(t.to_user_id as nat, 0, '\n');
    lemma_decimal_free_of(t.timestamp as nat, 0, '"');
    lemma_decimal_free_of(t.timestamp as nat, 0, ',');
    lemma_decimal_free_of(t.timestamp as nat, 0, '\n');
}

/// Escaping keeps a text free of a character other than `"`.
proof fn lemma_escape_free_of(d: Seq<char>, c: char)
    requires
        free_of(d, c),
        c != '"',
    ensures
        free_of(escape_quotes(d), c),
    decreases d.len(),
{
    if d.len() > 0 {
        let q = d.drop_first();
        assert(free_of(q, c)) by {
            assert forall|i: int| 0 <= i < q.len() implies q[i] != c by {
                assert(q[i] == d[i + 1]);
            }
        }
        lemma_escape_free_of(q, c);
        let p = if d[0] == '"' { seq!['"', '"'] } else { seq![d[0]] };
        assert(free_of(p, c));
        lemma_free_of_concat(p, escape_quotes(q), c);
    } else {
        assert(escape_quotes(d) =~= Seq::<char>::empty());
    }
}

/// Fields each followed by `,`, then a last part, are free of a character
/// other than `,` that none of them holds.
proof fn lemma_join_free_of(fs: Seq<Seq<char>>, last: Seq<char>, c: char)
    requires
        forall|i: int| 0 <= i < fs.len() ==> free_of(#[trigger] fs[i], c),
        free_of(last, c),
        c != ',',
    ensures
        free_of(join_then(fs, last), c),
    decreases fs.len(),
{
    if fs.len() > 0 {
        assert forall|i: int| 0 <= i < fs.drop_first().len() implies free_of(#[trigger] fs.drop_first()[i], c) by {
            assert(fs.drop_first()[i] == fs[i + 1]);
        }
        lemma_join_free_of(fs.drop_first(), last, c);
        assert(free_of(fs[0], c));
        assert(free_of(seq![','], c));
        lemma_free_of_concat(fs[0], seq![','], c);
        lemma_free_of_concat(fs[0] + seq![','], join_then(fs.drop_first(), last), c);
    }
}

/// A transaction that CSV carries unchanged: its description holds no line end.
pub open spec fn csv_faithful(t: TxRecord) -> bool {
    free_of(t.description, '\n')
}

/// The CSV line of a transaction: a plain line, unchanged by trimming, whose
/// fields read back as the transaction.
proof fn lemma_csv_line_reads_back(t: TxRecord)
    requires
        csv_faithful(t),
    ensures
        plain_line(csv_line(t)),
        trim(csv_line(t)) == csv_line(t),
        csv_line(t).len() > 0,
        csv_split(csv_line(t)) == csv_plain_fields(t) + seq![t.description],
        csv_split(csv_line(t)).len() == 8,
        spec_fields_to_record(csv_split(csv_line(t))) == Ok::<TxRecord, ParserFault>(t),
{
    let f = csv_plain_fields(t);
    let q = csv_quoted(t.description);
    let line = csv_line(t);
    lemma_plain_fields(t);
    lemma_join_seven(f, q);
    let c = seq![','];
    // the line opens with the first digit of the identifier and closes with `"`
    assert(line[0] == f[0][0]);
    assert(line.last() == '"');
    // no line end inside, no `\r` at the end
    lemma_escape_free_of(t.description, '\n');
    assert(free_of(seq!['"'], '\n'));
    lemma_free_of_concat(seq!['"'], escape_quotes(t.description), '\n');
    lemma_free_of_concat(seq!['"'] + escape_quotes(t.description), seq!['"'], '\n');
    lemma_join_free_of(f, q, '\n');
    // trimming changes nothing
    assert(!is_white_space(line[0]));
    assert(!is_white_space(line.last()));
    assert(strip_start(line, white_space_test()) == line);
    assert(strip_end(line, white_space_test()) == line);
    // the fields read back
    lemma_scan_join(f, t.description, seq![]);
    assert(Seq::<Seq<char>>::empty() + f + seq![t.description] =~= f + seq![t.description]);
    let g = f + seq![t.description];
    assert(g[0] == decimal(t.tx_id as nat));
    assert(g[1] == t.tx_type.name());
    assert(g[2] == decimal(t.from_user_id as nat));
    assert(g[3] == decimal(t.to_user_id as nat));
    assert(g[4] == signed_decimal(t.amount as int));
    assert(g[5] == decimal(t.timestamp as nat));
    assert(g[6] == t.status.name());
    assert(g[7] == t.description);
    lemma_u64_text_roundtrip(t.tx_id);
    lemma_u64_text_roundtrip(t.from_user_id);
    lemma_u64_text_roundtrip(t.to_user_id);
    lemma_i64_text_roundtrip(t.amount);
    lemma_u64_text_roundtrip(t.timestamp);
    lemma_tx_type_name_roundtrip(t.tx_type, t.tx_type.name());
    lemma_tx_status_name_roundtrip(t.status, t.status.name());
}

/// The CSV lines of transactions.
pub open spec fn csv_lines(ts: Seq<TxRecord>) -> Seq<Seq<char>> {
    ts.map_values(|t: TxRecord| csv_line(t))
}

proof fn lemma_csv_body_lines(ts: Seq<TxRecord>)
    ensures
        csv_body(ts) == lines_text(csv_lines(ts)),
    decreases ts.len(),
{
    if ts.len() > 0 {
        lemma_csv_body_lines(ts.drop_last());
        assert(csv_lines(ts).drop_last() =~= csv_lines(ts.drop_last()));
        assert(csv_lines(ts).last() == csv_line(ts.last()));
    } else {
        assert(csv_lines(ts) =~= Seq::<Seq<char>>::empty());
    }
}

proof fn lemma_lines_text_front(h: Seq<char>, m: Seq<Seq<char>>)
    ensures
        lines_text(seq![h] + m) == h + seq!['\n'] + lines_text(m),
    decreases m.len(),
{
    if m.len() == 0 {
        assert(seq![h] + m =~= seq![h]);
        assert(seq![h].drop_last() =~= Seq::<Seq<char>>::empty());
        assert(lines_text(Seq::<Seq<char>>::empty()) =~= Seq::<char>::empty());
        assert(lines_text(seq![h]) =~= h + seq!['\n'] + lines_text(m));
    } else {
        lemma_lines_text_front(h, m.drop_last());
        assert((seq![h] + m).drop_last() =~= seq![h] + m.drop_last());
        assert((seq![h] + m).last() == m.last());
        assert(lines_text(seq![h] + m) =~= h + seq!['\n'] + lines_text(m));
    }
}

proof fn lemma_header_line()
    ensures
        plain_line(csv_header()),
        trim(csv_header()) == csv_header(),
{
    reveal_strlit("TX_ID,TX_TYPE,FROM_USER_ID,TO_USER_ID,AMOUNT,TIMESTAMP,STATUS,DESCRIPTION");
    let h = csv_header();
    let chars: Seq<char> = seq!['T', 'X', '_', 'I', 'D', ',', 'T', 'X', '_', 'T', 'Y', 'P', 'E', ',', 'F', 'R', 'O', 'M', '_', 'U', 'S', 'E', 'R', '_', 'I', 'D', ',', 'T', 'O', '_', 'U', 'S', 'E', 'R', '_', 'I', 'D', ',', 'A', 'M', 'O', 'U', 'N', 'T', ',', 'T', 'I', 'M', 'E', 'S', 'T', 'A', 'M', 'P', ',', 'S', 'T', 'A', 'T', 'U', 'S', ',', 'D', 'E', 'S', 'C', 'R', 'I', 'P', 'T', 'I', 'O', 'N'];
    assert(h =~= chars);
    assert(free_of_from(chars, '\n', 0)) by {
        reveal_with_fuel(free_of_from, 74);
    }
    lemma_free_of_from(chars, '\n', 0);
    assert(h[0] == 'T');
    assert(h.last() == 'N');
    assert(strip_start(h, white_space_test()) == h);
    assert(strip_end(h, white_space_test()) == h);
}

proof fn lemma_csv_records_read_back(ts: Seq<TxRecord>)
    requires
        forall|i: int| 0 <= i < ts.len() ==> csv_faithful(#[trigger] ts[i]),
    ensures
        spec_csv_records(encode_lines(csv_lines(ts))) == Ok::<Seq<TxRecord>, ParserFault>(ts),
    decreases ts.len(),
{
    let lines = encode_lines(csv_lines(ts));
    if ts.len() == 0 {
        assert(lines =~= Seq::<Seq<u8>>::empty());
        assert(ts =~= Seq::<TxRecord>::empty());
    } else {
        let t = ts[0];
        assert(csv_faithful(t));
        lemma_csv_line_reads_back(t);
        assert(lines[0] == vstd::utf8::encode_utf8(csv_line(t)));
        lemma_line_chars_encode(csv_line(t));
        assert forall|i: int| 0 <= i < ts.drop_first().len() implies csv_faithful(#[trigger] ts.drop_first()[i]) by {
            assert(ts.drop_first()[i] == ts[i + 1]);
        }
        lemma_csv_records_read_back(ts.drop_first());
        assert(lines.drop_first() =~= encode_lines(csv_lines(ts.drop_first())));
        assert(seq![t] + ts.drop_first() =~= ts);
    }
}

/// Reading the CSV form of transactions gives them back, when no
/// description holds a line end ([`csv_faithful`]).
pub proof fn lemma_csv_roundtrip(ts: Seq<TxRecord>)
    requires
        forall|i: int| 0 <= i < ts.len() ==> csv_faithful(#[trigger] ts[i]),
    ensures
        spec_read_csv(encode_utf8(spec_csv_text(ts))) == Ok::<Seq<TxRecord>, ParserFault>(ts),
{
    let h = csv_header();
    let m = csv_lines(ts);
    let all = seq![h] + m;
    lemma_csv_body_lines(ts);
    lemma_lines_text_front(h, m);
    assert(spec_csv_text(ts) == lines_text(all));
    lemma_header_line();
    assert forall|i: int| 0 <= i < all.len() implies plain_line(#[trigger] all[i]) by {
        if i > 0 {
            assert(all[i] == m[i - 1]);
            assert(csv_faithful(ts[i - 1]));
            lemma_csv_line_reads_back(ts[i - 1]);
        }
    }
    lemma_lines_of_text(all);
    let lines = encode_lines(all);
    assert(lines[0] == encode_utf8(h));
    lemma_line_chars_encode(h);
    assert(lines.drop_first() =~= encode_lines(m));
    lemma_csv_records_read_back(ts);
}

} // verus!
