//! The text format: records of `KEY: value` lines separated by blank lines,
//! with `#` comment lines.

use vstd::prelude::*;
use crate::error::{IoErrorKind, ParserError, ParserFault};
use crate::text::{encode_lines, free_of, free_of_from, is_digit, is_white_space, lemma_decimal_digits,
    lemma_free_of_concat, lemma_free_of_from, lemma_i64_text_roundtrip, lemma_line_chars_encode, lemma_lines_of_text,
    lemma_u64_text_roundtrip, plain_line, strip_end, strip_start, white_space_test, byte_lines, byte_views, chars_equal, chars_of, copy_range, decode_line, i64_text_value,
    line_chars, lemma_lines_text_push, lines_text, decimal, decimal_string, parse_i64, parse_u64, push_char,
    push_chars, signed_decimal, signed_decimal_string, split_lines, string_of, trim, trim_white_space, u64_text_value, lemma_line_scan_closed, lemma_line_scan_concat, lemma_one_line, lemma_trim_drop_white_end, line_scan, strip_cr};
use crate::transaction::{lemma_tx_status_name_roundtrip, lemma_tx_type_name_roundtrip, prepend_records, records, Transaction, TxRecord, TxStatus, TxType};

verus! {

/// The fields of one record, in the order read; a later field of the same
/// name replaces an earlier one.
pub struct RecordFields {
    entries: Vec<(Vec<char>, Vec<char>)>,
}

/// The map of names to values that entries give, later ones winning.
pub open spec fn fields_map(v: Seq<(Vec<char>, Vec<char>)>) -> Map<Seq<char>, Seq<char>>
    decreases v.len(),
{
    if v.len() == 0 {
        Map::empty()
    } else {
        fields_map(v.drop_last()).insert(v.last().0@, v.last().1@)
    }
}

proof fn lemma_fields_map_tail(v: Seq<(Vec<char>, Vec<char>)>, i: int, k: Seq<char>)
    requires
        0 <= i <= v.len(),
        forall|j: int| i <= j < v.len() ==> (#[trigger] v[j]).0@ != k,
    ensures
        fields_map(v).dom().contains(k) == fields_map(v.take(i)).dom().contains(k),
        fields_map(v).dom().contains(k) ==> fields_map(v)[k] == fields_map(v.take(i))[k],
    decreases v.len(),
{
    if v.len() == i {
        assert(v.take(i) =~= v);
    } else {
        let w = v.drop_last();
        assert(v[v.len() - 1].0@ != k);
        assert forall|j: int| i <= j < w.len() implies (#[trigger] w[j]).0@ != k by {
            assert(w[j] == v[j]);
        }
        lemma_fields_map_tail(w, i, k);
        assert(w.take(i) =~= v.take(i));
    }
}

impl View for RecordFields {
    type V = Map<Seq<char>, Seq<char>>;

    closed spec fn view(&self) -> Map<Seq<char>, Seq<char>> {
        fields_map(self.entries@)
    }
}

impl RecordFields {
    /// No fields.
    pub fn new() -> (r: Self)
        ensures
            r@ == Map::<Seq<char>, Seq<char>>::empty(),
    {
        RecordFields { entries: Vec::new() }
    }

    /// Where the field named `key` was last set, if anywhere.
    fn position(&self, key: &[char]) -> (r: Option<usize>)
        ensures
            r is None <==> !self@.dom().contains(key@),
            r matches Some(i) ==> i < self.entries@.len() && self@[key@] == self.entries@[i as int].1@,
    {
        let mut i = self.entries.len();
        while i > 0
            invariant
                i <= self.entries@.len(),
                forall|j: int| i <= j < self.entries@.len() ==> (#[trigger] self.entries@[j]).0@ != key@,
            decreases i,
        {
            if chars_equal(self.entries[i - 1].0.as_slice(), key) {
                proof {
                    lemma_fields_map_tail(self.entries@, i as int, key@);
                    assert(self.entries@.take(i as int).drop_last() =~= self.entries@.take(i - 1));
                    assert(self.entries@.take(i as int).last() == self.entries@[i - 1]);
                }
                return Some(i - 1);
            }
            i = i - 1;
        }
        proof {
            lemma_fields_map_tail(self.entries@, 0, key@);
            assert(self.entries@.take(0) =~= Seq::<(Vec<char>, Vec<char>)>::empty());
        }
        None
    }

    /// Whether a field named `key` is set.
    pub fn contains_key(&self, key: &[char]) -> (r: bool)
        ensures
            r == self@.dom().contains(key@),
    {
        self.position(key).is_some()
    }

    /// The value of the field named `key`, if it is set.
    pub fn get(&self, key: &[char]) -> (r: Option<&Vec<char>>)
        ensures
            r is Some <==> self@.dom().contains(key@),
            r matches Some(v) ==> v@ == self@[key@],
    {
        match self.position(key) {
            Some(i) => Some(&self.entries[i].1),
            None => None,
        }
    }

    /// Sets the field named `key` to `value`.
    pub fn insert(&mut self, key: Vec<char>, value: Vec<char>)
        ensures
            final(self)@ == old(self)@.insert(key@, value@),
    {
        let ghost k = key@;
        let ghost v = value@;
        self.entries.push((key, value));
        assert(self.entries@.drop_last() =~= old(self).entries@);
    }
}

/// The value of a `u64` field, or why there is none.
pub open spec fn u64_field(m: Map<Seq<char>, Seq<char>>, k: Seq<char>) -> Result<u64, ParserFault> {
    if !m.dom().contains(k) {
        Err(ParserFault::MissingRequiredFields(k))
    } else {
        match u64_text_value(m[k]) {
            Some(v) => Ok(v),
            None => Err(ParserFault::ParseIntError),
        }
    }
}

/// The value of an `i64` field, or why there is none.
pub open spec fn i64_field(m: Map<Seq<char>, Seq<char>>, k: Seq<char>) -> Result<i64, ParserFault> {
    if !m.dom().contains(k) {
        Err(ParserFault::MissingRequiredFields(k))
    } else {
        match i64_text_value(m[k]) {
            Some(v) => Ok(v),
            None => Err(ParserFault::ParseIntError),
        }
    }
}

/// The description field's value without the quotes around it, where it
/// opens and closes with `"`; a lone `"` stays as it is.
pub open spec fn unquote(raw: Seq<char>) -> Seq<char> {
    if raw.len() >= 2 && raw[0] == '"' && raw.last() == '"' {
        raw.subrange(1, raw.len() - 1)
    } else {
        raw
    }
}

/// The transaction that the fields of a record give, or the first fault,
/// looking the fields up in a fixed order.
pub open spec fn spec_construct(m: Map<Seq<char>, Seq<char>>) -> Result<TxRecord, ParserFault> {
    match u64_field(m, "TX_ID"@) {
        Err(e) => Err(e),
        Ok(tx_id) => match u64_field(m, "FROM_USER_ID"@) {
            Err(e) => Err(e),
            Ok(from_user_id) => match u64_field(m, "TO_USER_ID"@) {
                Err(e) => Err(e),
                Ok(to_user_id) => match i64_field(m, "AMOUNT"@) {
                    Err(e) => Err(e),
                    Ok(amount) => match u64_field(m, "TIMESTAMP"@) {
                        Err(e) => Err(e),
                        Ok(timestamp) => if !m.dom().contains("TX_TYPE"@) {
                            Err(ParserFault::MissingRequiredFields("TX_TYPE"@))
                        } else {
                            match TxType::from_name(m["TX_TYPE"@]) {
                                None => Err(ParserFault::InvalidTransactionType(m["TX_TYPE"@])),
                                Some(tx_type) => if !m.dom().contains("STATUS"@) {
                                    Err(ParserFault::MissingRequiredFields("STATUS"@))
                                } else {
                                    match TxStatus::from_name(m["STATUS"@]) {
                                        None => Err(ParserFault::InvalidTransactionStatus(m["STATUS"@])),
                                        Some(status) => if !m.dom().contains("DESCRIPTION"@) {
                                            Err(ParserFault::MissingRequiredFields("DESCRIPTION"@))
                                        } else {
                                            Ok(TxRecord {
                                                tx_id,
                                                tx_type,
                                                from_user_id,
                                                to_user_id,
                                                amount,
                                                timestamp,
                                                status,
                                                description: unquote(m["DESCRIPTION"@]),
                                            })
                                        },
                                    }
                                },
                            }
                        },
                    },
                },
            },
        },
    }
}

/// The field named `key`, or the error for a missing one.
fn field_value<'a>(parts: &'a RecordFields, key: &str) -> (r: Result<&'a Vec<char>, ParserError>)
    ensures
        parts@.dom().contains(key@) ==> (r matches Ok(v) && v@ == parts@[key@]),
        !parts@.dom().contains(key@) ==> (r matches Err(e) && e@ == ParserFault::MissingRequiredFields(key@)),
{
    let k = chars_of(key);
    match parts.get(k.as_slice()) {
        Some(v) => Ok(v),
        None => Err(ParserError::MissingRequiredFields(key.to_owned())),
    }
}

/// Reads a `u64` field.
fn u64_value(parts: &RecordFields, key: &str) -> (r: Result<u64, ParserError>)
    ensures
        match u64_field(parts@, key@) {
            Ok(v) => r == Ok::<u64, ParserError>(v),
            Err(f) => r matches Err(e) && e@ == f,
        },
{
    let v = match field_value(parts, key) {
        Ok(v) => v,
        Err(e) => return Err(e),
    };
    let s = string_of(v.as_slice());
    match parse_u64(s.as_str()) {
        Ok(n) => Ok(n),
        Err(e) => Err(ParserError::ParseIntError(e)),
    }
}

/// Reads an `i64` field.
fn i64_value(parts: &RecordFields, key: &str) -> (r: Result<i64, ParserError>)
    ensures
        match i64_field(parts@, key@) {
            Ok(v) => r == Ok::<i64, ParserError>(v),
            Err(f) => r matches Err(e) && e@ == f,
        },
{
    let v = match field_value(parts, key) {
        Ok(v) => v,
        Err(e) => return Err(e),
    };
    let s = string_of(v.as_slice());
    match parse_i64(s.as_str()) {
        Ok(n) => Ok(n),
        Err(e) => Err(ParserError::ParseIntError(e)),
    }
}

/// Builds a transaction from the fields of a record.
pub fn construct_transaction(parts: &RecordFields) -> (r: Result<Transaction, ParserError>)
    ensures
        match spec_construct(parts@) {
            Ok(rec) => r matches Ok(t) && t@ == rec,
            Err(f) => r matches Err(e) && e@ == f,
        },
{
    let tx_id = match u64_value(parts, "TX_ID") {
        Ok(v) => v,
        Err(e) => return Err(e),
    };
    let from_user_id = match u64_value(parts, "FROM_USER_ID") {
        Ok(v) => v,
        Err(e) => return Err(e),
    };
    let to_user_id = match u64_value(parts, "TO_USER_ID") {
        Ok(v) => v,
        Err(e) => return Err(e),
    };
    let amount = match i64_value(parts, "AMOUNT") {
        Ok(v) => v,
        Err(e) => return Err(e),
    };
    let timestamp = match u64_value(parts, "TIMESTAMP") {
        Ok(v) => v,
        Err(e) => return Err(e),
    };
    let type_text = match field_value(parts, "TX_TYPE") {
        Ok(v) => string_of(v.as_slice()),
        Err(e) => return Err(e),
    };
    let tx_type = match TxType::parse_name(type_text.as_str()) {
        Ok(t) => t,
        Err(e) => return Err(e),
    };
    let status_text = match field_value(parts, "STATUS") {
        Ok(v) => string_of(v.as_slice()),
        Err(e) => return Err(e),
    };
    let status = match TxStatus::parse_name(status_text.as_str()) {
        Ok(t) => t,
        Err(e) => return Err(e),
    };
    let raw = match field_value(parts, "DESCRIPTION") {
        Ok(v) => v,
        Err(e) => return Err(e),
    };
    let n = raw.len();
    let description = if n >= 2 && raw[0] == '"' && raw[n - 1] == '"' {
        string_of(copy_range(raw.as_slice(), 1, n - 1).as_slice())
    } else {
        string_of(raw.as_slice())
    };
    Ok(Transaction { tx_id, tx_type, from_user_id, to_user_id, amount, timestamp, status, description })
}

/// Where the first `:` of `s` is, or `s.len()` if it has none.
pub open spec fn colon_at(s: Seq<char>) -> int
    decreases s.len(),
{
    if s.len() == 0 {
        0
    } else if s[0] == ':' {
        0
    } else {
        1 + colon_at(s.drop_first())
    }
}

proof fn lemma_colon_at_bound(s: Seq<char>)
    ensures
        0 <= colon_at(s) <= s.len(),
    decreases s.len(),
{
    if s.len() > 0 {
        lemma_colon_at_bound(s.drop_first());
    }
}

/// Reading text lines with the fields of the record being read and whether
/// one is open: the transactions, or the fault that stops reading. Lines
/// are trimmed; `#` lines are comments; a blank
/// line ends an open record; a line with a `:` sets the field named by what
/// precedes its first `:` (trimmed) to what follows (trimmed), unless that
/// field is already set, which is a duplicate; other lines are ignored. The input's end
/// ends an open record.
pub open spec fn spec_txt_scan(lines: Seq<Seq<u8>>, parts: Map<Seq<char>, Seq<char>>, in_record: bool) -> Result<Seq<TxRecord>, ParserFault>
    decreases lines.len(),
{
    if lines.len() == 0 {
        if in_record {
            match spec_construct(parts) {
                Err(e) => Err(e),
                Ok(rec) => Ok(seq![rec]),
            }
        } else {
            Ok(seq![])
        }
    } else {
        match line_chars(lines[0]) {
            None => Err(ParserFault::Io(IoErrorKind::InvalidData)),
            Some(line) => {
                let t = trim(line);
                let rest = lines.drop_first();
                if t.len() > 0 && t[0] == '#' {
                    spec_txt_scan(rest, parts, in_record)
                } else if t.len() == 0 {
                    if in_record {
                        match spec_construct(parts) {
                            Err(e) => Err(e),
                            Ok(rec) => prepend_records(seq![rec], spec_txt_scan(rest, Map::empty(), false)),
                        }
                    } else {
                        spec_txt_scan(rest, parts, in_record)
                    }
                } else if colon_at(t) < t.len() {
                    let key = t.take(colon_at(t));
                    let value = t.skip(colon_at(t) + 1);
                    if parts.dom().contains(trim(key)) {
                        Err(ParserFault::DuplicatedFieldInRecord(trim(key)))
                    } else {
                        spec_txt_scan(rest, parts.insert(trim(key), trim(value)), true)
                    }
                } else {
                    spec_txt_scan(rest, parts, in_record)
                }
            },
        }
    }
}

/// The transactions of a text input, or the fault that stops reading.
pub open spec fn spec_read_txt(data: Seq<u8>) -> Result<Seq<TxRecord>, ParserFault> {
    spec_txt_scan(byte_lines(data), Map::empty(), false)
}

/// Where the first `:` of `v` is, or its length if it has none.
fn find_colon(v: &[char]) -> (i: usize)
    ensures
        i == colon_at(v@),
{
    let mut i: usize = 0;
    assert(v@.skip(0) =~= v@);
    while i < v.len() && v[i] != ':'
        invariant
            i <= v@.len(),
            colon_at(v@) == i + colon_at(v@.skip(i as int)),
        decreases v@.len() - i,
    {
        assert(v@.skip(i as int)[0] == v@[i as int]);
        assert(v@.skip(i as int).drop_first() =~= v@.skip(i + 1));
        i = i + 1;
    }
    if i < v.len() {
        assert(v@.skip(i as int)[0] == v@[i as int]);
    }
    i
}

/// Reads the transactions of a text input.
pub fn read_txt(data: &[u8]) -> (r: Result<Vec<Transaction>, ParserError>)
    ensures
        match spec_read_txt(data@) {
            Ok(recs) => r matches Ok(txs) && records(txs@) == recs,
            Err(f) => r matches Err(e) && e@ == f,
        },
{
    let lines = split_lines(data);
    let ghost lv = byte_views(lines@);
    assert(forall|i: int| 0 <= i < lines@.len() ==> lv[i] == lines@[i]@);
    let n = lines.len();
    let mut parts = RecordFields::new();
    let mut transactions: Vec<Transaction> = Vec::new();
    let mut in_record = false;
    let mut i: usize = 0;
    assert(lv.subrange(0, n as int) =~= lv);
    assert(records(transactions@) + Seq::<TxRecord>::empty() =~= Seq::<TxRecord>::empty());
    while i < n
        invariant
            n == lines@.len(),
            lv == byte_views(lines@),
            i <= n,
            spec_read_txt(data@) == prepend_records(records(transactions@), spec_txt_scan(lv.subrange(i as int, n as int), parts@, in_record)),
        decreases n - i,
    {
        let ghost rest = lv.subrange(i as int, n as int);
        assert(rest[0] == lines@[i as int]@);
        assert(rest.drop_first() =~= lv.subrange(i + 1, n as int));
        let chars = match decode_line(lines[i].as_slice()) {
            Ok(c) => c,
            Err(e) => return Err(e),
        };
        let t = trim_white_space(chars.as_slice());
        if t.len() > 0 && t[0] == '#' {
        } else if t.len() == 0 {
            if in_record {
                in_record = false;
                let tx = match construct_transaction(&parts) {
                    Ok(tx) => tx,
                    Err(e) => return Err(e),
                };
                proof {
                    assert(records(transactions@.push(tx)) =~= records(transactions@) + seq![tx@]);
                    match spec_txt_scan(lv.subrange(i + 1, n as int), Map::empty(), false) {
                        Ok(more) => {
                            assert(records(transactions@) + (seq![tx@] + more) =~= records(transactions@.push(tx)) + more);
                        },
                        _ => {},
                    }
                }
                transactions.push(tx);
                parts = RecordFields::new();
            }
        } else {
            let c = find_colon(t.as_slice());
            proof {
                lemma_colon_at_bound(t@);
            }
            if c < t.len() {
                in_record = true;
                let key = copy_range(t.as_slice(), 0, c);
                let value = copy_range(t.as_slice(), c + 1, t.len());
                assert(key@ =~= t@.take(c as int));
                assert(value@ =~= t@.skip(c + 1));
                let trimmed_key = trim_white_space(key.as_slice());
                if parts.contains_key(trimmed_key.as_slice()) {
                    return Err(ParserError::DuplicatedFieldInRecord { key: string_of(trimmed_key.as_slice()) });
                }
                parts.insert(trimmed_key, trim_white_space(value.as_slice()));
            }
        }
        i = i + 1;
    }
    assert(lv.subrange(n as int, n as int) =~= Seq::<Seq<u8>>::empty());
    if in_record {
        let tx = match construct_transaction(&parts) {
            Ok(tx) => tx,
            Err(e) => return Err(e),
        };
        proof {
            assert(records(transactions@.push(tx)) =~= records(transactions@) + seq![tx@]);
        }
        transactions.push(tx);
    } else {
        assert(records(transactions@) + Seq::<TxRecord>::empty() =~= records(transactions@));
    }
    Ok(transactions)
}

/// A line of a text input that is a comment: valid UTF-8 whose trimmed text
/// starts with `#`.
pub open spec fn comment_line(l: Seq<u8>) -> bool {
    line_chars(l) matches Some(ch) && trim(ch).len() > 0 && trim(ch)[0] == '#'
}

proof fn lemma_scan_skips_comment(
    a: Seq<Seq<u8>>,
    l: Seq<u8>,
    b: Seq<Seq<u8>>,
    parts: Map<Seq<char>, Seq<char>>,
    in_record: bool,
)
    requires
        comment_line(l),
    ensures
        spec_txt_scan(a + seq![l] + b, parts, in_record) == spec_txt_scan(a + b, parts, in_record),
    decreases a.len(),
{
    let x = a + seq![l] + b;
    let y = a + b;
    if a.len() == 0 {
        assert(x =~= seq![l] + b);
        assert(x[0] == l);
        assert(x.drop_first() =~= b);
        assert(y =~= b);
    } else {
        assert(x[0] == a[0]);
        assert(y[0] == a[0]);
        assert(x.drop_first() =~= a.drop_first() + seq![l] + b);
        assert(y.drop_first() =~= a.drop_first() + b);
        match line_chars(a[0]) {
            None => {},
            Some(line) => {
                let t = trim(line);
                let key = t.take(colon_at(t));
                let value = t.skip(colon_at(t) + 1);
                lemma_scan_skips_comment(a.drop_first(), l, b, parts, in_record);
                lemma_scan_skips_comment(a.drop_first(), l, b, Map::empty(), false);
                lemma_scan_skips_comment(a.drop_first(), l, b, parts.insert(trim(key), trim(value)), true);
            },
        }
    }
}

/// A comment line (text without a line end whose trimmed form starts with
/// `#`), inserted where a line of a text input begins or at its end after a
/// line end, changes nothing of what reading the input gives.
pub proof fn lemma_comment_line_changes_nothing(p: Seq<u8>, c: Seq<char>, q: Seq<u8>)
    requires
        p.len() == 0 || p.last() == 10,
        free_of(c, '\n'),
        trim(c).len() > 0,
        trim(c)[0] == '#',
    ensures
        spec_read_txt(p + vstd::utf8::encode_utf8(c) + seq![10u8] + q) == spec_read_txt(p + q),
{
    let x = vstd::utf8::encode_utf8(c) + seq![10u8];
    let l = crate::text::strip_cr(vstd::utf8::encode_utf8(c));
    lemma_line_scan_closed(p);
    lemma_one_line(c);
    lemma_line_scan_concat(p, x);
    let lp = line_scan(p).0;
    assert(line_scan(p + x) == (lp + seq![l], Seq::<u8>::empty()));
    assert(p + vstd::utf8::encode_utf8(c) + seq![10u8] + q =~= (p + x) + q);
    lemma_line_scan_concat(p + x, q);
    lemma_line_scan_concat(p, q);
    let (dq, cq) = line_scan(q);
    if cq.len() > 0 {
        assert(byte_lines((p + x) + q) =~= lp + seq![l] + byte_lines(q));
        assert(byte_lines(p + q) =~= lp + byte_lines(q));
    } else {
        assert(byte_lines((p + x) + q) =~= lp + seq![l] + byte_lines(q));
        assert(byte_lines(p + q) =~= lp + byte_lines(q));
    }
    if c.len() > 0 && c.last() == '\r' {
        assert(is_white_space(c.last()));
        lemma_trim_drop_white_end(c);
    }
    assert(comment_line(l));
    lemma_scan_skips_comment(lp, l, byte_lines(q), Map::empty(), false);
}

/// A line of a text input that is blank: valid UTF-8 that trims to nothing.
pub open spec fn blank_line(l: Seq<u8>) -> bool {
    line_chars(l) matches Some(ch) && trim(ch).len() == 0
}

/// After a blank line, a second blank line changes nothing.
proof fn lemma_scan_second_blank(
    a: Seq<Seq<u8>>,
    l1: Seq<u8>,
    l2: Seq<u8>,
    b: Seq<Seq<u8>>,
    parts: Map<Seq<char>, Seq<char>>,
    in_record: bool,
)
    requires
        blank_line(l1),
        blank_line(l2),
    ensures
        spec_txt_scan(a + seq![l1, l2] + b, parts, in_record) == spec_txt_scan(a + seq![l1] + b, parts, in_record),
    decreases a.len(),
{
    let x = a + seq![l1, l2] + b;
    let y = a + seq![l1] + b;
    if a.len() == 0 {
        assert(x[0] == l1);
        assert(y[0] == l1);
        assert(x.drop_first() =~= seq![l2] + b);
        assert(y.drop_first() =~= b);
        let z = seq![l2] + b;
        assert(z[0] == l2);
        assert(z.drop_first() =~= b);
        assert(spec_txt_scan(z, Map::empty(), false) == spec_txt_scan(b, Map::empty(), false));
        assert(spec_txt_scan(z, parts, false) == spec_txt_scan(b, parts, false));
    } else {
        assert(x[0] == a[0]);
        assert(y[0] == a[0]);
        assert(x.drop_first() =~= a.drop_first() + seq![l1, l2] + b);
        assert(y.drop_first() =~= a.drop_first() + seq![l1] + b);
        match line_chars(a[0]) {
            None => {},
            Some(line) => {
                let t = trim(line);
                let key = t.take(colon_at(t));
                let value = t.skip(colon_at(t) + 1);
                lemma_scan_second_blank(a.drop_first(), l1, l2, b, parts, in_record);
                lemma_scan_second_blank(a.drop_first(), l1, l2, b, Map::empty(), false);
                lemma_scan_second_blank(a.drop_first(), l1, l2, b, parts.insert(trim(key), trim(value)), true);
            },
        }
    }
}

/// A blank line at the end changes nothing: it ends an open record as the
/// end of the input does.
proof fn lemma_scan_final_blank(
    a: Seq<Seq<u8>>,
    l: Seq<u8>,
    parts: Map<Seq<char>, Seq<char>>,
    in_record: bool,
)
    requires
        blank_line(l),
    ensures
        spec_txt_scan(a + seq![l], parts, in_record) == spec_txt_scan(a, parts, in_record),
    decreases a.len(),
{
    let x = a + seq![l];
    if a.len() == 0 {
        assert(x =~= seq![l]);
        assert(x[0] == l);
        assert(a =~= Seq::<Seq<u8>>::empty());
        assert(x.drop_first() =~= Seq::<Seq<u8>>::empty());
        assert(spec_txt_scan(Seq::<Seq<u8>>::empty(), Map::empty(), false) == Ok::<Seq<TxRecord>, ParserFault>(seq![]));
        let ch = line_chars(l)->0;
        assert(trim(ch).len() == 0);
        if in_record {
            match spec_construct(parts) {
                Ok(rec) => {
                    assert(seq![rec] + Seq::<TxRecord>::empty() =~= seq![rec]);
                    assert(spec_txt_scan(x, parts, in_record) == Ok::<Seq<TxRecord>, ParserFault>(seq![rec]));
                },
                Err(_) => {},
            }
        } else {
            assert(spec_txt_scan(x, parts, in_record) == spec_txt_scan(x.drop_first(), parts, in_record));
        }
    } else {
        assert(x[0] == a[0]);
        assert(x.drop_first() =~= a.drop_first() + seq![l]);
        match line_chars(a[0]) {
            None => {},
            Some(line) => {
                let t = trim(line);
                let key = t.take(colon_at(t));
                let value = t.skip(colon_at(t) + 1);
                lemma_scan_final_blank(a.drop_first(), l, parts, in_record);
                lemma_scan_final_blank(a.drop_first(), l, Map::empty(), false);
                lemma_scan_final_blank(a.drop_first(), l, parts.insert(trim(key), trim(value)), true);
            },
        }
    }
}

/// Blank lines outside a record change nothing: an empty line inserted at
/// the start of a text input, right after a blank line, or at the end after
/// a line end, leaves what reading gives as it was.
pub proof fn lemma_blank_line_changes_nothing(p: Seq<u8>, q: Seq<u8>)
    requires
        p.len() == 0 || p.last() == 10,
        p.len() == 0 || q.len() == 0 || blank_line(byte_lines(p).last()),
    ensures
        spec_read_txt(p + seq![10u8] + q) == spec_read_txt(p + q),
{
    let x = seq![10u8];
    let e = Seq::<u8>::empty();
    lemma_line_scan_closed(p);
    assert(line_scan(x) == (seq![e], e)) by {
        assert(x.drop_last() =~= e);
        assert(x.last() == 10);
        assert(line_scan(e) == (Seq::<Seq<u8>>::empty(), e));
        assert(strip_cr(e) == e);
        assert(Seq::<Seq<u8>>::empty().push(e) =~= seq![e]);
    }
    lemma_line_scan_concat(p, x);
    let lp = line_scan(p).0;
    assert(p + seq![10u8] + q =~= (p + x) + q);
    lemma_line_scan_concat(p + x, q);
    lemma_line_scan_concat(p, q);
    let (dq, cq) = line_scan(q);
    assert(byte_lines((p + x) + q) =~= lp + seq![e] + byte_lines(q));
    assert(byte_lines(p + q) =~= lp + byte_lines(q));
    lemma_line_chars_encode(Seq::<char>::empty());
    assert(vstd::utf8::encode_utf8(Seq::<char>::empty()) =~= e);
    assert(trim(Seq::<char>::empty()) =~= Seq::<char>::empty());
    assert(blank_line(e));
    if q.len() == 0 {
        assert(byte_lines(q) =~= Seq::<Seq<u8>>::empty()) by {
            assert(line_scan(q) == (Seq::<Seq<u8>>::empty(), e));
        }
        assert(lp + seq![e] + byte_lines(q) =~= lp + seq![e]);
        assert(lp + byte_lines(q) =~= lp);
        lemma_scan_final_blank(lp, e, Map::empty(), false);
    } else if p.len() == 0 {
        assert(line_scan(p).0 =~= Seq::<Seq<u8>>::empty());
        let z = lp + seq![e] + byte_lines(q);
        assert(z =~= seq![e] + byte_lines(q));
        assert(z[0] == e);
        assert(z.drop_first() =~= byte_lines(q));
        assert(lp + byte_lines(q) =~= byte_lines(q));
    } else {
        let a = lp.drop_last();
        let l1 = lp.last();
        assert(lp =~= a + seq![l1]);
        assert(lp + seq![e] + byte_lines(q) =~= a + seq![l1, e] + byte_lines(q));
        assert(lp + byte_lines(q) =~= a + seq![l1] + byte_lines(q));
        lemma_scan_second_blank(a, l1, e, byte_lines(q), Map::empty(), false);
    }
}

/// A `KEY: value` line.
pub open spec fn field_line(key: Seq<char>, value: Seq<char>) -> Seq<char> {
    key + ": "@ + value
}

/// The lines of a record, one per field.
pub open spec fn txt_record_lines(t: TxRecord) -> Seq<Seq<char>> {
    seq![
        field_line("TX_ID"@, decimal(t.tx_id as nat)),
        field_line("TX_TYPE"@, t.tx_type.name()),
        field_line("FROM_USER_ID"@, decimal(t.from_user_id as nat)),
        field_line("TO_USER_ID"@, decimal(t.to_user_id as nat)),
        field_line("AMOUNT"@, signed_decimal(t.amount as int)),
        field_line("TIMESTAMP"@, decimal(t.timestamp as nat)),
        field_line("STATUS"@, t.status.name()),
        field_line("DESCRIPTION"@, seq!['"'] + t.description + seq!['"']),
    ]
}

/// The lines of the text form of transactions: their records, with a blank
/// line between two records.
pub open spec fn txt_lines(ts: Seq<TxRecord>) -> Seq<Seq<char>>
    decreases ts.len(),
{
    if ts.len() == 0 {
        seq![]
    } else if ts.len() == 1 {
        txt_record_lines(ts[0])
    } else {
        txt_lines(ts.drop_last()) + seq![Seq::<char>::empty()] + txt_record_lines(ts.last())
    }
}

/// The text form of transactions.
pub open spec fn spec_txt_text(ts: Seq<TxRecord>) -> Seq<char> {
    lines_text(txt_lines(ts))
}

/// Appends a `KEY: value` line and its line end.
fn push_field_line(s: &mut String, key: &str, value: &str)
    ensures
        final(s)@ == old(s)@ + field_line(key@, value@) + seq!['\n'],
{
    s.append(key);
    s.append(": ");
    s.append(value);
    push_char(s, '\n');
    assert(final(s)@ =~= old(s)@ + field_line(key@, value@) + seq!['\n']);
}

/// Appends the lines of a record.
#[verifier::spinoff_prover]
#[verifier::rlimit(40)]
fn push_record(s: &mut String, tx: &Transaction)
    ensures
        final(s)@ == old(s)@ + lines_text(txt_record_lines(tx@)),
{
    let ghost start = s@;
    let ghost ls = txt_record_lines(tx@);
    assert(lines_text(ls.take(0)) =~= Seq::<char>::empty());
    assert(s@ =~= start + lines_text(ls.take(0)));
    push_field_line(s, "TX_ID", decimal_string(tx.tx_id).as_str());
    proof { lemma_lines_text_push(ls.take(0), ls[0]); assert(ls.take(0).push(ls[0]) =~= ls.take(1)); }
    push_field_line(s, "TX_TYPE", tx.tx_type.to_string().as_str());
    proof { lemma_lines_text_push(ls.take(1), ls[1]); assert(ls.take(1).push(ls[1]) =~= ls.take(2)); }
    push_field_line(s, "FROM_USER_ID", decimal_string(tx.from_user_id).as_str());
    proof { lemma_lines_text_push(ls.take(2), ls[2]); assert(ls.take(2).push(ls[2]) =~= ls.take(3)); }
    push_field_line(s, "TO_USER_ID", decimal_string(tx.to_user_id).as_str());
    proof { lemma_lines_text_push(ls.take(3), ls[3]); assert(ls.take(3).push(ls[3]) =~= ls.take(4)); }
    push_field_line(s, "AMOUNT", signed_decimal_string(tx.amount).as_str());
    proof { lemma_lines_text_push(ls.take(4), ls[4]); assert(ls.take(4).push(ls[4]) =~= ls.take(5)); }
    push_field_line(s, "TIMESTAMP", decimal_string(tx.timestamp).as_str());
    proof { lemma_lines_text_push(ls.take(5), ls[5]); assert(ls.take(5).push(ls[5]) =~= ls.take(6)); }
    push_field_line(s, "STATUS", tx.status.to_string().as_str());
    proof { lemma_lines_text_push(ls.take(6), ls[6]); assert(ls.take(6).push(ls[6]) =~= ls.take(7)); }
    let mut quoted = String::new();
    push_char(&mut quoted, '"');
    quoted.append(tx.description.as_str());
    push_char(&mut quoted, '"');
    assert(quoted@ =~= seq!['"'] + tx@.description + seq!['"']);
    push_field_line(s, "DESCRIPTION", quoted.as_str());
    proof { lemma_lines_text_push(ls.take(7), ls[7]); assert(ls.take(7).push(ls[7]) =~= ls.take(8)); assert(ls.take(8) =~= ls); }
}

/// The text form of a list of transactions, as UTF-8 bytes.
pub fn write_txt(transactions: &[Transaction]) -> (out: Vec<u8>)
    ensures
        out@ == vstd::utf8::encode_utf8(spec_txt_text(records(transactions@))),
{
    let mut s = String::new();
    let ghost recs = records(transactions@);
    assert(txt_lines(recs.take(0)) =~= Seq::<Seq<char>>::empty());
    for i in 0..transactions.len()
        invariant
            recs == records(transactions@),
            s@ == lines_text(txt_lines(recs.take(i as int))),
    {
        let ghost prev = txt_lines(recs.take(i as int));
        let ghost rec = transactions@[i as int]@;
        assert(recs.take(i + 1).drop_last() =~= recs.take(i as int));
        assert(recs.take(i + 1).last() == rec);
        if i > 0 {
            push_char(&mut s, '\n');
            proof {
                lemma_lines_text_push(prev, Seq::<char>::empty());
                assert(prev.push(Seq::<char>::empty()) =~= prev + seq![Seq::<char>::empty()]);
                assert(s@ =~= lines_text(prev + seq![Seq::<char>::empty()]));
            }
            push_record(&mut s, &transactions[i]);
            proof {
                crate::text::lemma_lines_text_concat(prev + seq![Seq::<char>::empty()], txt_record_lines(rec));
            }
        } else {
            push_record(&mut s, &transactions[i]);
            proof {
                assert(recs.take(1)[0] == rec);
                assert(lines_text(prev) =~= Seq::<char>::empty());
                assert(s@ =~= lines_text(txt_record_lines(rec)));
            }
        }
    }
    assert(recs.take(transactions@.len() as int) =~= recs);
    vstd::slice::slice_to_vec(s.as_str().as_bytes())
}

/// A field name that a record line carries unchanged.
pub open spec fn good_key(k: Seq<char>) -> bool {
    &&& k.len() > 0
    &&& k[0] != '#'
    &&& !is_white_space(k[0])
    &&& !is_white_space(k.last())
    &&& free_of(k, ':')
    &&& free_of(k, '\n')
}

/// A field value that a record line carries unchanged.
pub open spec fn good_value(v: Seq<char>) -> bool {
    &&& v.len() > 0
    &&& !is_white_space(v[0])
    &&& !is_white_space(v.last())
    &&& free_of(v, '\n')
}

proof fn lemma_key(k: Seq<char>)
    requires
        k.len() > 0,
        k.len() <= 12,
        'A' <= k[0] <= 'Z',
        'A' <= k.last() <= 'Z',
        free_of_from(k, ':', 0),
        free_of_from(k, '\n', 0),
    ensures
        good_key(k),
{
    lemma_free_of_from(k, ':', 0);
    lemma_free_of_from(k, '\n', 0);
}

/// The field names of the text format carry unchanged and differ.
proof fn lemma_keys()
    ensures
        good_key("TX_ID"@),
        good_key("TX_TYPE"@),
        good_key("FROM_USER_ID"@),
        good_key("TO_USER_ID"@),
        good_key("AMOUNT"@),
        good_key("TIMESTAMP"@),
        good_key("STATUS"@),
        good_key("DESCRIPTION"@),
        "TX_ID"@.len() == 5,
        "TX_TYPE"@.len() == 7,
        "FROM_USER_ID"@.len() == 12,
        "TO_USER_ID"@.len() == 10,
        "AMOUNT"@.len() == 6,
        "TIMESTAMP"@.len() == 9,
        "STATUS"@.len() == 6,
        "DESCRIPTION"@.len() == 11,
        "AMOUNT"@ != "STATUS"@,
        ": "@ == seq![':', ' '],
{
    reveal_strlit("TX_ID");
    reveal_strlit("TX_TYPE");
    reveal_strlit("FROM_USER_ID");
    reveal_strlit("TO_USER_ID");
    reveal_strlit("AMOUNT");
    reveal_strlit("TIMESTAMP");
    reveal_strlit("STATUS");
    reveal_strlit("DESCRIPTION");
    reveal_strlit(": ");
    assert(": "@ =~= seq![':', ' ']);
    assert("AMOUNT"@[0] != "STATUS"@[0]);
    reveal_with_fuel(free_of_from, 13);
    lemma_key("TX_ID"@);
    lemma_key("TX_TYPE"@);
    lemma_key("FROM_USER_ID"@);
    lemma_key("TO_USER_ID"@);
    lemma_key("AMOUNT"@);
    lemma_key("TIMESTAMP"@);
    lemma_key("STATUS"@);
    lemma_key("DESCRIPTION"@);
}

proof fn lemma_colon_after(k: Seq<char>, rest: Seq<char>)
    requires
        free_of(k, ':'),
    ensures
        colon_at(k + rest) == k.len() + colon_at(rest),
    decreases k.len(),
{
    if k.len() == 0 {
        assert(k + rest =~= rest);
    } else {
        assert((k + rest)[0] == k[0]);
        assert((k + rest).drop_first() =~= k.drop_first() + rest);
        assert(free_of(k.drop_first(), ':')) by {
            assert forall|i: int| 0 <= i < k.drop_first().len() implies k.drop_first()[i] != ':' by {
                assert(k.drop_first()[i] == k[i + 1]);
            }
        }
        lemma_colon_after(k.drop_first(), rest);
    }
}

/// Reading a `KEY: value` line sets the field.
proof fn lemma_scan_field_line(k: Seq<char>, v: Seq<char>, rest: Seq<Seq<u8>>, parts: Map<Seq<char>, Seq<char>>, in_record: bool)
    requires
        good_key(k),
        good_value(v),
        !parts.dom().contains(k),
        ": "@ == seq![':', ' '],
    ensures
        spec_txt_scan(seq![vstd::utf8::encode_utf8(field_line(k, v))] + rest, parts, in_record)
            == spec_txt_scan(rest, parts.insert(k, v), true),
{
    let l = field_line(k, v);
    let lines = seq![vstd::utf8::encode_utf8(l)] + rest;
    assert(lines[0] == vstd::utf8::encode_utf8(l));
    assert(lines.drop_first() =~= rest);
    lemma_line_chars_encode(l);
    assert(l =~= k + (seq![':', ' '] + v));
    assert(l[0] == k[0]);
    assert(l.last() == v.last());
    assert(strip_start(l, white_space_test()) == l);
    assert(strip_end(l, white_space_test()) == l);
    lemma_colon_after(k, seq![':', ' '] + v);
    assert(colon_at(seq![':', ' '] + v) == 0);
    assert(l.take(k.len() as int) =~= k);
    let value = l.skip(k.len() as int + 1);
    assert(value =~= seq![' '] + v);
    assert(strip_start(k, white_space_test()) == k);
    assert(strip_end(k, white_space_test()) == k);
    assert(is_white_space(value[0]));
    assert(value.drop_first() =~= v);
    assert(strip_start(value, white_space_test()) == strip_start(v, white_space_test()));
    assert(strip_start(v, white_space_test()) == v);
    assert(strip_end(v, white_space_test()) == v);
}

/// A transaction that the text form carries unchanged: its description holds
/// no line end.
pub open spec fn txt_faithful(t: TxRecord) -> bool {
    free_of(t.description, '\n')
}

/// The values that the lines of a record carry unchanged.
proof fn lemma_values(t: TxRecord)
    requires
        txt_faithful(t),
    ensures
        good_value(decimal(t.tx_id as nat)),
        good_value(t.tx_type.name()),
        good_value(decimal(t.from_user_id as nat)),
        good_value(decimal(t.to_user_id as nat)),
        good_value(signed_decimal(t.amount as int)),
        good_value(decimal(t.timestamp as nat)),
        good_value(t.status.name()),
        good_value(seq!['"'] + t.description + seq!['"']),
{
    assert forall|n: nat| good_value(#[trigger] decimal(n)) by {
        lemma_decimal_digits(n);
        let d = decimal(n);
        assert(is_digit(d[0]));
        assert(is_digit(d[d.len() - 1]));
        assert forall|i: int| 0 <= i < d.len() implies d[i] != '\n' by {
            assert(is_digit(d[i]));
        }
    }
    if t.amount < 0 {
        let m = decimal((-t.amount) as nat);
        assert(good_value(m));
        let sd = signed_decimal(t.amount as int);
        assert(sd == seq!['-'] + m);
        assert(sd.last() == m.last());
        assert(free_of(seq!['-'], '\n'));
        lemma_free_of_concat(seq!['-'], m, '\n');
    } else {
        assert(good_value(decimal(t.amount as nat)));
    }
    let a = t.tx_type.name();
    assert forall|i: int| 0 <= i < a.len() implies a[i] != '\n' by {
        assert('A' <= a[i] && a[i] <= 'Z');
    }
    let b = t.status.name();
    assert forall|i: int| 0 <= i < b.len() implies b[i] != '\n' by {
        assert('A' <= b[i] && b[i] <= 'Z');
    }
    assert(free_of(seq!['"'], '\n'));
    lemma_free_of_concat(seq!['"'], t.description, '\n');
    lemma_free_of_concat(seq!['"'] + t.description, seq!['"'], '\n');
}

/// The fields that reading the lines of a record sets.
pub open spec fn record_fields_map(t: TxRecord) -> Map<Seq<char>, Seq<char>> {
    Map::<Seq<char>, Seq<char>>::empty()
        .insert("TX_ID"@, decimal(t.tx_id as nat))
        .insert("TX_TYPE"@, t.tx_type.name())
        .insert("FROM_USER_ID"@, decimal(t.from_user_id as nat))
        .insert("TO_USER_ID"@, decimal(t.to_user_id as nat))
        .insert("AMOUNT"@, signed_decimal(t.amount as int))
        .insert("TIMESTAMP"@, decimal(t.timestamp as nat))
        .insert("STATUS"@, t.status.name())
        .insert("DESCRIPTION"@, seq!['"'] + t.description + seq!['"'])
}

/// Reading the lines of a record sets its fields.
proof fn lemma_scan_record(t: TxRecord, rest: Seq<Seq<u8>>, in_record: bool)
    requires
        txt_faithful(t),
    ensures
        spec_txt_scan(encode_lines(txt_record_lines(t)) + rest, Map::empty(), in_record)
            == spec_txt_scan(rest, record_fields_map(t), true),
{
    lemma_keys();
    lemma_values(t);
    let rl = txt_record_lines(t);
    let e = encode_lines(rl);
    assert forall|i: int| 0 <= i <= 8 implies #[trigger] (e.skip(i) + rest) == (if i < 8 { seq![e[i]] + (e.skip(i + 1) + rest) } else { rest }) by {
        if i < 8 {
            assert(e.skip(i) + rest =~= seq![e[i]] + (e.skip(i + 1) + rest));
        } else {
            assert(e.skip(i) + rest =~= rest);
        }
    }
    assert(e.skip(0) =~= e);
    let m0 = Map::<Seq<char>, Seq<char>>::empty();
    let m1 = m0.insert("TX_ID"@, decimal(t.tx_id as nat));
    let m2 = m1.insert("TX_TYPE"@, t.tx_type.name());
    let m3 = m2.insert("FROM_USER_ID"@, decimal(t.from_user_id as nat));
    let m4 = m3.insert("TO_USER_ID"@, decimal(t.to_user_id as nat));
    let m5 = m4.insert("AMOUNT"@, signed_decimal(t.amount as int));
    let m6 = m5.insert("TIMESTAMP"@, decimal(t.timestamp as nat));
    let m7 = m6.insert("STATUS"@, t.status.name());
    lemma_scan_field_line("TX_ID"@, decimal(t.tx_id as nat), e.skip(1) + rest, m0, in_record);
    lemma_scan_field_line("TX_TYPE"@, t.tx_type.name(), e.skip(2) + rest, m1, true);
    lemma_scan_field_line("FROM_USER_ID"@, decimal(t.from_user_id as nat), e.skip(3) + rest, m2, true);
    lemma_scan_field_line("TO_USER_ID"@, decimal(t.to_user_id as nat), e.skip(4) + rest, m3, true);
    lemma_scan_field_line("AMOUNT"@, signed_decimal(t.amount as int), e.skip(5) + rest, m4, true);
    lemma_scan_field_line("TIMESTAMP"@, decimal(t.timestamp as nat), e.skip(6) + rest, m5, true);
    lemma_scan_field_line("STATUS"@, t.status.name(), e.skip(7) + rest, m6, true);
    lemma_scan_field_line("DESCRIPTION"@, seq!['"'] + t.description + seq!['"'], e.skip(8) + rest, m7, true);
}

/// The fields of a record build its transaction.
proof fn lemma_construct_record(t: TxRecord)
    ensures
        spec_construct(record_fields_map(t)) == Ok::<TxRecord, ParserFault>(t),
{
    lemma_keys();
    lemma_u64_text_roundtrip(t.tx_id);
    lemma_u64_text_roundtrip(t.from_user_id);
    lemma_u64_text_roundtrip(t.to_user_id);
    lemma_i64_text_roundtrip(t.amount);
    lemma_u64_text_roundtrip(t.timestamp);
    lemma_tx_type_name_roundtrip(t.tx_type, t.tx_type.name());
    lemma_tx_status_name_roundtrip(t.status, t.status.name());
    let raw = seq!['"'] + t.description + seq!['"'];
    assert(raw.subrange(1, raw.len() - 1) =~= t.description);
    assert(unquote(raw) == t.description);
}

proof fn lemma_txt_lines_front(ts: Seq<TxRecord>)
    requires
        ts.len() >= 2,
    ensures
        txt_lines(ts) == txt_record_lines(ts[0]) + seq![Seq::<char>::empty()] + txt_lines(ts.drop_first()),
    decreases ts.len(),
{
    let rest = ts.drop_first();
    if ts.len() == 2 {
        assert(ts.drop_last() =~= seq![ts[0]]);
        assert(rest =~= seq![ts[1]]);
        assert(txt_lines(ts.drop_last()) == txt_record_lines(ts[0]));
        assert(txt_lines(rest) == txt_record_lines(ts[1]));
    } else {
        lemma_txt_lines_front(ts.drop_last());
        assert(ts.drop_last().drop_first() =~= rest.drop_last());
        assert(rest.last() == ts.last());
        assert(ts.drop_last()[0] == ts[0]);
        assert(txt_lines(ts) =~= txt_record_lines(ts[0]) + seq![Seq::<char>::empty()] + txt_lines(rest));
    }
}

proof fn lemma_encode_lines_concat(a: Seq<Seq<char>>, b: Seq<Seq<char>>)
    ensures
        encode_lines(a + b) == encode_lines(a) + encode_lines(b),
{
    assert(encode_lines(a + b) =~= encode_lines(a) + encode_lines(b));
}

proof fn lemma_txt_records_read_back(ts: Seq<TxRecord>)
    requires
        ts.len() > 0,
        forall|i: int| 0 <= i < ts.len() ==> txt_faithful(#[trigger] ts[i]),
    ensures
        spec_txt_scan(encode_lines(txt_lines(ts)), Map::empty(), false) == Ok::<Seq<TxRecord>, ParserFault>(ts),
    decreases ts.len(),
{
    let t = ts[0];
    assert(txt_faithful(t));
    lemma_construct_record(t);
    if ts.len() == 1 {
        assert(txt_lines(ts) == txt_record_lines(t));
        lemma_scan_record(t, Seq::<Seq<u8>>::empty(), false);
        assert(encode_lines(txt_record_lines(t)) + Seq::<Seq<u8>>::empty() =~= encode_lines(txt_record_lines(t)));
        assert(ts =~= seq![t]);
    } else {
        let rest = ts.drop_first();
        lemma_txt_lines_front(ts);
        let blank = seq![Seq::<char>::empty()];
        lemma_encode_lines_concat(txt_record_lines(t) + blank, txt_lines(rest));
        lemma_encode_lines_concat(txt_record_lines(t), blank);
        let tail = encode_lines(blank) + encode_lines(txt_lines(rest));
        assert(encode_lines(txt_lines(ts)) =~= encode_lines(txt_record_lines(t)) + tail);
        lemma_scan_record(t, tail, false);
        assert(tail[0] == vstd::utf8::encode_utf8(Seq::<char>::empty()));
        lemma_line_chars_encode(Seq::<char>::empty());
        assert(trim(Seq::<char>::empty()) =~= Seq::<char>::empty());
        assert(tail.drop_first() =~= encode_lines(txt_lines(rest)));
        assert forall|i: int| 0 <= i < rest.len() implies txt_faithful(#[trigger] rest[i]) by {
            assert(rest[i] == ts[i + 1]);
        }
        lemma_txt_records_read_back(rest);
        assert(seq![t] + rest =~= ts);
    }
}

proof fn lemma_txt_lines_plain(ts: Seq<TxRecord>)
    requires
        forall|i: int| 0 <= i < ts.len() ==> txt_faithful(#[trigger] ts[i]),
    ensures
        forall|i: int| 0 <= i < txt_lines(ts).len() ==> plain_line(#[trigger] txt_lines(ts)[i]),
    decreases ts.len(),
{
    lemma_keys();
    if ts.len() > 0 {
        let t = ts.last();
        assert(txt_faithful(ts[ts.len() - 1]));
        lemma_values(t);
        let rl = txt_record_lines(t);
        assert forall|i: int| 0 <= i < rl.len() implies plain_line(#[trigger] rl[i]) by {
            let (k, v) = if i == 0 { ("TX_ID"@, decimal(t.tx_id as nat)) }
                else if i == 1 { ("TX_TYPE"@, t.tx_type.name()) }
                else if i == 2 { ("FROM_USER_ID"@, decimal(t.from_user_id as nat)) }
                else if i == 3 { ("TO_USER_ID"@, decimal(t.to_user_id as nat)) }
                else if i == 4 { ("AMOUNT"@, signed_decimal(t.amount as int)) }
                else if i == 5 { ("TIMESTAMP"@, decimal(t.timestamp as nat)) }
                else if i == 6 { ("STATUS"@, t.status.name()) }
                else { ("DESCRIPTION"@, seq!['"'] + t.description + seq!['"']) };
            assert(rl[i] == field_line(k, v));
            assert(free_of(seq![':', ' '], '\n'));
            lemma_free_of_concat(k, seq![':', ' '], '\n');
            lemma_free_of_concat(k + seq![':', ' '], v, '\n');
            assert(rl[i].last() == v.last());
        }
        if ts.len() > 1 {
            assert forall|i: int| 0 <= i < ts.drop_last().len() implies txt_faithful(#[trigger] ts.drop_last()[i]) by {
                assert(ts.drop_last()[i] == ts[i]);
            }
            lemma_txt_lines_plain(ts.drop_last());
            let prev = txt_lines(ts.drop_last());
            let all = prev + seq![Seq::<char>::empty()] + rl;
            assert forall|i: int| 0 <= i < all.len() implies plain_line(#[trigger] all[i]) by {
                if i < prev.len() {
                    assert(all[i] == prev[i]);
                } else if i == prev.len() {
                    assert(all[i] == Seq::<char>::empty());
                } else {
                    assert(all[i] == rl[i - prev.len() - 1]);
                }
            }
        }
    }
}

/// Reading the text form of transactions gives them back, when no
/// description holds a line end ([`txt_faithful`]).
pub proof fn lemma_txt_roundtrip(ts: Seq<TxRecord>)
    requires
        forall|i: int| 0 <= i < ts.len() ==> txt_faithful(#[trigger] ts[i]),
    ensures
        spec_read_txt(vstd::utf8::encode_utf8(spec_txt_text(ts))) == Ok::<Seq<TxRecord>, ParserFault>(ts),
{
    lemma_txt_lines_plain(ts);
    lemma_lines_of_text(txt_lines(ts));
    if ts.len() == 0 {
        assert(encode_lines(txt_lines(ts)) =~= Seq::<Seq<u8>>::empty());
        assert(ts =~= Seq::<TxRecord>::empty());
    } else {
        lemma_txt_records_read_back(ts);
    }
}

} // verus!
