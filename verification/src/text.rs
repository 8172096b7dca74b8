//! Character and byte utilities shared by the formats.

use vstd::prelude::*;
use vstd::utf8::{char_is_scalar, char_u32_cast, decode_utf8, encode_scalar, encode_utf8, encode_utf8_decode_utf8,
    encode_utf8_valid_utf8, has_width_1_encoding, has_width_2_encoding, has_width_3_encoding, valid_utf8};
use crate::error::{IoErrorKind, invalid_utf8_line_error, ParserError, ParserFault};

verus! {

/// The characters of `s`, in order.
pub fn chars_of(s: &str) -> (v: Vec<char>)
    ensures
        v@ == s@,
{
    let mut v: Vec<char> = Vec::new();
    for c in it: s.chars()
        invariant
            v@ == it.seq().take(it.index() as int),
            it.seq() == s@,
    {
        v.push(c);
    }
    v
}

/// Appends one character to a string: `String::push`, which its
/// documentation says appends the character at the end.
#[verifier::external_body]
pub fn push_char(s: &mut String, c: char)
    ensures
        final(s)@ == old(s)@.push(c),
{
    s.push(c);
}

/// Appends characters to a string.
pub fn push_chars(s: &mut String, v: &[char])
    ensures
        final(s)@ == old(s)@ + v@,
{
    let mut i: usize = 0;
    while i < v.len()
        invariant
            i <= v@.len(),
            s@ == old(s)@ + v@.take(i as int),
        decreases v@.len() - i,
    {
        push_char(s, v[i]);
        i = i + 1;
        assert(v@.take(i as int) =~= v@.take((i - 1) as int).push(v@[i - 1]));
    }
    assert(v@.take(i as int) =~= v@);
}

/// A string holding the given characters.
pub fn string_of(v: &[char]) -> (s: String)
    ensures
        s@ == v@,
{
    let mut s = String::new();
    push_chars(&mut s, v);
    s
}

/// Whether two character sequences are equal.
pub fn chars_equal(a: &[char], b: &[char]) -> (r: bool)
    ensures
        r == (a@ == b@),
{
    if a.len() != b.len() {
        return false;
    }
    let mut i: usize = 0;
    while i < a.len()
        invariant
            a@.len() == b@.len(),
            i <= a@.len(),
            forall|k: int| 0 <= k < i ==> a@[k] == b@[k],
        decreases a@.len() - i,
    {
        if a[i] != b[i] {
            return false;
        }
        i = i + 1;
    }
    assert(a@ =~= b@);
    true
}

/// Whether `v` holds exactly the characters of `s`.
pub fn chars_equal_str(v: &[char], s: &str) -> (r: bool)
    ensures
        r == (v@ == s@),
{
    let w = chars_of(s);
    chars_equal(v, w.as_slice())
}

/// The character of a decimal digit.
pub open spec fn digit_char(d: int) -> char {
    if d == 0 { '0' }
    else if d == 1 { '1' }
    else if d == 2 { '2' }
    else if d == 3 { '3' }
    else if d == 4 { '4' }
    else if d == 5 { '5' }
    else if d == 6 { '6' }
    else if d == 7 { '7' }
    else if d == 8 { '8' }
    else { '9' }
}

/// The decimal text of a natural number, without sign or leading zeros.
pub open spec fn decimal(n: nat) -> Seq<char>
    decreases n,
{
    if n < 10 {
        seq![digit_char(n as int)]
    } else {
        decimal(n / 10).push(digit_char((n % 10) as int))
    }
}

/// The decimal text of an integer, with a `-` before negative values.
pub open spec fn signed_decimal(v: int) -> Seq<char> {
    if v < 0 {
        seq!['-'] + decimal((-v) as nat)
    } else {
        decimal(v as nat)
    }
}

fn digit_to_char(d: u64) -> (c: char)
    requires
        d < 10,
    ensures
        c == digit_char(d as int),
{
    if d == 0 { '0' }
    else if d == 1 { '1' }
    else if d == 2 { '2' }
    else if d == 3 { '3' }
    else if d == 4 { '4' }
    else if d == 5 { '5' }
    else if d == 6 { '6' }
    else if d == 7 { '7' }
    else if d == 8 { '8' }
    else { '9' }
}

/// Appends the decimal text of `v`.
pub fn push_decimal(s: &mut String, v: u64)
    ensures
        final(s)@ == old(s)@ + decimal(v as nat),
    decreases v,
{
    if v >= 10 {
        push_decimal(s, v / 10);
    }
    push_char(s, digit_to_char(v % 10));
    proof {
        if v >= 10 {
            assert(decimal(v as nat) == decimal((v / 10) as nat).push(digit_char((v % 10) as int)));
        } else {
            assert(decimal(v as nat) == seq![digit_char(v as int)]);
        }
    }
}

/// Appends the decimal text of `v`, with a `-` before a negative value.
pub fn push_signed_decimal(s: &mut String, v: i64)
    ensures
        final(s)@ == old(s)@ + signed_decimal(v as int),
{
    if v < 0 {
        push_char(s, '-');
        let magnitude: u64 = (-(v as i128)) as u64;
        push_decimal(s, magnitude);
        assert(final(s)@ =~= old(s)@ + (seq!['-'] + decimal((-v) as nat)));
    } else {
        push_decimal(s, v as u64);
    }
}

/// Whether `c` is an ASCII decimal digit.
pub open spec fn is_digit(c: char) -> bool {
    '0' <= c && c <= '9'
}

/// The value of the decimal digits `s` (0 for no digits).
pub open spec fn digits_value(s: Seq<char>) -> int
    decreases s.len(),
{
    if s.len() == 0 {
        0
    } else {
        digits_value(s.drop_last()) * 10 + (s.last() as int - '0' as int)
    }
}

/// `s` is one or more ASCII decimal digits.
pub open spec fn all_digits(s: Seq<char>) -> bool {
    s.len() > 0 && forall|i: int| 0 <= i < s.len() ==> is_digit(#[trigger] s[i])
}

/// The value that `str::parse::<u64>` gives for `s`: an optional `+`,
/// then one or more ASCII digits, with a value that fits.
pub open spec fn u64_text_value(s: Seq<char>) -> Option<u64> {
    let d = if s.len() > 0 && s[0] == '+' { s.drop_first() } else { s };
    if all_digits(d) && digits_value(d) <= u64::MAX {
        Some(digits_value(d) as u64)
    } else {
        None
    }
}

/// The value that `str::parse::<i64>` gives for `s`: an optional `+` or
/// `-`, then one or more ASCII digits, with a value that fits.
pub open spec fn i64_text_value(s: Seq<char>) -> Option<i64> {
    if s.len() > 0 && s[0] == '-' {
        let d = s.drop_first();
        if all_digits(d) && -digits_value(d) >= i64::MIN {
            Some((-digits_value(d)) as i64)
        } else {
            None
        }
    } else {
        let d = if s.len() > 0 && s[0] == '+' { s.drop_first() } else { s };
        if all_digits(d) && digits_value(d) <= i64::MAX {
            Some(digits_value(d) as i64)
        } else {
            None
        }
    }
}

/// `str::parse::<u64>`. Its documentation (`u64::from_str_radix`) accepts an
/// optional `+` and then only ASCII digits, and fails on an empty string,
/// on any other character and on a value that does not fit: the result is
/// `Ok` exactly when [`u64_text_value`] is `Some`, with that value.
#[verifier::external_body]
pub fn parse_u64(s: &str) -> (r: Result<u64, std::num::ParseIntError>)
    ensures
        r is Ok <==> u64_text_value(s@) is Some,
        r matches Ok(v) ==> u64_text_value(s@) == Some(v),
{
    s.parse::<u64>()
}

/// `str::parse::<i64>`. Its documentation (`i64::from_str_radix`) accepts an
/// optional `+` or `-` and then only ASCII digits, and fails on an empty
/// string, on any other character and on a value out of range: the result
/// is `Ok` exactly when [`i64_text_value`] is `Some`, with that value.
#[verifier::external_body]
pub fn parse_i64(s: &str) -> (r: Result<i64, std::num::ParseIntError>)
    ensures
        r is Ok <==> i64_text_value(s@) is Some,
        r matches Ok(v) ==> i64_text_value(s@) == Some(v),
{
    s.parse::<i64>()
}

proof fn lemma_digit_char(d: int)
    requires
        0 <= d < 10,
    ensures
        is_digit(digit_char(d)),
        digit_char(d) as int - '0' as int == d,
{
}

/// The decimal text of `n` is one or more digits whose value is `n`,
/// and its first character is no sign.
pub proof fn lemma_decimal_digits(n: nat)
    ensures
        all_digits(decimal(n)),
        digits_value(decimal(n)) == n,
        decimal(n)[0] != '+' && decimal(n)[0] != '-',
    decreases n,
{
    if n < 10 {
        lemma_digit_char(n as int);
        assert(decimal(n).drop_last() =~= Seq::<char>::empty());
        assert(digits_value(Seq::<char>::empty()) == 0);
        assert(decimal(n).last() == digit_char(n as int));
    } else {
        lemma_decimal_digits(n / 10);
        lemma_digit_char((n % 10) as int);
        let d = decimal(n);
        assert(d.drop_last() =~= decimal(n / 10));
        assert forall|i: int| 0 <= i < d.len() implies is_digit(#[trigger] d[i]) by {
            if i < d.len() - 1 {
                assert(d[i] == decimal(n / 10)[i]);
            }
        }
        assert(d[0] == decimal(n / 10)[0]);
        assert(d.last() == digit_char((n % 10) as int));
        assert((n / 10) * 10 + n % 10 == n) by (nonlinear_arith);
    }
}

/// Parsing the decimal text of a `u64` gives it back.
pub proof fn lemma_u64_text_roundtrip(v: u64)
    ensures
        u64_text_value(decimal(v as nat)) == Some(v),
{
    lemma_decimal_digits(v as nat);
}

/// Parsing the signed decimal text of an `i64` gives it back.
pub proof fn lemma_i64_text_roundtrip(v: i64)
    ensures
        i64_text_value(signed_decimal(v as int)) == Some(v),
{
    if v < 0 {
        lemma_decimal_digits((-v) as nat);
        let s = signed_decimal(v as int);
        assert(s.drop_first() =~= decimal((-v) as nat));
    } else {
        lemma_decimal_digits(v as nat);
    }
}

/// Whether `c` has the Unicode `White_Space` property, as `char::is_whitespace`
/// documents it.
pub open spec fn is_white_space(c: char) -> bool {
    let u = c as u32;
    ||| (0x9 <= u && u <= 0xD)
    ||| u == 0x20
    ||| u == 0x85
    ||| u == 0xA0
    ||| u == 0x1680
    ||| (0x2000 <= u && u <= 0x200A)
    ||| u == 0x2028
    ||| u == 0x2029
    ||| u == 0x202F
    ||| u == 0x205F
    ||| u == 0x3000
}

/// Whether `c` has the Unicode `White_Space` property.
pub fn white_space(c: char) -> (r: bool)
    ensures
        r == is_white_space(c),
{
    let u = c as u32;
    (0x9 <= u && u <= 0xD) || u == 0x20 || u == 0x85 || u == 0xA0 || u == 0x1680
        || (0x2000 <= u && u <= 0x200A) || u == 0x2028 || u == 0x2029 || u == 0x202F
        || u == 0x205F || u == 0x3000
}

/// `s` without its leading characters that satisfy `p`.
pub open spec fn strip_start(s: Seq<char>, p: spec_fn(char) -> bool) -> Seq<char>
    decreases s.len(),
{
    if s.len() > 0 && p(s[0]) {
        strip_start(s.drop_first(), p)
    } else {
        s
    }
}

/// `s` without its trailing characters that satisfy `p`.
pub open spec fn strip_end(s: Seq<char>, p: spec_fn(char) -> bool) -> Seq<char>
    decreases s.len(),
{
    if s.len() > 0 && p(s.last()) {
        strip_end(s.drop_last(), p)
    } else {
        s
    }
}

/// The test of [`is_white_space`].
pub open spec fn white_space_test() -> spec_fn(char) -> bool {
    |c: char| is_white_space(c)
}

/// The test for a `"`.
pub open spec fn quote_test() -> spec_fn(char) -> bool {
    |c: char| c == '"'
}

/// `s` without leading and trailing white space, as `str::trim` gives it.
pub open spec fn trim(s: Seq<char>) -> Seq<char> {
    strip_end(strip_start(s, white_space_test()), white_space_test())
}

/// `s` without leading and trailing `"`, as `str::trim_matches('"')` gives it.
pub open spec fn trim_quotes(s: Seq<char>) -> Seq<char> {
    strip_end(strip_start(s, quote_test()), quote_test())
}

/// The characters of `v` from `from` up to `to`.
pub fn copy_range(v: &[char], from: usize, to: usize) -> (w: Vec<char>)
    requires
        from <= to <= v@.len(),
    ensures
        w@ == v@.subrange(from as int, to as int),
{
    let mut w: Vec<char> = Vec::new();
    let mut i = from;
    while i < to
        invariant
            from <= i <= to <= v@.len(),
            w@ == v@.subrange(from as int, i as int),
        decreases to - i,
    {
        w.push(v[i]);
        i = i + 1;
        assert(w@ =~= v@.subrange(from as int, i as int));
    }
    w
}

/// `v` without leading and trailing white space.
pub fn trim_white_space(v: &[char]) -> (w: Vec<char>)
    ensures
        w@ == trim(v@),
{
    let ghost p = white_space_test();
    let n = v.len();
    let mut i: usize = 0;
    assert(v@.subrange(0, n as int) =~= v@);
    while i < n && white_space(v[i])
        invariant
            n == v@.len(),
            p == white_space_test(),
            i <= n,
            strip_start(v@, p) == strip_start(v@.subrange(i as int, n as int), p),
        decreases n - i,
    {
        assert(v@.subrange(i as int, n as int)[0] == v@[i as int]);
        assert(v@.subrange(i as int, n as int).drop_first() =~= v@.subrange(i + 1, n as int));
        i = i + 1;
    }
    assert(strip_start(v@.subrange(i as int, n as int), p) == v@.subrange(i as int, n as int));
    let mut j: usize = n;
    while j > i && white_space(v[j - 1])
        invariant
            n == v@.len(),
            p == white_space_test(),
            i <= j <= n,
            strip_end(v@.subrange(i as int, n as int), p) == strip_end(v@.subrange(i as int, j as int), p),
        decreases j,
    {
        assert(v@.subrange(i as int, j as int).last() == v@[j - 1]);
        assert(v@.subrange(i as int, j as int).drop_last() =~= v@.subrange(i as int, j - 1));
        j = j - 1;
    }
    assert(strip_end(v@.subrange(i as int, j as int), p) == v@.subrange(i as int, j as int));
    copy_range(v, i, j)
}

/// `v` without leading and trailing `"`.
pub fn trim_quote_marks(v: &[char]) -> (w: Vec<char>)
    ensures
        w@ == trim_quotes(v@),
{
    let ghost p = quote_test();
    let n = v.len();
    let mut i: usize = 0;
    assert(v@.subrange(0, n as int) =~= v@);
    while i < n && v[i] == '"'
        invariant
            n == v@.len(),
            p == quote_test(),
            i <= n,
            strip_start(v@, p) == strip_start(v@.subrange(i as int, n as int), p),
        decreases n - i,
    {
        assert(v@.subrange(i as int, n as int)[0] == v@[i as int]);
        assert(v@.subrange(i as int, n as int).drop_first() =~= v@.subrange(i + 1, n as int));
        i = i + 1;
    }
    assert(strip_start(v@.subrange(i as int, n as int), p) == v@.subrange(i as int, n as int));
    let mut j: usize = n;
    while j > i && v[j - 1] == '"'
        invariant
            n == v@.len(),
            p == quote_test(),
            i <= j <= n,
            strip_end(v@.subrange(i as int, n as int), p) == strip_end(v@.subrange(i as int, j as int), p),
        decreases j,
    {
        assert(v@.subrange(i as int, j as int).last() == v@[j - 1]);
        assert(v@.subrange(i as int, j as int).drop_last() =~= v@.subrange(i as int, j - 1));
        j = j - 1;
    }
    assert(strip_end(v@.subrange(i as int, j as int), p) == v@.subrange(i as int, j as int));
    copy_range(v, i, j)
}

/// `String::from_utf8`: per its documentation, `Ok` exactly when the bytes
/// are valid UTF-8, and then the string holds the characters they encode.
#[verifier::external_body]
pub fn string_from_utf8(bytes: Vec<u8>) -> (r: Result<String, std::string::FromUtf8Error>)
    ensures
        r is Ok <==> valid_utf8(bytes@),
        r matches Ok(s) ==> s@ == decode_utf8(bytes@),
{
    String::from_utf8(bytes)
}

/// Appends bytes to a byte vector.
pub fn push_bytes(out: &mut Vec<u8>, b: &[u8])
    ensures
        final(out)@ == old(out)@ + b@,
{
    let mut i: usize = 0;
    while i < b.len()
        invariant
            i <= b@.len(),
            out@ == old(out)@ + b@.take(i as int),
        decreases b@.len() - i,
    {
        out.push(b[i]);
        i = i + 1;
        assert(b@.take(i as int) =~= b@.take((i - 1) as int).push(b@[i - 1]));
    }
    assert(b@.take(i as int) =~= b@);
}

/// A line that a `\n` ended, as `BufRead::lines` returns it: without a
/// `\r` just before the `\n`.
pub open spec fn strip_cr(line: Seq<u8>) -> Seq<u8> {
    if line.len() > 0 && line.last() == 13 {
        line.drop_last()
    } else {
        line
    }
}

/// Reading `data` byte by byte: the lines ended so far, and the bytes of the
/// line not yet ended.
pub open spec fn line_scan(data: Seq<u8>) -> (Seq<Seq<u8>>, Seq<u8>)
    decreases data.len(),
{
    if data.len() == 0 {
        (seq![], seq![])
    } else {
        let (done, cur) = line_scan(data.drop_last());
        if data.last() == 10 {
            (done.push(strip_cr(cur)), seq![])
        } else {
            (done, cur.push(data.last()))
        }
    }
}

/// The lines of `data` as `BufRead::lines` splits them: at each `\n`,
/// dropped with a `\r` just before it, and a last line that no `\n` ends if
/// it is not empty.
pub open spec fn byte_lines(data: Seq<u8>) -> Seq<Seq<u8>> {
    let (done, cur) = line_scan(data);
    if cur.len() > 0 {
        done.push(cur)
    } else {
        done
    }
}

/// The contents of byte vectors.
pub open spec fn byte_views(v: Seq<Vec<u8>>) -> Seq<Seq<u8>> {
    v.map_values(|l: Vec<u8>| l@)
}

/// Splits `data` into lines as `BufRead::lines` does.
pub fn split_lines(data: &[u8]) -> (lines: Vec<Vec<u8>>)
    ensures
        byte_views(lines@) == byte_lines(data@),
{
    let mut lines: Vec<Vec<u8>> = Vec::new();
    let mut cur: Vec<u8> = Vec::new();
    let n = data.len();
    for i in 0..n
        invariant
            n == data@.len(),
            line_scan(data@.take(i as int)) == (byte_views(lines@), cur@),
    {
        assert(data@.take(i + 1).drop_last() =~= data@.take(i as int));
        assert(data@.take(i + 1).last() == data@[i as int]);
        if data[i] == 10 {
            let mut line = cur;
            if line.len() > 0 && line[line.len() - 1] == 13 {
                line.pop();
                assert(line@ =~= strip_cr(cur@));
            }
            assert(byte_views(lines@.push(line)) =~= byte_views(lines@).push(line@));
            lines.push(line);
            cur = Vec::new();
        } else {
            cur.push(data[i]);
        }
    }
    assert(data@.take(n as int) =~= data@);
    if cur.len() > 0 {
        assert(byte_views(lines@.push(cur)) =~= byte_views(lines@).push(cur@));
        lines.push(cur);
    }
    lines
}

/// The characters of a line, or `None` if it is not valid UTF-8.
pub open spec fn line_chars(line: Seq<u8>) -> Option<Seq<char>> {
    if valid_utf8(line) {
        Some(decode_utf8(line))
    } else {
        None
    }
}

/// Decodes one line; a line that is not valid UTF-8 is an I/O error, as
/// `BufRead::lines` reports it.
pub fn decode_line(line: &[u8]) -> (r: Result<Vec<char>, ParserError>)
    ensures
        match line_chars(line@) {
            Some(c) => r matches Ok(v) && v@ == c,
            None => r matches Err(e) && e@ == ParserFault::Io(IoErrorKind::InvalidData),
        },
{
    match string_from_utf8(vstd::slice::slice_to_vec(line)) {
        Ok(s) => Ok(chars_of(s.as_str())),
        Err(_) => Err(ParserError::Io(invalid_utf8_line_error())),
    }
}

/// The contents of strings.
pub open spec fn string_views(v: Seq<String>) -> Seq<Seq<char>> {
    v.map_values(|s: String| s@)
}

/// `s` does not hold the character `c`.
pub open spec fn free_of(s: Seq<char>, c: char) -> bool {
    forall|i: int| 0 <= i < s.len() ==> s[i] != c
}

/// Lines, each followed by `\n`.
pub open spec fn lines_text(ls: Seq<Seq<char>>) -> Seq<char>
    decreases ls.len(),
{
    if ls.len() == 0 {
        seq![]
    } else {
        lines_text(ls.drop_last()) + ls.last() + seq!['\n']
    }
}

/// The UTF-8 encodings of lines.
pub open spec fn encode_lines(ls: Seq<Seq<char>>) -> Seq<Seq<u8>> {
    ls.map_values(|l: Seq<char>| encode_utf8(l))
}

/// A line that `BufRead::lines` gives back unchanged when `\n` ends it:
/// no `\n` inside, and no `\r` at its end.
pub open spec fn plain_line(l: Seq<char>) -> bool {
    free_of(l, '\n') && (l.len() > 0 ==> l.last() != '\r')
}

/// A byte below `0x80` in the UTF-8 encoding of a character is the whole
/// encoding, and equals the character.
proof fn lemma_encode_scalar_ascii(c: char)
    ensures
        encode_scalar(c as u32).len() > 0,
        forall|i: int| 0 <= i < encode_scalar(c as u32).len() && #[trigger] encode_scalar(c as u32)[i] < 0x80
            ==> encode_scalar(c as u32).len() == 1 && encode_scalar(c as u32)[i] as u32 == c as u32,
{
    let v = c as u32;
    char_is_scalar(c);
    if has_width_1_encoding(v) {
        assert(((v & 0x7F) as u8) as u32 == v) by (bit_vector)
            requires
                v <= 0x7F,
        ;
    } else {
        assert(0xC0u8 | (((v >> 6) & 0x1F) as u8) >= 0x80u8) by (bit_vector);
        assert(0xE0u8 | (((v >> 12) & 0x0F) as u8) >= 0x80u8) by (bit_vector);
        assert(0xF0u8 | (((v >> 18) & 0x7) as u8) >= 0x80u8) by (bit_vector);
        assert(0x80u8 | ((v & 0x3F) as u8) >= 0x80u8) by (bit_vector);
        assert(0x80u8 | (((v >> 6) & 0x3F) as u8) >= 0x80u8) by (bit_vector);
        assert(0x80u8 | (((v >> 12) & 0x3F) as u8) >= 0x80u8) by (bit_vector);
    }
}

/// Encoding distributes over concatenation.
pub proof fn lemma_encode_concat(a: Seq<char>, b: Seq<char>)
    ensures
        encode_utf8(a + b) == encode_utf8(a) + encode_utf8(b),
    decreases a.len(),
{
    if a.len() == 0 {
        assert(a + b =~= b);
        assert(encode_utf8(a) + encode_utf8(b) =~= encode_utf8(b));
    } else {
        lemma_encode_concat(a.drop_first(), b);
        assert((a + b).drop_first() =~= a.drop_first() + b);
        assert((a + b)[0] == a[0]);
        assert(encode_utf8(a + b) =~= encode_scalar(a[0] as u32) + (encode_utf8(a.drop_first()) + encode_utf8(b)));
    }
}

/// The encoding of a single character.
proof fn lemma_encode_one(c: char)
    ensures
        encode_utf8(seq![c]) == encode_scalar(c as u32),
{
    assert(seq![c].drop_first() =~= Seq::<char>::empty());
    assert(seq![c][0] == c);
    assert(encode_utf8(Seq::<char>::empty()) =~= Seq::<u8>::empty());
    assert(encode_utf8(seq![c]) =~= encode_scalar(c as u32));
}

/// Text without `\n` encodes to bytes without `10`.
pub proof fn lemma_encode_free_of_newline(a: Seq<char>)
    requires
        free_of(a, '\n'),
    ensures
        forall|i: int| 0 <= i < encode_utf8(a).len() ==> encode_utf8(a)[i] != 10,
    decreases a.len(),
{
    if a.len() > 0 {
        let rest = a.drop_first();
        assert(free_of(rest, '\n')) by {
            assert forall|i: int| 0 <= i < rest.len() implies rest[i] != '\n' by {
                assert(rest[i] == a[i + 1]);
            }
        }
        lemma_encode_free_of_newline(rest);
        lemma_encode_scalar_ascii(a[0]);
        let e0 = encode_scalar(a[0] as u32);
        assert(a[0] != '\n');
        assert(encode_utf8(a) == e0 + encode_utf8(rest));
        assert forall|i: int| 0 <= i < encode_utf8(a).len() implies encode_utf8(a)[i] != 10 by {
            if i < e0.len() {
                assert(encode_utf8(a)[i] == e0[i]);
                if e0[i] == 10 {
                    assert(e0[i] as u32 == a[0] as u32);
                    char_u32_cast(a[0], 10u32);
                    char_u32_cast('\n', 10u32);
                }
            } else {
                assert(encode_utf8(a)[i] == encode_utf8(rest)[i - e0.len()]);
            }
        }
    }
}

/// The encoding of a non-empty text that does not end with `\r` does not end
/// with `13`.
proof fn lemma_encode_last_not_cr(a: Seq<char>)
    requires
        a.len() > 0,
        a.last() != '\r',
    ensures
        encode_utf8(a).len() > 0,
        encode_utf8(a).last() != 13,
{
    let c = a.last();
    assert(a =~= a.drop_last() + seq![c]);
    lemma_encode_concat(a.drop_last(), seq![c]);
    lemma_encode_one(c);
    lemma_encode_scalar_ascii(c);
    let e = encode_scalar(c as u32);
    assert(encode_utf8(a).last() == e[e.len() - 1]);
    if e[e.len() - 1] == 13 {
        assert(e[e.len() - 1] as u32 == c as u32);
        char_u32_cast(c, 13u32);
        char_u32_cast('\r', 13u32);
    }
}

/// The encoding of a plain line is unchanged by `strip_cr`.
proof fn lemma_strip_cr_plain(l: Seq<char>)
    requires
        plain_line(l),
    ensures
        strip_cr(encode_utf8(l)) == encode_utf8(l),
{
    if l.len() > 0 {
        lemma_encode_last_not_cr(l);
    } else {
        assert(encode_utf8(l) =~= Seq::<u8>::empty());
    }
}

/// Reading bytes without `10` after a line end adds them to the line being read.
proof fn lemma_line_scan_plain(x: Seq<u8>, y: Seq<u8>)
    requires
        line_scan(x).1 == Seq::<u8>::empty(),
        forall|i: int| 0 <= i < y.len() ==> y[i] != 10,
    ensures
        line_scan(x + y) == (line_scan(x).0, y),
    decreases y.len(),
{
    if y.len() == 0 {
        assert(x + y =~= x);
    } else {
        lemma_line_scan_plain(x, y.drop_last());
        assert((x + y).drop_last() =~= x + y.drop_last());
        assert((x + y).last() == y.last());
        assert(y.drop_last().push(y.last()) =~= y);
    }
}

/// Bytes without `\n` after the last line end form one more line: bytes
/// without `\n` at all are one line.
pub proof fn lemma_unended_line(x: Seq<u8>)
    requires
        x.len() > 0,
        forall|i: int| 0 <= i < x.len() ==> x[i] != 10,
    ensures
        byte_lines(x) == seq![x],
{
    lemma_line_scan_plain(Seq::<u8>::empty(), x);
    assert(Seq::<u8>::empty() + x =~= x);
    assert(Seq::<Seq<u8>>::empty().push(x) =~= seq![x]);
}

/// A final `\n` changes nothing of the lines of bytes whose last line has
/// no `\r` at its end: the last line is a line with or without it.
pub proof fn lemma_final_newline_optional(x: Seq<u8>)
    requires
        x.len() > 0,
        x.last() != 10,
        x.last() != 13,
    ensures
        byte_lines(x.push(10)) == byte_lines(x),
{
    assert(x.push(10).drop_last() =~= x);
    let (done, cur) = line_scan(x.drop_last());
    assert(x.drop_last().push(x.last()) =~= x);
    assert(line_scan(x) == (done, cur.push(x.last())));
}

/// Reading bytes after a line end goes on as reading them from the start.
pub proof fn lemma_line_scan_concat(x: Seq<u8>, y: Seq<u8>)
    requires
        line_scan(x).1 == Seq::<u8>::empty(),
    ensures
        line_scan(x + y) == (line_scan(x).0 + line_scan(y).0, line_scan(y).1),
    decreases y.len(),
{
    if y.len() == 0 {
        assert(x + y =~= x);
        assert(line_scan(x).0 + line_scan(y).0 =~= line_scan(x).0);
    } else {
        lemma_line_scan_concat(x, y.drop_last());
        assert((x + y).drop_last() =~= x + y.drop_last());
        assert((x + y).last() == y.last());
        let (d, c) = line_scan(y.drop_last());
        if y.last() == 10 {
            assert(line_scan(x).0 + d.push(strip_cr(c)) =~= (line_scan(x).0 + d).push(strip_cr(c)));
        }
    }
}

/// Bytes that are empty or end with `\n` leave no line open.
pub proof fn lemma_line_scan_closed(x: Seq<u8>)
    requires
        x.len() == 0 || x.last() == 10,
    ensures
        line_scan(x).1 == Seq::<u8>::empty(),
        byte_lines(x) == line_scan(x).0,
{
}

/// The line that a text without `\n`, ended by `\n`, is read as: its
/// characters, less a `\r` at their end.
pub proof fn lemma_one_line(c: Seq<char>)
    requires
        free_of(c, '\n'),
    ensures
        line_scan(encode_utf8(c) + seq![10u8]) == (seq![strip_cr(encode_utf8(c))], Seq::<u8>::empty()),
        line_chars(strip_cr(encode_utf8(c))) == Some(if c.len() > 0 && c.last() == '\r' { c.drop_last() } else { c }),
{
    let e = encode_utf8(c);
    lemma_encode_free_of_newline(c);
    assert(line_scan(Seq::<u8>::empty()).1 == Seq::<u8>::empty());
    lemma_line_scan_plain(Seq::<u8>::empty(), e);
    assert(Seq::<u8>::empty() + e =~= e);
    assert((e + seq![10u8]).drop_last() =~= e);
    assert(line_scan(Seq::<u8>::empty()).0 =~= Seq::<Seq<u8>>::empty());
    assert(Seq::<Seq<u8>>::empty().push(strip_cr(e)) =~= seq![strip_cr(e)]);
    if c.len() > 0 && c.last() == '\r' {
        let b = c.drop_last();
        assert(c =~= b + seq!['\r']);
        lemma_encode_concat(b, seq!['\r']);
        lemma_encode_one('\r');
        lemma_encode_scalar_ascii('\r');
        let r = encode_scalar('\r' as u32);
        assert(r.len() == 1) by {
            assert(('\r' as u32) < 0x80);
        }
        assert(r[0] == 13) by {
            let v: u32 = 13;
            assert(('\r' as u32) == v);
            assert(((v & 0x7F) as u8) == 13u8) by (bit_vector)
                requires
                    v == 13,
            ;
        }
        assert(e =~= encode_utf8(b) + r);
        assert(e.last() == 13);
        assert(e.drop_last() =~= encode_utf8(b));
        lemma_line_chars_encode(b);
    } else {
        if c.len() > 0 {
            lemma_encode_last_not_cr(c);
        } else {
            assert(e =~= Seq::<u8>::empty());
        }
        lemma_line_chars_encode(c);
    }
}

/// Dropping a white space character from the end of a text that does not
/// trim to nothing leaves its trimmed form as it was.
pub proof fn lemma_trim_drop_white_end(c: Seq<char>)
    requires
        c.len() > 0,
        is_white_space(c.last()),
        trim(c).len() > 0,
    ensures
        trim(c.drop_last()) == trim(c),
{
    let p = white_space_test();
    lemma_strip_start_drop_last(c, p);
    let ss = strip_start(c, p);
    assert(ss.len() > 0);
    assert(p(ss.last()));
}

proof fn lemma_strip_start_drop_last(s: Seq<char>, p: spec_fn(char) -> bool)
    requires
        s.len() > 0,
    ensures
        strip_start(s, p).len() > 0 ==> strip_start(s.drop_last(), p) == strip_start(s, p).drop_last()
            && strip_start(s, p).last() == s.last(),
    decreases s.len(),
{
    if p(s[0]) {
        assert(strip_start(s, p) == strip_start(s.drop_first(), p));
        if s.len() > 1 {
            lemma_strip_start_drop_last(s.drop_first(), p);
            assert(s.drop_last().drop_first() =~= s.drop_first().drop_last());
            assert(s.drop_last()[0] == s[0]);
            assert(strip_start(s.drop_last(), p) == strip_start(s.drop_last().drop_first(), p));
            assert(s.drop_first().last() == s.last());
        } else {
            assert(s.drop_first() =~= Seq::<char>::empty());
            assert(strip_start(s.drop_first(), p) == s.drop_first());
        }
    } else {
        assert(strip_start(s, p) == s);
        if s.len() > 1 {
            assert(s.drop_last()[0] == s[0]);
            assert(strip_start(s.drop_last(), p) == s.drop_last());
        } else {
            assert(s.drop_last() =~= Seq::<char>::empty());
            assert(strip_start(s.drop_last(), p) == s.drop_last());
        }
    }
}

/// Lines of text, each ended by `\n` and encoded in UTF-8, split back into
/// the encodings of those lines.
pub proof fn lemma_lines_of_text(ls: Seq<Seq<char>>)
    requires
        forall|i: int| 0 <= i < ls.len() ==> plain_line(#[trigger] ls[i]),
    ensures
        line_scan(encode_utf8(lines_text(ls))) == (encode_lines(ls), Seq::<u8>::empty()),
        byte_lines(encode_utf8(lines_text(ls))) == encode_lines(ls),
    decreases ls.len(),
{
    if ls.len() == 0 {
        assert(encode_utf8(lines_text(ls)) =~= Seq::<u8>::empty());
        assert(encode_lines(ls) =~= Seq::<Seq<u8>>::empty());
    } else {
        let prev = ls.drop_last();
        let l = ls.last();
        assert forall|i: int| 0 <= i < prev.len() implies plain_line(#[trigger] prev[i]) by {
            assert(prev[i] == ls[i]);
        }
        lemma_lines_of_text(prev);
        assert(plain_line(ls[ls.len() - 1]));
        let ep = encode_utf8(lines_text(prev));
        let el = encode_utf8(l);
        lemma_encode_concat(lines_text(prev), l);
        lemma_encode_concat(lines_text(prev) + l, seq!['\n']);
        lemma_encode_one('\n');
        assert(((10u32 & 0x7F) as u8) == 10u8) by (bit_vector);
        assert(encode_scalar('\n' as u32) =~= seq![10u8]);
        let all = encode_utf8(lines_text(ls));
        assert(all == ep + el + seq![10u8]);
        lemma_encode_free_of_newline(l);
        lemma_line_scan_plain(ep, el);
        assert(all.drop_last() =~= ep + el);
        assert(all.last() == 10);
        lemma_strip_cr_plain(l);
        assert(encode_lines(ls) =~= encode_lines(prev).push(el));
    }
}

/// Each encoded line decodes back.
pub proof fn lemma_line_chars_encode(l: Seq<char>)
    ensures
        line_chars(encode_utf8(l)) == Some(l),
{
    encode_utf8_valid_utf8(l);
    encode_utf8_decode_utf8(l);
}

/// A concatenation is free of a character when both parts are.
pub proof fn lemma_free_of_concat(a: Seq<char>, b: Seq<char>, c: char)
    requires
        free_of(a, c),
        free_of(b, c),
    ensures
        free_of(a + b, c),
{
    assert forall|i: int| 0 <= i < (a + b).len() implies (a + b)[i] != c by {
        if i < a.len() {
            assert((a + b)[i] == a[i]);
        } else {
            assert((a + b)[i] == b[i - a.len()]);
        }
    }
}

/// Decimal texts hold digits only, and a signed one a `-` before them.
pub proof fn lemma_decimal_free_of(n: nat, v: int, c: char)
    requires
        !is_digit(c),
        c != '-',
    ensures
        free_of(decimal(n), c),
        free_of(signed_decimal(v), c),
        decimal(n).len() > 0,
        is_digit(decimal(n)[0]),
{
    lemma_decimal_digits(n);
    let d = decimal(n);
    assert forall|i: int| 0 <= i < d.len() implies d[i] != c by {
        assert(is_digit(d[i]));
    }
    if v < 0 {
        let m = decimal((-v) as nat);
        lemma_decimal_digits((-v) as nat);
        assert forall|i: int| 0 <= i < m.len() implies m[i] != c by {
            assert(is_digit(m[i]));
        }
        assert(free_of(seq!['-'], c));
        lemma_free_of_concat(seq!['-'], m, c);
    } else {
        lemma_decimal_digits(v as nat);
        let m = decimal(v as nat);
        assert forall|i: int| 0 <= i < m.len() implies m[i] != c by {
            assert(is_digit(m[i]));
        }
    }
}

/// `s` does not hold `c` from index `i` on, checked one index at a time.
pub open spec fn free_of_from(s: Seq<char>, c: char, i: int) -> bool
    decreases s.len() - i,
{
    i >= s.len() || (s[i] != c && free_of_from(s, c, i + 1))
}

/// The check one index at a time agrees with [`free_of`].
pub proof fn lemma_free_of_from(s: Seq<char>, c: char, i: int)
    requires
        0 <= i,
        free_of_from(s, c, i),
    ensures
        forall|k: int| i <= k < s.len() ==> s[k] != c,
    decreases s.len() - i,
{
    if i < s.len() {
        lemma_free_of_from(s, c, i + 1);
    }
}

/// The text of a sequence of lines ended by one more line.
pub proof fn lemma_lines_text_push(ls: Seq<Seq<char>>, l: Seq<char>)
    ensures
        lines_text(ls.push(l)) == lines_text(ls) + l + seq!['\n'],
{
    assert(ls.push(l).drop_last() =~= ls);
    assert(ls.push(l).last() == l);
}

/// The text of two runs of lines is the text of the first then of the second.
pub proof fn lemma_lines_text_concat(a: Seq<Seq<char>>, b: Seq<Seq<char>>)
    ensures
        lines_text(a + b) == lines_text(a) + lines_text(b),
    decreases b.len(),
{
    if b.len() == 0 {
        assert(a + b =~= a);
        assert(lines_text(b) =~= Seq::<char>::empty());
        assert(lines_text(a) + lines_text(b) =~= lines_text(a));
    } else {
        lemma_lines_text_concat(a, b.drop_last());
        assert((a + b).drop_last() =~= a + b.drop_last());
        assert((a + b).last() == b.last());
        assert(lines_text(a + b) =~= lines_text(a) + lines_text(b));
    }
}

/// A string holding the decimal text of `v`.
pub fn decimal_string(v: u64) -> (s: String)
    ensures
        s@ == decimal(v as nat),
{
    let mut s = String::new();
    push_decimal(&mut s, v);
    assert(s@ =~= decimal(v as nat));
    s
}

/// A string holding the signed decimal text of `v`.
pub fn signed_decimal_string(v: i64) -> (s: String)
    ensures
        s@ == signed_decimal(v as int),
{
    let mut s = String::new();
    push_signed_decimal(&mut s, v);
    assert(s@ =~= signed_decimal(v as int));
    s
}

} // verus!
