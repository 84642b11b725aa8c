//! Scalars: typing plain scalars, and decoding quoted ones.

use std::path::Path;
use vstd::prelude::*;

use super::error::{eof, eof_fault, err, fault, ErrorKind, ErrorView, ParseError};
use super::text::{char_from_u32, chars_of, is_scalar_value, owned_path, push_str, string_of};
use super::tree::{Value, ValueView, value_view};

verus! {

// --- exact text comparison ----------------------------------------------------------

/// Whether `v` holds exactly the characters of `lit`.
pub fn is_text(v: &[char], lit: &str) -> (r: bool)
    ensures
        r == (v@ == lit@),
{
    let l = chars_of(lit);
    if l.len() != v.len() {
        return false;
    }
    let r = super::text::matches_at(v, 0, lit);
    proof {
        if r {
            assert(v@.subrange(0, v@.len() as int) == v@);
        }
        if v@ == lit@ {
            assert(v@.subrange(0, v@.len() as int) == v@);
        }
    }
    r
}

// --- integers -------------------------------------------------------------------------

pub open spec fn is_digit(c: char) -> bool {
    '0' <= c && c <= '9'
}

pub open spec fn all_digits(s: Seq<char>) -> bool {
    forall|i: int| 0 <= i < s.len() ==> is_digit(#[trigger] s[i])
}

/// The value of a decimal digit.
pub open spec fn digit_value(c: char) -> int {
    c as int - 48
}

/// The value of a string of decimal digits.
pub open spec fn digits_value(s: Seq<char>) -> int
    decreases s.len(),
{
    if s.len() == 0 {
        0
    } else {
        digits_value(s.drop_last()) * 10 + digit_value(s.last())
    }
}

/// The sign and the digits of an integer's text.
pub open spec fn int_parts(t: Seq<char>) -> (bool, Seq<char>) {
    if t.len() > 0 && t[0] == '-' {
        (true, t.drop_first())
    } else if t.len() > 0 && t[0] == '+' {
        (false, t.drop_first())
    } else {
        (false, t)
    }
}

/// The integer a plain scalar denotes: an optional sign, then ASCII digits with
/// no leading zero beyond `0` itself, and a value that fits an `i64`.
pub open spec fn int_value(t: Seq<char>) -> Option<i64> {
    let (neg, ds) = int_parts(t);
    if ds.len() == 0 || !all_digits(ds) || (ds.len() > 1 && ds[0] == '0') {
        None
    } else {
        let v = if neg { -digits_value(ds) } else { digits_value(ds) };
        if i64::MIN <= v <= i64::MAX {
            Some(v as i64)
        } else {
            None
        }
    }
}

proof fn lemma_digits_value_nonneg(s: Seq<char>)
    requires
        all_digits(s),
    ensures
        digits_value(s) >= 0,
    decreases s.len(),
{
    if s.len() > 0 {
        lemma_digits_value_nonneg(s.drop_last());
    }
}

proof fn lemma_digits_value_grows(s: Seq<char>, j: int)
    requires
        all_digits(s),
        0 <= j <= s.len(),
    ensures
        digits_value(s.take(j)) <= digits_value(s),
    decreases s.len() - j,
{
    if j < s.len() {
        lemma_digits_value_grows(s, j + 1);
        assert(s.take(j + 1).drop_last() == s.take(j));
        lemma_digits_value_nonneg(s.take(j));
    } else {
        assert(s.take(j) == s);
    }
}

/// The integer the characters of a plain scalar denote, if any.
pub fn int_of(t: &[char]) -> (r: Option<i64>)
    ensures
        r == int_value(t@),
{
    let len = t.len();
    let (neg, from) = if len > 0 && t[0] == '-' {
        (true, 1usize)
    } else if len > 0 && t[0] == '+' {
        (false, 1usize)
    } else {
        (false, 0usize)
    };
    let ghost ds = int_parts(t@).1;
    assert(ds == t@.subrange(from as int, len as int));
    if from >= len {
        return None;
    }
    if t[from] == '0' && len - from > 1 {
        return None;
    }
    let bound: u128 = 9223372036854775808;
    let mut acc: u128 = 0;
    let mut j = from;
    while j < len
        invariant
            from <= j <= len,
            len == t@.len(),
            ds == t@.subrange(from as int, len as int),
            ds == int_parts(t@).1,
            neg == int_parts(t@).0,
            all_digits(ds.take(j - from)),
            acc == digits_value(ds.take(j - from)),
            acc <= bound,
            bound == 9223372036854775808u128,
        decreases len - j,
    {
        let c = t[j];
        if !('0' <= c && c <= '9') {
            assert(ds[j - from] == c);
            assert(!is_digit(ds[j - from]));
            assert(!all_digits(ds));
            return None;
        }
        let d = (c as u32 - 48) as u128;
        assert(ds.take(j - from + 1).drop_last() == ds.take(j - from));
        assert(ds.take(j - from + 1).last() == c);
        let next = acc * 10 + d;
        if next > bound {
            proof {
                assert(digit_value(c) == d);
                assert(digits_value(ds.take(j - from + 1)) == next);
                if all_digits(ds) {
                    lemma_digits_value_grows(ds, j - from + 1);
                    assert(digits_value(ds) > bound);
                }
            }
            return None;
        }
        acc = next;
        j = j + 1;
    }
    assert(ds.take(len - from) == ds);
    if neg {
        let v: i128 = -(acc as i128);
        Some(v as i64)
    } else if acc < bound {
        Some(acc as i64)
    } else {
        None
    }
}

/// Optional sign then ASCII digits, with no leading zero beyond `0` itself, so
/// that codes like `007` survive as strings. Values too large for an `i64` are
/// not integers.
pub fn parse_int(text: &str) -> (r: Option<i64>)
    ensures
        r == int_value(text@),
{
    let t = chars_of(text);
    int_of(t.as_slice())
}

// --- floats ------------------------------------------------------------------------------

/// The first index at or after `i` that does not hold a digit.
pub open spec fn digit_run(t: Seq<char>, i: int) -> int
    decreases t.len() - i,
{
    if 0 <= i < t.len() && is_digit(t[i]) {
        digit_run(t, i + 1)
    } else {
        i
    }
}

/// Decimal or exponent form: an optional sign, digits with at most one `.`
/// among or after them (at least one digit in all), then optionally `e` or `E`,
/// an optional sign and at least one digit; a `.` or an exponent is required,
/// since a bare digit string is an integer.
pub open spec fn float_syntax(t: Seq<char>) -> bool {
    let i0: int = if t.len() > 0 && (t[0] == '+' || t[0] == '-') { 1 } else { 0 };
    let i1 = digit_run(t, i0);
    let has_dot = 0 <= i1 < t.len() && t[i1] == '.';
    let i2 = if has_dot { digit_run(t, i1 + 1) } else { i1 };
    let digits = if has_dot { (i1 - i0) + (i2 - (i1 + 1)) } else { i1 - i0 };
    let has_exp = 0 <= i2 < t.len() && (t[i2] == 'e' || t[i2] == 'E');
    let i3 = if has_exp {
        if i2 + 1 < t.len() && (t[i2 + 1] == '+' || t[i2 + 1] == '-') { i2 + 2 } else { i2 + 1 }
    } else {
        i2
    };
    let i4 = if has_exp { digit_run(t, i3) } else { i3 };
    &&& digits > 0
    &&& (!has_exp || i4 > i3)
    &&& i4 == t.len()
    &&& (has_dot || has_exp)
}

proof fn lemma_digit_run(t: Seq<char>, i: int)
    requires
        0 <= i,
    ensures
        i <= digit_run(t, i),
        i <= t.len() ==> digit_run(t, i) <= t.len(),
    decreases t.len() - i,
{
    if 0 <= i < t.len() && is_digit(t[i]) {
        lemma_digit_run(t, i + 1);
    }
}

/// Moves `i` past the digits of `t` from `i` on.
fn skip_digits(t: &[char], i: usize) -> (r: usize)
    ensures
        r == digit_run(t@, i as int),
{
    let mut j = i;
    while j < t.len() && '0' <= t[j] && t[j] <= '9'
        invariant
            i <= j,
            digit_run(t@, j as int) == digit_run(t@, i as int),
        decreases t@.len() - j,
    {
        j = j + 1;
    }
    j
}

/// Whether a plain scalar is written in decimal or exponent form.
pub fn is_float(t: &[char]) -> (r: bool)
    ensures
        r == float_syntax(t@),
{
    let len = t.len();
    let i0: usize = if len > 0 && (t[0] == '+' || t[0] == '-') { 1 } else { 0 };
    let i1 = skip_digits(t, i0);
    proof {
        lemma_digit_run(t@, i0 as int);
    }
    let has_dot = i1 < len && t[i1] == '.';
    let i2 = if has_dot { skip_digits(t, i1 + 1) } else { i1 };
    proof {
        if has_dot {
            lemma_digit_run(t@, i1 + 1);
        }
    }
    let digits = if has_dot { (i1 - i0) + (i2 - (i1 + 1)) } else { i1 - i0 };
    if digits == 0 {
        return false;
    }
    let has_exp = i2 < len && (t[i2] == 'e' || t[i2] == 'E');
    let i3 = if has_exp {
        if i2 + 1 < len && (t[i2 + 1] == '+' || t[i2 + 1] == '-') { i2 + 2 } else { i2 + 1 }
    } else {
        i2
    };
    let i4 = if has_exp { skip_digits(t, i3) } else { i3 };
    if has_exp && i4 == i3 {
        return false;
    }
    i4 == len && (has_dot || has_exp)
}

// --- plain scalars ---------------------------------------------------------------------

/// The type a plain (unquoted) scalar is given. Quoted scalars never come
/// through here; they are always strings.
pub open spec fn typed_scalar(t: Seq<char>) -> ValueView {
    if t.len() == 0 || t == "~"@ || t == "null"@ || t == "Null"@ || t == "NULL"@ {
        ValueView::Null
    } else if t == "true"@ || t == "True"@ || t == "TRUE"@ {
        ValueView::Bool(true)
    } else if t == "false"@ || t == "False"@ || t == "FALSE"@ {
        ValueView::Bool(false)
    } else if let Some(i) = int_value(t) {
        ValueView::Int(i)
    } else if float_syntax(t) {
        ValueView::Float(t)
    } else {
        ValueView::Str(t)
    }
}

/// Type a plain (unquoted) scalar.
pub fn infer_scalar(text: &[char]) -> (r: Value)
    ensures
        value_view(r) == typed_scalar(text@),
{
    if text.len() == 0 || is_text(text, "~") || is_text(text, "null") || is_text(text, "Null")
        || is_text(text, "NULL") {
        return Value::Null;
    }
    if is_text(text, "true") || is_text(text, "True") || is_text(text, "TRUE") {
        return Value::Bool(true);
    }
    if is_text(text, "false") || is_text(text, "False") || is_text(text, "FALSE") {
        return Value::Bool(false);
    }
    if let Some(i) = int_of(text) {
        return Value::Int(i);
    }
    if is_float(text) {
        return Value::Float(string_of(text));
    }
    Value::Str(string_of(text))
}

// --- quoted scalars ---------------------------------------------------------------------

/// The value of a hexadecimal digit, as `char::to_digit(16)` gives it.
pub open spec fn hex_value(c: char) -> Option<int> {
    if '0' <= c && c <= '9' {
        Some(c as int - 48)
    } else if 'a' <= c && c <= 'f' {
        Some(c as int - 87)
    } else if 'A' <= c && c <= 'F' {
        Some(c as int - 55)
    } else {
        None
    }
}

/// The number four hexadecimal digits at `at` denote, if they are there.
pub open spec fn hex4_value(s: Seq<char>, at: int) -> Option<int> {
    if 0 <= at && at + 4 <= s.len() && hex_value(s[at]) is Some && hex_value(s[at + 1]) is Some
        && hex_value(s[at + 2]) is Some && hex_value(s[at + 3]) is Some {
        Some(
            ((hex_value(s[at])->0 * 16 + hex_value(s[at + 1])->0) * 16 + hex_value(s[at + 2])->0) * 16
                + hex_value(s[at + 3])->0,
        )
    } else {
        None
    }
}

fn hex_digit(c: char) -> (r: Option<u32>)
    ensures
        r matches Some(v) ==> hex_value(c) == Some(v as int) && v < 16,
        r is None ==> hex_value(c) is None,
{
    if '0' <= c && c <= '9' {
        Some(c as u32 - 48)
    } else if 'a' <= c && c <= 'f' {
        Some(c as u32 - 87)
    } else if 'A' <= c && c <= 'F' {
        Some(c as u32 - 55)
    } else {
        None
    }
}

/// The number four hexadecimal digits at `at` denote, or `None` if the line
/// ends first or one of them is not a hexadecimal digit.
pub fn hex4(chars: &[char], at: usize) -> (r: Option<u32>)
    ensures
        r matches Some(v) ==> hex4_value(chars@, at as int) == Some(v as int),
        r is None ==> hex4_value(chars@, at as int) is None,
{
    if at > chars.len() || chars.len() - at < 4 {
        return None;
    }
    let a = match hex_digit(chars[at]) {
        Some(v) => v,
        None => {
            return None;
        },
    };
    let b = match hex_digit(chars[at + 1]) {
        Some(v) => v,
        None => {
            return None;
        },
    };
    let c = match hex_digit(chars[at + 2]) {
        Some(v) => v,
        None => {
            return None;
        },
    };
    let d = match hex_digit(chars[at + 3]) {
        Some(v) => v,
        None => {
            return None;
        },
    };
    Some(((a * 16 + b) * 16 + c) * 16 + d)
}

/// A `\u` escape that cannot be decoded, at `i` on line `number`.
pub open spec fn bad_unicode(number: int, i: int, why: Seq<char>) -> ErrorView {
    fault(ErrorKind::Syntax, number, i + 1, "invalid \\u escape: "@ + why)
}

/// Decoding the `\uXXXX` escape at `i` (where `s[i]` is the backslash),
/// pairing surrogates: the character and the index just past the escape.
pub open spec fn unicode_escape(s: Seq<char>, number: int, i: int) -> Result<(char, int), ErrorView> {
    match hex4_value(s, i + 2) {
        None => Err(bad_unicode(number, i, "expected four hexadecimal digits"@)),
        Some(high) => {
            if 0xD800 <= high < 0xDC00 {
                if i + 7 < s.len() && s[i + 6] == '\\' && s[i + 7] == 'u' && hex4_value(s, i + 8) is Some
                    && 0xDC00 <= hex4_value(s, i + 8)->0 < 0xE000 {
                    let cp = 0x10000 + (high - 0xD800) * 1024 + (hex4_value(s, i + 8)->0 - 0xDC00);
                    if is_scalar_value(cp) {
                        Ok((cp as char, i + 12))
                    } else {
                        Err(bad_unicode(number, i, "not a Unicode scalar value"@))
                    }
                } else {
                    Err(bad_unicode(number, i, "unpaired surrogate"@))
                }
            } else if 0xDC00 <= high < 0xE000 {
                Err(bad_unicode(number, i, "unpaired surrogate"@))
            } else if is_scalar_value(high) {
                Ok((high as char, i + 6))
            } else {
                Err(bad_unicode(number, i, "not a Unicode scalar value"@))
            }
        },
    }
}

fn bad_unicode_error(file: &Path, number: usize, i: usize, why: &str) -> (e: ParseError)
    requires
        i < usize::MAX,
    ensures
        e@ == bad_unicode(number as int, i as int, why@),
        e.file == owned_path(file),
{
    let mut msg = chars_of("invalid \\u escape: ");
    push_str(&mut msg, why);
    err(file, ErrorKind::Syntax, number, i + 1, string_of(msg.as_slice()))
}

/// Decode `\uXXXX` at `i` (where `chars[i]` is the backslash), pairing
/// surrogates, and return the char and the index just past the escape.
pub fn decode_unicode(file: &Path, number: usize, chars: &[char], i: usize) -> (r: Result<(char, usize), ParseError>)
    requires
        i < usize::MAX,
    ensures
        match unicode_escape(chars@, number as int, i as int) {
            Ok((c, next)) => r matches Ok((c2, n2)) && c2 == c && n2 == next,
            Err(f) => r matches Err(e) && e@ == f && e.file == owned_path(file),
        },
{
    let len = chars.len();
    let high = if i >= len || len - i < 6 {
        None
    } else {
        hex4(chars, i + 2)
    };
    let high = match high {
        Some(v) => v,
        None => {
            return Err(bad_unicode_error(file, number, i, "expected four hexadecimal digits"));
        },
    };
    if 0xD800 <= high && high < 0xDC00 {
        if i + 6 < len && chars[i + 6] == '\\' && i + 7 < len && chars[i + 7] == 'u' {
            if let Some(low) = hex4(chars, i + 8) {
                if 0xDC00 <= low && low < 0xE000 {
                    let cp = 0x10000 + (high - 0xD800) * 1024 + (low - 0xDC00);
                    return match char_from_u32(cp) {
                        Some(c) => Ok((c, i + 12)),
                        None => Err(bad_unicode_error(file, number, i, "not a Unicode scalar value")),
                    };
                }
            }
        }
        return Err(bad_unicode_error(file, number, i, "unpaired surrogate"));
    }
    if 0xDC00 <= high && high < 0xE000 {
        return Err(bad_unicode_error(file, number, i, "unpaired surrogate"));
    }
    match char_from_u32(high) {
        Some(c) => Ok((c, i + 6)),
        None => Err(bad_unicode_error(file, number, i, "not a Unicode scalar value")),
    }
}

/// The failure for a quoted scalar opened at `start` that the line ends inside.
pub open spec fn unterminated_fault(number: int, start: int, quote: char) -> ErrorView {
    fault(
        ErrorKind::UnterminatedQuote,
        number,
        start + 1,
        "unterminated "@ + (if quote == '\'' { "single-quoted"@ } else { "double-quoted"@ })
            + " scalar: quoted scalars must close on the line they open"@,
    )
}

/// The failure for a backslash escape a double-quoted scalar does not support.
pub open spec fn escape_fault(number: int, i: int, escape: char) -> ErrorView {
    fault(
        ErrorKind::Syntax,
        number,
        i + 1,
        "unsupported escape sequence \\"@ + seq![escape] + " in a double-quoted scalar"@,
    )
}

/// The character a one-letter backslash escape stands for.
pub open spec fn simple_escape(e: char) -> Option<char> {
    if e == 'n' {
        Some('\n')
    } else if e == 't' {
        Some('\t')
    } else if e == 'r' {
        Some('\r')
    } else if e == '0' {
        Some('\0')
    } else if e == '"' {
        Some('"')
    } else if e == '\\' {
        Some('\\')
    } else if e == '/' {
        Some('/')
    } else {
        None
    }
}

/// Decoding a quoted scalar opened by `quote` at `start`, from index `i` on,
/// having decoded `out` so far: the text and the index just past the closing
/// quote. In single quotes `''` is the only escape; in double quotes the
/// escapes are `\n \t \r \0 \" \\ \/` and `\uXXXX`.
pub open spec fn decode_from(s: Seq<char>, quote: char, number: int, start: int, i: int, out: Seq<char>)
    -> Result<(Seq<char>, int), ErrorView>
    decreases s.len() + 1 - i,
{
    if i < 0 || i >= s.len() {
        Err(unterminated_fault(number, start, quote))
    } else {
        let c = s[i];
        if quote == '\'' {
            if c == '\'' {
                if i + 1 < s.len() && s[i + 1] == '\'' {
                    decode_from(s, quote, number, start, i + 2, out.push('\''))
                } else {
                    Ok((out, i + 1))
                }
            } else {
                decode_from(s, quote, number, start, i + 1, out.push(c))
            }
        } else if c == '"' {
            Ok((out, i + 1))
        } else if c == '\\' {
            if i + 1 >= s.len() {
                Err(unterminated_fault(number, start, quote))
            } else {
                let e = s[i + 1];
                if let Some(d) = simple_escape(e) {
                    decode_from(s, quote, number, start, i + 2, out.push(d))
                } else if e == 'u' {
                    match unicode_escape(s, number, i) {
                        Ok((d, next)) => decode_from(s, quote, number, start, next, out.push(d)),
                        Err(f) => Err(f),
                    }
                } else {
                    Err(escape_fault(number, i, e))
                }
            }
        } else {
            decode_from(s, quote, number, start, i + 1, out.push(c))
        }
    }
}

/// The quoted scalar starting at `start` of line `number`: its text and the
/// index just past its closing quote.
pub open spec fn decoded(s: Seq<char>, number: int, start: int) -> Result<(Seq<char>, int), ErrorView> {
    if 0 <= start < s.len() {
        decode_from(s, s[start], number, start, start + 1, Seq::empty())
    } else {
        Err(eof_fault())
    }
}

pub proof fn lemma_decode_from(s: Seq<char>, quote: char, number: int, start: int, i: int, out: Seq<char>)
    ensures
        decode_from(s, quote, number, start, i, out) matches Ok((_, end)) ==> i < end <= s.len(),
    decreases s.len() + 1 - i,
{
    if 0 <= i < s.len() {
        let c = s[i];
        lemma_decode_from(s, quote, number, start, i + 1, out.push(c));
        lemma_decode_from(s, quote, number, start, i + 2, out.push('\''));
        if i + 1 < s.len() {
            if let Some(d) = simple_escape(s[i + 1]) {
                lemma_decode_from(s, quote, number, start, i + 2, out.push(d));
            }
            if let Ok((d, next)) = unicode_escape(s, number, i) {
                lemma_decode_from(s, quote, number, start, next, out.push(d));
            }
        }
    }
}

/// Decode the quoted scalar starting at `start`, returning it and the index
/// just past its closing quote.
pub fn decode_quoted(file: &Path, number: usize, chars: &[char], start: usize)
    -> (r: Result<(String, usize), ParseError>)
    ensures
        match decoded(chars@, number as int, start as int) {
            Ok((text, end)) => r matches Ok((t2, e2)) && t2@ == text && e2 == end,
            Err(f) => r matches Err(e) && e@ == f && e.file == owned_path(file),
        },
{
    let len = chars.len();
    if start >= len {
        return Err(eof(file));
    }
    let quote = chars[start];
    let mut out: Vec<char> = Vec::new();
    let mut i = start + 1;
    while i < len
        invariant
            len == chars@.len(),
            start < len,
            quote == chars@[start as int],
            start < i <= len,
            decoded(chars@, number as int, start as int)
                == decode_from(chars@, quote, number as int, start as int, i as int, out@),
        decreases len - i,
    {
        let c = chars[i];
        if quote == '\'' {
            if c == '\'' {
                if i + 1 < len && chars[i + 1] == '\'' {
                    out.push('\'');
                    i = i + 2;
                    continue;
                }
                return Ok((string_of(out.as_slice()), i + 1));
            }
            out.push(c);
            i = i + 1;
            continue;
        }
        if c == '"' {
            return Ok((string_of(out.as_slice()), i + 1));
        } else if c == '\\' {
            if i + 1 >= len {
                return Err(unterminated_error(file, number, start, quote));
            }
            let escape = chars[i + 1];
            let d = if escape == 'n' {
                '\n'
            } else if escape == 't' {
                '\t'
            } else if escape == 'r' {
                '\r'
            } else if escape == '0' {
                '\0'
            } else if escape == '"' {
                '"'
            } else if escape == '\\' {
                '\\'
            } else if escape == '/' {
                '/'
            } else if escape == 'u' {
                let (decoded_char, next) = match decode_unicode(file, number, chars, i) {
                    Ok(p) => p,
                    Err(e) => {
                        return Err(e);
                    },
                };
                out.push(decoded_char);
                i = next;
                continue;
            } else {
                let mut msg = chars_of("unsupported escape sequence \\");
                msg.push(escape);
                push_str(&mut msg, " in a double-quoted scalar");
                proof {
                    assert(msg@ == "unsupported escape sequence \\"@ + seq![escape] + " in a double-quoted scalar"@);
                }
                return Err(err(file, ErrorKind::Syntax, number, i + 1, string_of(msg.as_slice())));
            };
            out.push(d);
            i = i + 2;
        } else {
            out.push(c);
            i = i + 1;
        }
    }
    Err(unterminated_error(file, number, start, quote))
}

fn unterminated_error(file: &Path, number: usize, start: usize, quote: char) -> (e: ParseError)
    requires
        start < usize::MAX,
    ensures
        e@ == unterminated_fault(number as int, start as int, quote),
        e.file == owned_path(file),
{
    let mut msg = chars_of("unterminated ");
    if quote == '\'' {
        push_str(&mut msg, "single-quoted");
    } else {
        push_str(&mut msg, "double-quoted");
    }
    push_str(&mut msg, " scalar: quoted scalars must close on the line they open");
    err(file, ErrorKind::UnterminatedQuote, number, start + 1, string_of(msg.as_slice()))
}

} // verus!
