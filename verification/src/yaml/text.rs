//! Character-level building blocks: turning `str` into characters and back,
//! Unicode whitespace, decimal rendering, and the two `std::path` types that
//! error reports carry.

use std::path::{Path, PathBuf};
use vstd::prelude::*;
use vstd::utf8::{decode_utf8, valid_utf8};

verus! {

#[verifier::external_type_specification]
#[verifier::external_body]
pub struct ExPath(Path);

#[verifier::external_type_specification]
#[verifier::external_body]
pub struct ExPathBuf(PathBuf);

/// `PathBuf::clone`: claimed to give back the same path.
pub assume_specification[ <PathBuf as Clone>::clone ](p: &PathBuf) -> (r: PathBuf)
    ensures
        r == *p,
;

/// The owned copy that `Path::to_path_buf` makes of a path.
pub uninterp spec fn owned_path(p: &Path) -> PathBuf;

/// Calls `Path::to_path_buf`. Claimed: the result is the same owned path
/// whenever the same path is given (it depends on the path alone).
#[verifier::external_body]
pub(crate) fn path_to_buf(p: &Path) -> (r: PathBuf)
    ensures
        r == owned_path(p),
{
    p.to_path_buf()
}

/// The text that `PathBuf::display` shows for a path.
pub uninterp spec fn shown_path(p: PathBuf) -> Seq<char>;

/// Calls `PathBuf::display` and formats it. Claimed: the text is a function of
/// the path alone; what it is (a lossy rendering of non-UTF-8 paths) is not
/// stated.
#[verifier::external_body]
pub(crate) fn display_path(p: &PathBuf) -> (r: String)
    ensures
        r@ == shown_path(*p),
{
    format!("{}", p.display())
}

/// Whether `v` is a Unicode scalar value: a code point that is not a surrogate.
pub open spec fn is_scalar_value(v: int) -> bool {
    (0 <= v < 0xD800) || (0xE000 <= v <= 0x10FFFF)
}

/// Calls `char::from_u32`. Claimed, as its documentation states: the character
/// with code point `v` when `v` is a Unicode scalar value, `None` otherwise.
#[verifier::external_body]
pub(crate) fn char_from_u32(v: u32) -> (r: Option<char>)
    ensures
        is_scalar_value(v as int) ==> r == Some(v as char),
        !is_scalar_value(v as int) ==> r is None,
{
    char::from_u32(v)
}

/// Calls `String::from_utf8`. Claimed, as its documentation states: the bytes
/// become a string exactly when they are valid UTF-8, and the string's
/// characters are then the ones the bytes encode.
#[verifier::external_body]
pub(crate) fn string_from_utf8(bytes: Vec<u8>) -> (r: Option<String>)
    ensures
        r is Some <==> valid_utf8(bytes@),
        r is Some ==> r->0@ == decode_utf8(bytes@),
{
    match String::from_utf8(bytes) {
        Ok(s) => Some(s),
        Err(_) => None,
    }
}

/// Calls `String::push`. Claimed: the character is appended.
#[verifier::external_body]
fn string_push(s: &mut String, c: char)
    ensures
        final(s)@ == old(s)@.push(c),
{
    s.push(c)
}

/// The characters of `s`, in order.
pub fn chars_of(s: &str) -> (r: Vec<char>)
    ensures
        r@ == s@,
{
    let mut out: Vec<char> = Vec::new();
    broadcast use vstd::string::group_string_axioms;
    for c in it: s.chars()
        invariant
            out@ == it.history(),
            it.seq() == s@,
    {
        out.push(c);
    }
    out
}

/// A `String` holding exactly the characters of `v`.
pub fn string_of(v: &[char]) -> (r: String)
    ensures
        r@ == v@,
{
    let mut s = String::new();
    let mut i: usize = 0;
    while i < v.len()
        invariant
            i <= v@.len(),
            s@ == v@.take(i as int),
        decreases v@.len() - i,
    {
        string_push(&mut s, v[i]);
        assert(v@.take(i as int).push(v@[i as int]) == v@.take(i + 1));
        i = i + 1;
    }
    assert(v@.take(v@.len() as int) == v@);
    s
}

/// A `String` holding the characters of `lit`.
pub fn text_of(lit: &str) -> (r: String)
    ensures
        r@ == lit@,
{
    string_of(chars_of(lit).as_slice())
}

/// Appends the characters of `s` to `v`.
pub fn push_str(v: &mut Vec<char>, s: &str)
    ensures
        final(v)@ == old(v)@ + s@,
{
    let cs = chars_of(s);
    let mut i: usize = 0;
    while i < cs.len()
        invariant
            i <= cs@.len(),
            cs@ == s@,
            v@ == old(v)@ + s@.take(i as int),
        decreases cs@.len() - i,
    {
        v.push(cs[i]);
        assert(s@.take(i as int).push(s@[i as int]) == s@.take(i + 1));
        i = i + 1;
    }
    assert(s@.take(s@.len() as int) == s@);
}

/// Whether `lit` occurs in `v` starting at index `from`.
pub open spec fn occurs_at(v: Seq<char>, from: int, lit: Seq<char>) -> bool {
    0 <= from && from + lit.len() <= v.len() && v.subrange(from, from + lit.len()) == lit
}

/// Whether the characters of `lit` stand in `v` from index `from` on.
pub fn matches_at(v: &[char], from: usize, lit: &str) -> (r: bool)
    ensures
        r == occurs_at(v@, from as int, lit@),
{
    let l = chars_of(lit);
    if from > v.len() || v.len() - from < l.len() {
        return false;
    }
    let mut k: usize = 0;
    while k < l.len()
        invariant
            l@ == lit@,
            from + l@.len() <= v@.len(),
            v@.len() <= usize::MAX,
            k <= l@.len(),
            forall|j: int| 0 <= j < k ==> v@[from + j] == l@[j],
        decreases l@.len() - k,
    {
        if v[from + k] != l[k] {
            assert(v@.subrange(from as int, from + l@.len())[k as int] != lit@[k as int]);
            return false;
        }
        k = k + 1;
    }
    assert(v@.subrange(from as int, from + l@.len()) == lit@);
    true
}

/// Unicode `White_Space`, the property `char::is_whitespace` reports.
pub open spec fn is_white(c: char) -> bool {
    ||| ('\t' <= c && c <= '\r')
    ||| c == ' '
    ||| c == '\u{85}'
    ||| c == '\u{a0}'
    ||| c == '\u{1680}'
    ||| ('\u{2000}' <= c && c <= '\u{200a}')
    ||| c == '\u{2028}'
    ||| c == '\u{2029}'
    ||| c == '\u{202f}'
    ||| c == '\u{205f}'
    ||| c == '\u{3000}'
}

/// Whether `c` is Unicode whitespace.
pub fn is_whitespace(c: char) -> (r: bool)
    ensures
        r == is_white(c),
{
    ('\t' <= c && c <= '\r') || c == ' ' || c == '\u{85}' || c == '\u{a0}' || c == '\u{1680}'
        || ('\u{2000}' <= c && c <= '\u{200a}') || c == '\u{2028}' || c == '\u{2029}'
        || c == '\u{202f}' || c == '\u{205f}' || c == '\u{3000}'
}

/// Every character of `s` is whitespace (so an empty `s` is blank too).
pub open spec fn all_white(s: Seq<char>) -> bool {
    forall|i: int| 0 <= i < s.len() ==> is_white(#[trigger] s[i])
}

/// Whether every character of `v` is whitespace.
pub fn is_blank(v: &[char]) -> (r: bool)
    ensures
        r == all_white(v@),
{
    let mut j: usize = 0;
    while j < v.len()
        invariant
            j <= v@.len(),
            forall|k: int| 0 <= k < j ==> is_white(#[trigger] v@[k]),
        decreases v@.len() - j,
    {
        if !is_whitespace(v[j]) {
            return false;
        }
        j = j + 1;
    }
    true
}

/// `s` with trailing whitespace removed, as `str::trim_end` does.
pub open spec fn trim_end(s: Seq<char>) -> Seq<char>
    decreases s.len(),
{
    if s.len() > 0 && is_white(s.last()) {
        trim_end(s.drop_last())
    } else {
        s
    }
}

/// The length of `s.take(n)` once trailing whitespace is removed.
pub open spec fn trimmed_len(s: Seq<char>, n: int) -> int
    decreases n,
{
    if 0 < n <= s.len() && is_white(s[n - 1]) {
        trimmed_len(s, n - 1)
    } else {
        n
    }
}

proof fn lemma_trimmed_len(s: Seq<char>, n: int)
    requires
        0 <= n <= s.len(),
    ensures
        0 <= trimmed_len(s, n) <= n,
        s.take(trimmed_len(s, n)) == trim_end(s.take(n)),
    decreases n,
{
    if 0 < n && is_white(s[n - 1]) {
        assert(s.take(n).drop_last() == s.take(n - 1));
        lemma_trimmed_len(s, n - 1);
    }
}

/// Characters `from..to` of `v` with trailing whitespace removed.
pub fn trimmed(v: &[char], from: usize, to: usize) -> (r: Vec<char>)
    requires
        from <= to <= v@.len(),
    ensures
        r@ == trim_end(v@.subrange(from as int, to as int)),
{
    let ghost sub = v@.subrange(from as int, to as int);
    let mut end = to;
    while end > from && is_whitespace(v[end - 1])
        invariant
            from <= end <= to <= v@.len(),
            sub == v@.subrange(from as int, to as int),
            trimmed_len(sub, (end - from) as int) == trimmed_len(sub, (to - from) as int),
        decreases end,
    {
        assert(sub[end - from - 1] == v@[end - 1]);
        end = end - 1;
    }
    assert(end > from ==> sub[end - from - 1] == v@[end - 1]);
    assert(trimmed_len(sub, (end - from) as int) == (end - from) as int);
    proof {
        lemma_trimmed_len(sub, (to - from) as int);
        assert(sub.take((to - from) as int) == sub);
    }
    let mut out: Vec<char> = Vec::new();
    let mut i = from;
    while i < end
        invariant
            from <= i <= end <= to <= v@.len(),
            out@ == v@.subrange(from as int, i as int),
        decreases end - i,
    {
        out.push(v[i]);
        assert(v@.subrange(from as int, i as int).push(v@[i as int]) == v@.subrange(from as int, i + 1));
        i = i + 1;
    }
    assert(out@ == sub.take((end - from) as int));
    out
}

/// The character of a decimal digit.
pub open spec fn digit_char(d: nat) -> char {
    (d + 48) as char
}

/// The decimal numeral of `n`, as `usize`'s `Display` writes it.
pub open spec fn decimal(n: nat) -> Seq<char>
    decreases n,
{
    if n < 10 {
        seq![digit_char(n)]
    } else {
        decimal(n / 10).push(digit_char(n % 10))
    }
}

/// Appends the decimal numeral of `n` to `out`.
pub fn push_decimal(out: &mut Vec<char>, n: usize)
    ensures
        final(out)@ == old(out)@ + decimal(n as nat),
    decreases n,
{
    if n >= 10 {
        push_decimal(out, n / 10);
    }
    let d: u8 = (n % 10) as u8;
    let c = (48u8 + d) as char;
    assert(c == digit_char((n % 10) as nat));
    out.push(c);
}

} // verus!
