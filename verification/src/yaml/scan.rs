//! The line pre-pass: splitting the text into significant lines, and the
//! character-level scans that the reader runs over one line.

use std::path::Path;
use vstd::prelude::*;

use super::error::{ErrorKind, ErrorView, ParseError, err, fault};
use super::text::{all_white, chars_of, is_blank, matches_at, occurs_at, owned_path, push_str, string_of};

verus! {

/// A significant source line: blank and comment-only lines never make it into
/// the list, and nothing is renumbered, so `number` is the physical line.
pub struct Line {
    pub number: usize,
    /// Leading spaces; the column the content starts at.
    pub indent: usize,
    /// The whole line, comment stripped and right-trimmed, indent included.
    pub chars: Vec<char>,
}

pub struct LineView {
    pub number: int,
    pub indent: int,
    pub chars: Seq<char>,
}

impl View for Line {
    type V = LineView;

    open spec fn view(&self) -> LineView {
        LineView { number: self.number as int, indent: self.indent as int, chars: self.chars@ }
    }
}

// --- small predicates ---------------------------------------------------------

/// Index `i` is past the end of `s` or holds a space.
pub open spec fn space_or_end(s: Seq<char>, i: int) -> bool {
    i >= s.len() || s[i] == ' '
}

/// The first index at or after `i` that does not hold a space.
pub open spec fn skip_spaces(s: Seq<char>, i: int) -> int
    decreases s.len() - i,
{
    if 0 <= i < s.len() && s[i] == ' ' {
        skip_spaces(s, i + 1)
    } else {
        i
    }
}

pub proof fn lemma_skip_spaces(s: Seq<char>, i: int)
    requires
        0 <= i,
    ensures
        i <= skip_spaces(s, i),
        i <= s.len() ==> skip_spaces(s, i) <= s.len(),
        skip_spaces(s, i) < s.len() ==> s[skip_spaces(s, i)] != ' ',
        forall|j: int| i <= j < skip_spaces(s, i) ==> s[j] == ' ',
    decreases s.len() - i,
{
    if 0 <= i < s.len() && s[i] == ' ' {
        lemma_skip_spaces(s, i + 1);
    }
}

/// Moves `i` past the spaces of `s` from `i` on.
pub fn skip_spaces_from(s: &[char], i: usize) -> (r: usize)
    ensures
        r == skip_spaces(s@, i as int),
{
    let mut j = i;
    while j < s.len() && s[j] == ' '
        invariant
            i <= j,
            skip_spaces(s@, j as int) == skip_spaces(s@, i as int),
        decreases s@.len() - j,
    {
        j = j + 1;
    }
    j
}

/// Characters `from..to` of `s`, each bound first clamped into the line.
pub open spec fn clamped(s: Seq<char>, from: int, to: int) -> Seq<char> {
    let f = if from < s.len() { from } else { s.len() as int };
    let t0 = if to < s.len() { to } else { s.len() as int };
    let t = if t0 < f { f } else { t0 };
    s.subrange(f, t)
}

/// Bounds-checked slice of a line into an owned `String`; never panics.
pub fn slice(chars: &[char], from: usize, to: usize) -> (r: String)
    ensures
        r@ == clamped(chars@, from as int, to as int),
{
    let len = chars.len();
    let f = if from < len { from } else { len };
    let t0 = if to < len { to } else { len };
    let t = if t0 < f { f } else { t0 };
    let mut out: Vec<char> = Vec::new();
    let mut i = f;
    while i < t
        invariant
            f <= i <= t <= chars@.len(),
            out@ == chars@.subrange(f as int, i as int),
        decreases t - i,
    {
        out.push(chars[i]);
        assert(chars@.subrange(f as int, i as int).push(chars@[i as int]) == chars@.subrange(f as int, i + 1));
        i = i + 1;
    }
    string_of(out.as_slice())
}

// --- quoted scalars -------------------------------------------------------------

/// Scanning a quoted scalar opened by `quote` from index `i` on: the index just
/// past its closing quote, or `None` if the line ends first. In single quotes
/// `''` stands for a quote; in double quotes a backslash escapes the next
/// character.
pub open spec fn quoted_end_from(s: Seq<char>, quote: char, i: int) -> Option<int>
    decreases s.len() + 1 - i,
{
    if i < 0 || i >= s.len() {
        None
    } else if quote == '\'' {
        if s[i] == '\'' {
            if i + 1 < s.len() && s[i + 1] == '\'' {
                quoted_end_from(s, quote, i + 2)
            } else {
                Some(i + 1)
            }
        } else {
            quoted_end_from(s, quote, i + 1)
        }
    } else if s[i] == '\\' {
        quoted_end_from(s, quote, i + 2)
    } else if s[i] == '"' {
        Some(i + 1)
    } else {
        quoted_end_from(s, quote, i + 1)
    }
}

/// The index just past the closing quote of the scalar starting at `start`.
pub open spec fn quoted_end(s: Seq<char>, start: int) -> Option<int> {
    if 0 <= start < s.len() {
        quoted_end_from(s, s[start], start + 1)
    } else {
        None
    }
}

pub proof fn lemma_quoted_end_from(s: Seq<char>, quote: char, i: int)
    ensures
        quoted_end_from(s, quote, i) matches Some(e) ==> i < e <= s.len(),
    decreases s.len() + 1 - i,
{
    if 0 <= i < s.len() {
        lemma_quoted_end_from(s, quote, i + 1);
        lemma_quoted_end_from(s, quote, i + 2);
    }
}

pub proof fn lemma_quoted_end(s: Seq<char>, start: int)
    ensures
        quoted_end(s, start) matches Some(e) ==> start + 1 < e <= s.len(),
{
    if 0 <= start < s.len() {
        lemma_quoted_end_from(s, s[start], start + 1);
    }
}

/// The index just past the closing quote of the scalar starting at `start`, or
/// `None` if the line ends first.
pub fn scan_quoted_end(chars: &[char], start: usize) -> (r: Option<usize>)
    ensures
        r is Some == quoted_end(chars@, start as int) is Some,
        r matches Some(e) ==> quoted_end(chars@, start as int) == Some(e as int),
        r matches Some(e) ==> start + 1 < e <= chars@.len(),
{
    proof {
        lemma_quoted_end(chars@, start as int);
    }
    let len = chars.len();
    if start >= len {
        return None;
    }
    let quote = chars[start];
    let mut i = start + 1;
    while i < len
        invariant
            len == chars@.len(),
            start < len,
            quote == chars@[start as int],
            start < i <= len,
            quoted_end(chars@, start as int) == quoted_end_from(chars@, quote, i as int),
        decreases len - i,
    {
        let c = chars[i];
        if quote == '\'' {
            if c == '\'' {
                if i + 1 < len && chars[i + 1] == '\'' {
                    i = i + 2;
                    continue;
                }
                return Some(i + 1);
            }
            i = i + 1;
        } else {
            if c == '\\' {
                if i + 1 >= len {
                    assert(quoted_end_from(chars@, quote, i + 2) == None::<int>);
                    return None;
                }
                i = i + 2;
            } else if c == '"' {
                return Some(i + 1);
            } else {
                i = i + 1;
            }
        }
    }
    None
}

// --- comments -------------------------------------------------------------------

/// Where a `#` comment starts when scanning from `i` (with `token_start` telling
/// whether a scalar may start there), the content having begun at `start`; the
/// line's length if there is no comment. A `#` opens a comment only at the
/// start of the content or after whitespace, and never inside a quoted scalar.
pub open spec fn comment_from(s: Seq<char>, start: int, i: int, token_start: bool) -> int
    decreases s.len() + 1 - i,
{
    if i < 0 || i >= s.len() {
        s.len() as int
    } else {
        let c = s[i];
        if (c == '\'' || c == '"') && token_start {
            match quoted_end(s, i) {
                Some(end) => {
                    proof {
                        lemma_quoted_end(s, i);
                    }
                    comment_from(s, start, end, false)
                },
                None => s.len() as int,
            }
        } else if c == '#' && (i == start || s[i - 1] == ' ' || s[i - 1] == '\t') {
            i
        } else if c == ' ' || c == '\t' {
            comment_from(s, start, i + 1, token_start)
        } else if c == '-' && token_start && space_or_end(s, i + 1) {
            comment_from(s, start, i + 1, token_start)
        } else if c == ':' && space_or_end(s, i + 1) {
            comment_from(s, start, i + 1, true)
        } else {
            comment_from(s, start, i + 1, false)
        }
    }
}

pub proof fn lemma_comment_from(s: Seq<char>, start: int, i: int, token_start: bool)
    requires
        0 <= i,
    ensures
        i <= comment_from(s, start, i, token_start) || comment_from(s, start, i, token_start) == s.len(),
        comment_from(s, start, i, token_start) <= s.len(),
    decreases s.len() + 1 - i,
{
    if 0 <= i < s.len() {
        let c = s[i];
        if (c == '\'' || c == '"') && token_start {
            lemma_quoted_end(s, i);
            if let Some(end) = quoted_end(s, i) {
                lemma_comment_from(s, start, end, false);
            }
        } else {
            lemma_comment_from(s, start, i + 1, true);
            lemma_comment_from(s, start, i + 1, false);
        }
    }
}

/// The index at which a `#` comment starts, or `chars.len()` if there is none.
pub fn strip_comment(chars: &[char], start: usize) -> (r: usize)
    ensures
        r == comment_from(chars@, start as int, start as int, true),
{
    let len = chars.len();
    let mut i = start;
    let mut token_start = true;
    while i < len
        invariant
            len == chars@.len(),
            start <= i,
            comment_from(chars@, start as int, i as int, token_start)
                == comment_from(chars@, start as int, start as int, true),
        decreases len - i,
    {
        let c = chars[i];
        if (c == '\'' || c == '"') && token_start {
            match scan_quoted_end(chars, i) {
                Some(end) => {
                    i = end;
                    token_start = false;
                },
                None => {
                    return len;
                },
            }
        } else if c == '#' && (i == start || chars[i - 1] == ' ' || chars[i - 1] == '\t') {
            return i;
        } else if c == ' ' || c == '\t' {
            i = i + 1;
        } else if c == '-' && token_start && (i + 1 >= len || chars[i + 1] == ' ') {
            i = i + 1;
        } else if c == ':' && (i + 1 >= len || chars[i + 1] == ' ') {
            i = i + 1;
            token_start = true;
        } else {
            i = i + 1;
            token_start = false;
        }
    }
    len
}

// --- mapping keys -----------------------------------------------------------------

/// The first `:` at or after `i` that is followed by a space or the line's end.
pub open spec fn plain_sep_from(s: Seq<char>, i: int) -> Option<int>
    decreases s.len() - i,
{
    if i < 0 || i >= s.len() {
        None
    } else if s[i] == ':' && space_or_end(s, i + 1) {
        Some(i)
    } else {
        plain_sep_from(s, i + 1)
    }
}

/// The index of the `:` that ends a mapping key starting at `from`, or `None`
/// if this is not a `key: value` line. A quoted key must be followed (after
/// spaces) by that `:`; a plain key ends at its first `: `.
pub open spec fn key_sep(s: Seq<char>, from: int) -> Option<int> {
    if 0 <= from < s.len() && (s[from] == '\'' || s[from] == '"') {
        match quoted_end(s, from) {
            None => None,
            Some(e) => {
                let j = skip_spaces(s, e);
                if 0 <= j < s.len() && s[j] == ':' && space_or_end(s, j + 1) {
                    Some(j)
                } else {
                    None
                }
            },
        }
    } else {
        plain_sep_from(s, from)
    }
}

pub proof fn lemma_plain_sep_from(s: Seq<char>, i: int)
    ensures
        plain_sep_from(s, i) matches Some(j) ==> i <= j < s.len() && s[j] == ':',
    decreases s.len() - i,
{
    if 0 <= i < s.len() {
        lemma_plain_sep_from(s, i + 1);
    }
}

pub proof fn lemma_key_sep(s: Seq<char>, from: int)
    requires
        0 <= from,
    ensures
        key_sep(s, from) matches Some(j) ==> from <= j < s.len() && s[j] == ':',
{
    lemma_plain_sep_from(s, from);
    lemma_quoted_end(s, from);
    if let Some(e) = quoted_end(s, from) {
        lemma_skip_spaces(s, e);
    }
}

/// The index of the `:` that ends a mapping key starting at `from`, or `None`
/// if this is not a `key: value` line.
pub fn find_key_sep(chars: &[char], from: usize) -> (r: Option<usize>)
    ensures
        r is Some == key_sep(chars@, from as int) is Some,
        r matches Some(j) ==> key_sep(chars@, from as int) == Some(j as int),
        r matches Some(j) ==> from <= j < chars@.len(),
{
    proof {
        lemma_key_sep(chars@, from as int);
    }
    let len = chars.len();
    if from < len && (chars[from] == '\'' || chars[from] == '"') {
        let e = match scan_quoted_end(chars, from) {
            Some(e) => e,
            None => {
                return None;
            },
        };
        let j = skip_spaces_from(chars, e);
        proof {
            lemma_skip_spaces(chars@, e as int);
        }
        if j < len && chars[j] == ':' && (j + 1 >= len || chars[j + 1] == ' ') {
            return Some(j);
        }
        return None;
    }
    let mut i = from;
    while i < len
        invariant
            len == chars@.len(),
            from <= i,
            plain_sep_from(chars@, i as int) == key_sep(chars@, from as int),
        decreases len - i,
    {
        if chars[i] == ':' && (i + 1 >= len || chars[i + 1] == ' ') {
            return Some(i);
        }
        i = i + 1;
    }
    None
}

// --- unsupported constructs ----------------------------------------------------------

proof fn lemma_rest_occurs(s: Seq<char>, from: int, lit: Seq<char>)
    requires
        0 <= from <= s.len(),
        lit.len() > 0,
    ensures
        occurs_at(s.subrange(from, s.len() as int), 0, lit) == occurs_at(s, from, lit),
        (s.subrange(from, s.len() as int) == lit) == (s.len() - from == lit.len() && occurs_at(s, from, lit)),
{
    let rest = s.subrange(from, s.len() as int);
    if from + lit.len() <= s.len() {
        assert(rest.subrange(0, lit.len() as int) == s.subrange(from, from + lit.len()));
    }
    if s.len() - from == lit.len() {
        assert(rest == s.subrange(from, from + lit.len()));
    }
}

/// The name of the unsupported YAML construct that starts at `col`, if any.
pub open spec fn unsupported_feature(s: Seq<char>, col: int) -> Option<Seq<char>> {
    let c = if 0 <= col < s.len() { Some(s[col]) } else { None };
    let rest = clamped(s, col, s.len() as int);
    if c == Some('{') {
        Some("flow mappings ({...})"@)
    } else if c == Some('[') {
        Some("flow sequences ([...])"@)
    } else if c == Some('&') {
        Some("anchors (&name)"@)
    } else if c == Some('*') {
        Some("aliases (*name)"@)
    } else if c == Some('!') {
        Some("tags (!name)"@)
    } else if c == Some('|') {
        Some("block scalars (|)"@)
    } else if c == Some('>') {
        Some("block scalars (>)"@)
    } else if c == Some('?') && space_or_end(s, col + 1) {
        Some("explicit keys (? key)"@)
    } else if c == Some('%') && col == 0 {
        Some("directives (%YAML)"@)
    } else if rest == "---"@ || occurs_at(rest, 0, "--- "@) {
        Some("multi-document streams (---)"@)
    } else if rest == "..."@ || occurs_at(rest, 0, "... "@) {
        Some("multi-document streams (...)"@)
    } else {
        None
    }
}

/// The failure reported for the unsupported `feature` at `col` of line `number`.
pub open spec fn unsupported_fault(number: int, col: int, feature: Seq<char>) -> ErrorView {
    fault(ErrorKind::UnsupportedFeature, number, col + 1, "unsupported YAML feature: "@ + feature)
}

/// The unsupported feature at `col`, if any, as an exec string.
fn feature_at(chars: &[char], col: usize) -> (r: Option<&'static str>)
    ensures
        r matches Some(f) ==> unsupported_feature(chars@, col as int) == Some(f@),
        r is None ==> unsupported_feature(chars@, col as int) is None,
        r is Some ==> col < chars@.len(),
{
    let len = chars.len();
    let ghost rest = clamped(chars@, col as int, len as int);
    if col < len {
        let c = chars[col];
        if c == '{' {
            return Some("flow mappings ({...})");
        } else if c == '[' {
            return Some("flow sequences ([...])");
        } else if c == '&' {
            return Some("anchors (&name)");
        } else if c == '*' {
            return Some("aliases (*name)");
        } else if c == '!' {
            return Some("tags (!name)");
        } else if c == '|' {
            return Some("block scalars (|)");
        } else if c == '>' {
            return Some("block scalars (>)");
        } else if c == '?' && (col + 1 >= len || chars[col + 1] == ' ') {
            return Some("explicit keys (? key)");
        } else if c == '%' && col == 0 {
            return Some("directives (%YAML)");
        }
    }
    let from = if col < len { col } else { len };
    proof {
        reveal_strlit("---");
        reveal_strlit("--- ");
        reveal_strlit("...");
        reveal_strlit("... ");
        assert(rest == chars@.subrange(from as int, len as int));
        lemma_rest_occurs(chars@, from as int, "---"@);
        lemma_rest_occurs(chars@, from as int, "--- "@);
        lemma_rest_occurs(chars@, from as int, "..."@);
        lemma_rest_occurs(chars@, from as int, "... "@);
    }
    let three = len - from == 3;
    if (three && matches_at(chars, from, "---")) || matches_at(chars, from, "--- ") {
        return Some("multi-document streams (---)");
    }
    if (three && matches_at(chars, from, "...")) || matches_at(chars, from, "... ") {
        return Some("multi-document streams (...)");
    }
    None
}

/// Reject the constructs this reader deliberately does not support, before any
/// attempt is made to read them as something else.
pub fn check_unsupported(file: &Path, number: usize, chars: &[char], col: usize) -> (r: Result<(), ParseError>)
    ensures
        match unsupported_feature(chars@, col as int) {
            Some(f) => r matches Err(e) && e@ == unsupported_fault(number as int, col as int, f)
                && e.file == owned_path(file),
            None => r is Ok,
        },
{
    let len = chars.len();
    match feature_at(chars, col) {
        Some(feature) => {
            let mut msg = chars_of("unsupported YAML feature: ");
            push_str(&mut msg, feature);
            Err(err(file, ErrorKind::UnsupportedFeature, number, col + 1, string_of(msg.as_slice())))
        },
        None => Ok(()),
    }
}

// --- the line pre-pass ----------------------------------------------------------------

/// The text between consecutive line feeds: `t` split on `'\n'`. There is
/// always at least one piece (the empty text is one empty line).
pub open spec fn split_lines(t: Seq<char>) -> Seq<Seq<char>>
    decreases t.len(),
{
    if t.len() == 0 {
        seq![Seq::<char>::empty()]
    } else {
        let rest = split_lines(t.drop_first());
        if t[0] == '\n' {
            seq![Seq::<char>::empty()] + rest
        } else {
            rest.update(0, seq![t[0]] + rest[0])
        }
    }
}

/// `pieces` with `p` put in front of the first piece.
pub open spec fn prefix_first(p: Seq<char>, pieces: Seq<Seq<char>>) -> Seq<Seq<char>> {
    pieces.update(0, p + pieces[0])
}

pub proof fn lemma_split_lines_len(t: Seq<char>)
    ensures
        split_lines(t).len() >= 1,
    decreases t.len(),
{
    if t.len() > 0 {
        lemma_split_lines_len(t.drop_first());
    }
}

/// A physical line after the byte-order mark (first line only) and a trailing
/// carriage return are removed.
pub open spec fn cleaned(raw: Seq<char>, number: int) -> Seq<char> {
    let r = if number == 1 && raw.len() > 0 && raw[0] == '\u{feff}' { raw.drop_first() } else { raw };
    if r.len() > 0 && r.last() == '\r' { r.drop_last() } else { r }
}

/// `end` moved back over spaces and tabs, but not below `floor`.
pub open spec fn trailing_blanks_from(s: Seq<char>, end: int, floor: int) -> int
    decreases end - floor,
{
    if floor < end <= s.len() && (s[end - 1] == ' ' || s[end - 1] == '\t') {
        trailing_blanks_from(s, end - 1, floor)
    } else {
        end
    }
}

/// What the pre-pass makes of one physical line.
pub enum LineScan {
    /// Blank, or nothing but a comment.
    Skip,
    /// A significant line.
    Keep(LineView),
    /// A tab in the indentation, at this 1-based column.
    Tab(int),
}

/// What the pre-pass makes of the physical line `raw`, numbered `number`.
pub open spec fn scan_line(raw: Seq<char>, number: int) -> LineScan {
    let r = cleaned(raw, number);
    if all_white(r) {
        LineScan::Skip
    } else {
        let ind = skip_spaces(r, 0);
        if ind < r.len() && r[ind] == '\t' {
            LineScan::Tab(ind + 1)
        } else if ind < r.len() && r[ind] == '#' {
            LineScan::Skip
        } else {
            let end = trailing_blanks_from(r, comment_from(r, ind, ind, true), ind);
            if end <= ind {
                LineScan::Skip
            } else {
                LineScan::Keep(LineView { number, indent: ind, chars: r.take(end) })
            }
        }
    }
}

/// The failure for a tab in the indentation of line `number`.
pub open spec fn tab_fault(number: int, col: int) -> ErrorView {
    fault(ErrorKind::Indentation, number, col, "tab character in indentation: indent with spaces"@)
}

/// `a` put in front of a successful result.
pub open spec fn prepend<A, E>(a: Seq<A>, r: Result<Seq<A>, E>) -> Result<Seq<A>, E> {
    match r {
        Ok(x) => Ok(a + x),
        Err(e) => Err(e),
    }
}

/// The significant lines among `pieces[k..]` (numbered from 1 at `pieces[0]`),
/// or the first tab in an indentation.
pub open spec fn scan_pieces(pieces: Seq<Seq<char>>, k: int) -> Result<Seq<LineView>, ErrorView>
    decreases pieces.len() - k,
{
    if k < 0 || k >= pieces.len() {
        Ok(Seq::empty())
    } else {
        match scan_line(pieces[k], k + 1) {
            LineScan::Tab(col) => Err(tab_fault(k + 1, col)),
            LineScan::Skip => scan_pieces(pieces, k + 1),
            LineScan::Keep(l) => prepend(seq![l], scan_pieces(pieces, k + 1)),
        }
    }
}

/// The significant lines of a text, or the first tab in an indentation.
pub open spec fn scan_text(t: Seq<char>) -> Result<Seq<LineView>, ErrorView> {
    scan_pieces(split_lines(t), 0)
}

/// The views of a list of lines.
pub open spec fn lines_view(v: Seq<Line>) -> Seq<LineView> {
    v.map_values(|l: Line| l@)
}

pub proof fn lemma_trailing_blanks(s: Seq<char>, end: int, floor: int)
    requires
        0 <= floor,
        end <= s.len(),
    ensures
        trailing_blanks_from(s, end, floor) <= end,
        end > floor ==> trailing_blanks_from(s, end, floor) >= floor,
    decreases end - floor,
{
    if floor < end <= s.len() && (s[end - 1] == ' ' || s[end - 1] == '\t') {
        lemma_trailing_blanks(s, end - 1, floor);
    }
}

/// The pre-pass over one physical line.
fn scan_piece(file: &Path, piece: Vec<char>, number: usize) -> (r: Result<Option<Line>, ParseError>)
    ensures
        match scan_line(piece@, number as int) {
            LineScan::Skip => r matches Ok(None),
            LineScan::Keep(l) => r matches Ok(Some(line)) && line@ == l,
            LineScan::Tab(col) => r matches Err(e) && e@ == tab_fault(number as int, col)
                && e.file == owned_path(file),
        },
{
    let mut chars = piece;
    if number == 1 && chars.len() > 0 && chars[0] == '\u{feff}' {
        chars.remove(0);
        assert(chars@ == piece@.drop_first());
    }
    let ghost r1 = chars@;
    if chars.len() > 0 && chars[chars.len() - 1] == '\r' {
        chars.pop();
        assert(chars@ == r1.drop_last());
    }
    let ghost r = chars@;
    assert(r == cleaned(piece@, number as int));
    if is_blank(chars.as_slice()) {
        return Ok(None);
    }
    let len = chars.len();
    let indent = skip_spaces_from(chars.as_slice(), 0);
    proof {
        lemma_skip_spaces(r, 0);
    }
    if indent < len && chars[indent] == '\t' {
        let msg = string_of(chars_of("tab character in indentation: indent with spaces").as_slice());
        return Err(err(file, ErrorKind::Indentation, number, indent + 1, msg));
    }
    if indent < len && chars[indent] == '#' {
        return Ok(None);
    }
    let c0 = strip_comment(chars.as_slice(), indent);
    proof {
        lemma_comment_from(r, indent as int, indent as int, true);
    }
    let mut end = c0;
    while end > indent && (chars[end - 1] == ' ' || chars[end - 1] == '\t')
        invariant
            chars@ == r,
            end <= c0 <= r.len(),
            trailing_blanks_from(r, end as int, indent as int) == trailing_blanks_from(r, c0 as int, indent as int),
        decreases end,
    {
        end = end - 1;
    }
    if end <= indent {
        return Ok(None);
    }
    chars.truncate(end);
    assert(chars@ == r.take(end as int));
    Ok(Some(Line { number, indent, chars }))
}

/// Split `text` into its significant lines. Blank and comment-only lines are
/// dropped without renumbering the rest; a tab in an indentation is refused.
pub fn scan_lines(text: &str, file: &Path) -> (r: Result<Vec<Line>, ParseError>)
    ensures
        match scan_text(text@) {
            Ok(ls) => r matches Ok(v) && lines_view(v@) == ls,
            Err(e) => r matches Err(x) && x@ == e && x.file == owned_path(file),
        },
{
    let t = chars_of(text);
    let n = t.len();
    let ghost pieces = split_lines(t@);
    proof {
        lemma_split_lines_len(t@);
        assert(t@.skip(0) == t@);
        assert(pieces.subrange(0, pieces.len() as int) == pieces);
        let p0 = pieces[0];
        assert(Seq::<char>::empty() + p0 == p0);
        assert(prefix_first(Seq::<char>::empty(), pieces) == pieces);
        assert(lines_view(Seq::<Line>::empty()) == Seq::<LineView>::empty());
        assert(prepend(Seq::<LineView>::empty(), scan_pieces(pieces, 0)) == scan_pieces(pieces, 0)) by {
            if let Ok(x) = scan_pieces(pieces, 0) {
                assert(Seq::<LineView>::empty() + x == x);
            }
        }
    }
    let mut out: Vec<Line> = Vec::new();
    let mut cur: Vec<char> = Vec::new();
    let mut k: usize = 0;
    let mut i: usize = 0;
    while i < n
        invariant
            t@ == text@,
            n == t@.len(),
            i <= n,
            k + cur@.len() <= i,
            pieces == split_lines(t@),
            k < pieces.len(),
            pieces.subrange(k as int, pieces.len() as int) == prefix_first(cur@, split_lines(t@.skip(i as int))),
            scan_text(t@) == prepend(lines_view(out@), scan_pieces(pieces, k as int)),
        decreases n - i,
    {
        let c = t[i];
        let ghost rest = split_lines(t@.skip(i + 1));
        proof {
            lemma_split_lines_len(t@.skip(i + 1));
            assert(t@.skip(i as int).drop_first() == t@.skip(i + 1));
            assert(t@.skip(i as int)[0] == c);
        }
        if c == '\n' {
            proof {
                assert(split_lines(t@.skip(i as int)) == seq![Seq::<char>::empty()] + rest);
                assert(cur@ + Seq::<char>::empty() == cur@);
                assert(prefix_first(cur@, seq![Seq::<char>::empty()] + rest) == seq![cur@] + rest);
                assert(pieces[k as int] == pieces.subrange(k as int, pieces.len() as int)[0]);
                assert(pieces.subrange(k + 1, pieces.len() as int) == pieces.subrange(k as int, pieces.len() as int).drop_first());
                let r0 = rest[0];
                assert(Seq::<char>::empty() + r0 == r0);
                assert(prefix_first(Seq::<char>::empty(), rest) == rest);
            }
            let piece = cur;
            cur = Vec::new();
            match scan_piece(file, piece, k + 1) {
                Err(e) => {
                    return Err(e);
                },
                Ok(None) => {},
                Ok(Some(line)) => {
                    let ghost before = out@;
                    out.push(line);
                    proof {
                        assert(lines_view(out@) == lines_view(before) + seq![line@]);
                        if let Ok(x) = scan_pieces(pieces, k + 1) {
                            assert(lines_view(before) + (seq![line@] + x) == (lines_view(before) + seq![line@]) + x);
                        }
                    }
                },
            }
            k = k + 1;
        } else {
            proof {
                assert(split_lines(t@.skip(i as int)) == rest.update(0, seq![c] + rest[0]));
                assert(cur@ + (seq![c] + rest[0]) == cur@.push(c) + rest[0]);
                assert(prefix_first(cur@, rest.update(0, seq![c] + rest[0])) == prefix_first(cur@.push(c), rest));
            }
            cur.push(c);
        }
        i = i + 1;
    }
    proof {
        assert(t@.skip(n as int) == Seq::<char>::empty());
        assert(cur@ + Seq::<char>::empty() == cur@);
        assert(pieces.subrange(k as int, pieces.len() as int) == seq![cur@]);
        assert(pieces[k as int] == pieces.subrange(k as int, pieces.len() as int)[0]);
        assert(pieces.len() == k + 1);
        assert(scan_pieces(pieces, k + 1) == Ok::<Seq<LineView>, ErrorView>(Seq::empty()));
    }
    if cur.len() == 0 {
        proof {
            assert(cur@ == Seq::<char>::empty());
            assert(cleaned(cur@, k + 1) == cur@);
            assert(scan_line(cur@, k + 1) == LineScan::Skip);
            assert(lines_view(out@) + Seq::<LineView>::empty() == lines_view(out@));
        }
        return Ok(out);
    }
    match scan_piece(file, cur, k + 1) {
        Err(e) => {
            return Err(e);
        },
        Ok(None) => {
            assert(lines_view(out@) + Seq::<LineView>::empty() == lines_view(out@));
        },
        Ok(Some(line)) => {
            let ghost before = out@;
            out.push(line);
            assert(lines_view(out@) == lines_view(before) + seq![line@]);
            assert(lines_view(before) + (seq![line@] + Seq::<LineView>::empty()) == lines_view(out@));
        },
    }
    Ok(out)
}

/// No piece of a text is longer than the text.
pub proof fn lemma_split_lines_pieces(t: Seq<char>)
    ensures
        forall|k: int| 0 <= k < split_lines(t).len() ==> (#[trigger] split_lines(t)[k]).len() <= t.len(),
    decreases t.len(),
{
    lemma_split_lines_len(t);
    if t.len() > 0 {
        lemma_split_lines_pieces(t.drop_first());
        lemma_split_lines_len(t.drop_first());
        let rest = split_lines(t.drop_first());
        if t[0] == '\n' {
            assert forall|k: int| 0 <= k < split_lines(t).len() implies (#[trigger] split_lines(t)[k]).len() <= t.len() by {
                if k > 0 {
                    assert(split_lines(t)[k] == rest[k - 1]);
                }
            }
        } else {
            assert forall|k: int| 0 <= k < split_lines(t).len() implies (#[trigger] split_lines(t)[k]).len() <= t.len() by {
                if k > 0 {
                    assert(split_lines(t)[k] == rest[k]);
                }
            }
        }
    }
}

/// Each significant line keeps its physical number and has content after its
/// indentation.
pub proof fn lemma_scan_line(raw: Seq<char>, number: int)
    ensures
        scan_line(raw, number) matches LineScan::Keep(l) ==> l.number == number && 0 <= l.indent < l.chars.len()
            && l.chars.len() <= raw.len(),
        scan_line(raw, number) matches LineScan::Tab(col) ==> col >= 1,
{
    let r = cleaned(raw, number);
    if !all_white(r) {
        let ind = skip_spaces(r, 0);
        lemma_skip_spaces(r, 0);
        lemma_comment_from(r, ind, ind, true);
        let c = comment_from(r, ind, ind, true);
        lemma_trailing_blanks(r, c, ind);
    }
}

/// The significant lines of `pieces[k..]` have content after their
/// indentation, and physical numbers that rise strictly, from `k + 1` to at
/// most the number of pieces.
pub proof fn lemma_scan_pieces(pieces: Seq<Seq<char>>, k: int)
    requires
        0 <= k,
    ensures
        scan_pieces(pieces, k) matches Ok(ls) ==> {
            &&& forall|j: int| 0 <= j < ls.len() ==> 0 <= (#[trigger] ls[j]).indent < ls[j].chars.len()
            &&& forall|j: int| 0 <= j < ls.len() ==> k + 1 <= (#[trigger] ls[j]).number <= pieces.len()
            &&& forall|a: int, b: int| 0 <= a < b < ls.len() ==> (#[trigger] ls[a]).number < (#[trigger] ls[b]).number
            &&& forall|j: int| 0 <= j < ls.len() ==> scan_line(pieces[(#[trigger] ls[j]).number - 1], ls[j].number)
                == LineScan::Keep(ls[j])
            &&& forall|j: int| 0 <= j < ls.len() ==> (#[trigger] ls[j]).chars.len() <= pieces[ls[j].number - 1].len()
        },
        scan_pieces(pieces, k) matches Err(f) ==> k + 1 <= f.line <= pieces.len() && f.col >= 1 && f.kind
            == ErrorKind::Indentation,
    decreases pieces.len() - k,
{
    if k < pieces.len() {
        lemma_scan_pieces(pieces, k + 1);
        lemma_scan_line(pieces[k], k + 1);
        if let LineScan::Keep(l) = scan_line(pieces[k], k + 1) {
            if let Ok(rest) = scan_pieces(pieces, k + 1) {
                let ls = seq![l] + rest;
                assert forall|j: int| 0 <= j < ls.len() implies 0 <= (#[trigger] ls[j]).indent < ls[j].chars.len() && k + 1
                    <= ls[j].number <= pieces.len() && scan_line(pieces[ls[j].number - 1], ls[j].number)
                    == LineScan::Keep(ls[j]) && ls[j].chars.len() <= pieces[ls[j].number - 1].len() by {
                    if j > 0 {
                        assert(ls[j] == rest[j - 1]);
                    }
                }
                assert forall|a: int, b: int| 0 <= a < b < ls.len() implies (#[trigger] ls[a]).number < (
                #[trigger] ls[b]).number by {
                    assert(ls[b] == rest[b - 1]);
                    if a > 0 {
                        assert(ls[a] == rest[a - 1]);
                    }
                }
            }
        }
    }
}

} // verus!
