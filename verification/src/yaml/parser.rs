//! The recursive descent over significant lines.
//!
//! The cursor is a line plus a column within it. Because indentation is spaces
//! only, that column is the effective indent of whatever starts there: after
//! the dash of `- name: CustomerKey` is consumed the cursor sits at column 4,
//! and the mapping it opens continues on later lines indented to column 4.

use std::path::Path;
use vstd::prelude::*;

use super::error::{eof, eof_fault, err, fault, ErrorKind, ErrorView, ParseError};
use super::scalar::{decode_quoted, decoded, infer_scalar, typed_scalar};
use super::scan::{
    check_unsupported, clamped, find_key_sep, key_sep, lemma_key_sep, lemma_skip_spaces, lines_view,
    skip_spaces, skip_spaces_from, space_or_end, unsupported_fault, unsupported_feature, Line, LineView,
};
use super::text::{chars_of, decimal, owned_path, push_decimal, push_str, string_of, text_of, trim_end, trimmed};
use super::tree::{
    entries_view, entry_index, first_named, items_view, lemma_entries_push, lemma_items_push, Key,
    KeyView, Node, NodeView, Value, ValueView,
};

verus! {

// --- the cursor, in the abstract --------------------------------------------------------

/// Every line is short enough for its columns to be `usize`s.
pub open spec fn lines_fit(ls: Seq<LineView>) -> bool {
    forall|k: int| 0 <= k < ls.len() ==> (#[trigger] ls[k]).chars.len() <= usize::MAX
}

pub proof fn lemma_lines_fit(lines: Seq<Line>)
    ensures
        lines_fit(lines_view(lines)),
{
    assert forall|k: int| 0 <= k < lines_view(lines).len() implies (#[trigger] lines_view(lines)[k]).chars.len()
        <= usize::MAX by {
        assert(lines_view(lines)[k].chars == lines[k].chars@);
        assert(lines[k].chars.len() == lines[k].chars@.len());
    }
}

/// The physical number of line `idx`, or 0 past the last line.
pub open spec fn number_at(ls: Seq<LineView>, idx: int) -> int {
    if 0 <= idx < ls.len() {
        ls[idx].number
    } else {
        0
    }
}

/// The column the cursor lands on when it moves to line `idx`.
pub open spec fn indent_at(ls: Seq<LineView>, idx: int) -> int {
    if 0 <= idx < ls.len() {
        ls[idx].indent
    } else {
        0
    }
}

/// A `-` indicator at the cursor: a dash followed by a space or by the end of
/// the line. `-5` is a scalar, not a sequence item.
pub open spec fn dash_at(ls: Seq<LineView>, idx: int, col: int) -> bool {
    &&& 0 <= idx < ls.len()
    &&& 0 <= col < ls[idx].chars.len()
    &&& ls[idx].chars[col] == '-'
    &&& space_or_end(ls[idx].chars, col + 1)
}

/// The failure for an unsupported construct at the cursor, if there is one.
pub open spec fn unsupported_at(ls: Seq<LineView>, idx: int, col: int) -> Option<ErrorView> {
    if 0 <= idx < ls.len() {
        match unsupported_feature(ls[idx].chars, col) {
            Some(f) => Some(unsupported_fault(ls[idx].number, col, f)),
            None => None,
        }
    } else {
        None
    }
}

/// The failure for a line indented `col` spaces inside a block indented
/// `expected`.
pub open spec fn indentation_fault(number: int, col: int, expected: int) -> ErrorView {
    fault(
        ErrorKind::Indentation,
        number,
        col + 1,
        "inconsistent indentation: this line is indented "@ + decimal(col as nat) + " spaces, but its block is indented "@
            + decimal(expected as nat),
    )
}

/// The cursor moved forward from `(idx, col)` to `(i2, c2)`, staying in bounds.
pub open spec fn moved_on(ls: Seq<LineView>, idx: int, col: int, i2: int, c2: int) -> bool {
    (idx < i2 <= ls.len()) || (idx == i2 && col < c2 <= usize::MAX)
}

/// A failure of the `Syntax` kind.
pub open spec fn syntax_fault(number: int, col: int, message: Seq<char>) -> ErrorView {
    fault(ErrorKind::Syntax, number, col, message)
}

/// The failure for a key that is already in its mapping, first on `first_line`.
pub open spec fn duplicate_fault(key: KeyView, first_line: int) -> ErrorView {
    fault(
        ErrorKind::DuplicateKey,
        key.line,
        key.col,
        "duplicate mapping key '"@ + key.name + "': first defined on line "@ + decimal(first_line as nat),
    )
}

// --- keys and inline values ----------------------------------------------------------------

/// Reading the mapping key at the cursor: the key, and the column of its value
/// (just past the `:` and any spaces).
pub open spec fn key_at(ls: Seq<LineView>, idx: int, col: int) -> Result<(KeyView, int), ErrorView> {
    if !(0 <= idx < ls.len()) {
        Err(eof_fault())
    } else {
        let s = ls[idx].chars;
        let number = ls[idx].number;
        match key_sep(s, col) {
            None => Err(syntax_fault(number, col + 1, "expected ':' after a mapping key"@)),
            Some(sep) => {
                let name: Result<Seq<char>, ErrorView> = if 0 <= col < s.len() && (s[col] == '\'' || s[col]
                    == '"') {
                    match decoded(s, number, col) {
                        Ok((text, _)) => Ok(text),
                        Err(f) => Err(f),
                    }
                } else {
                    Ok(trim_end(clamped(s, col, sep)))
                };
                match name {
                    Err(f) => Err(f),
                    Ok(name) => if name.len() == 0 {
                        Err(syntax_fault(number, col + 1, "mapping key is empty"@))
                    } else {
                        Ok((KeyView { name, line: number, col: col + 1 }, skip_spaces(s, sep + 1)))
                    },
                }
            },
        }
    }
}

/// The scalar occupying the rest of the line from the cursor. Quoted scalars
/// are strings; plain ones are typed by [`typed_scalar`].
pub open spec fn inline_at(ls: Seq<LineView>, idx: int, col: int) -> Result<NodeView, ErrorView> {
    if !(0 <= idx < ls.len()) {
        Err(eof_fault())
    } else {
        let s = ls[idx].chars;
        let number = ls[idx].number;
        match unsupported_feature(s, col) {
            Some(f) => Err(unsupported_fault(number, col, f)),
            None => if 0 <= col < s.len() && s[col] == '-' && space_or_end(s, col + 1) {
                Err(
                    syntax_fault(number, col + 1, "a block sequence cannot start on the same line as its key"@),
                )
            } else if 0 <= col < s.len() && (s[col] == '\'' || s[col] == '"') {
                match decoded(s, number, col) {
                    Err(f) => Err(f),
                    Ok((text, end)) => {
                        let after = skip_spaces(s, end);
                        if after < s.len() {
                            Err(syntax_fault(number, after + 1, "unexpected text after a quoted scalar"@))
                        } else {
                            Ok(NodeView { line: number, value: ValueView::Str(text) })
                        }
                    },
                }
            } else {
                Ok(NodeView { line: number, value: typed_scalar(trim_end(clamped(s, col, s.len() as int))) })
            },
        }
    }
}

// --- the recursive descent -------------------------------------------------------------------

/// Reading the block that starts at the cursor, at column `indent`: the node,
/// and where the cursor is left.
pub open spec fn block_at(ls: Seq<LineView>, idx: int, col: int, indent: int) -> Result<
    (NodeView, int, int),
    ErrorView,
>
    decreases ls.len() - idx, usize::MAX - col, 2int,
    when lines_fit(ls)
{
    match unsupported_at(ls, idx, col) {
        Some(f) => Err(f),
        None => if dash_at(ls, idx, col) {
            match seq_loop(ls, idx, col, indent, Seq::empty()) {
                Ok((items, i, c)) => Ok((NodeView { line: number_at(ls, idx), value: ValueView::Sequence(items) }, i, c)),
                Err(f) => Err(f),
            }
        } else if !(0 <= idx < ls.len()) {
            Err(eof_fault())
        } else if key_sep(ls[idx].chars, col) is Some {
            match map_loop(ls, idx, col, indent, Seq::empty()) {
                Ok((entries, i, c)) => Ok(
                    (NodeView { line: number_at(ls, idx), value: ValueView::Mapping(entries) }, i, c),
                ),
                Err(f) => Err(f),
            }
        } else {
            match inline_at(ls, idx, col) {
                Ok(n) => Ok((n, idx + 1, indent_at(ls, idx + 1))),
                Err(f) => Err(f),
            }
        },
    }
}

/// Reading the entries of a mapping indented `indent`, from the cursor on,
/// after `entries`: all entries, and where the cursor is left.
pub open spec fn map_loop(
    ls: Seq<LineView>,
    idx: int,
    col: int,
    indent: int,
    entries: Seq<(KeyView, NodeView)>,
) -> Result<(Seq<(KeyView, NodeView)>, int, int), ErrorView>
    decreases ls.len() - idx, usize::MAX - col, 1int,
    when lines_fit(ls)
{
    if !(0 <= idx < ls.len()) || col < indent {
        Ok((entries, idx, col))
    } else if col > indent {
        Err(indentation_fault(ls[idx].number, col, indent))
    } else {
        let number = ls[idx].number;
        match unsupported_at(ls, idx, col) {
            Some(f) => Err(f),
            None => if dash_at(ls, idx, col) {
                Err(syntax_fault(number, col + 1, "expected a mapping key, found a sequence item"@))
            } else {
                match key_at(ls, idx, col) {
                    Err(f) => Err(f),
                    Ok((key, c2)) => match first_named(entries, key.name) {
                        Some(j) => Err(duplicate_fault(key, entries[j].0.line)),
                        None => {
                            proof {
                                lemma_key_at(ls, idx, col);
                            }
                            match value_at(ls, idx, c2, key, indent) {
                                Err(f) => Err(f),
                                Ok((v, i3, c3)) => if moved_on(ls, idx, col, i3, c3) {
                                    map_loop(ls, i3, c3, indent, entries.push((key, v)))
                                } else {
                                    Err(syntax_fault(number, c3 + 1, "could not make progress parsing this mapping"@))
                                },
                            }
                        },
                    },
                }
            },
        }
    }
}

/// Reading the value of a mapping entry whose key ends at the cursor: the rest
/// of the key's line if there is any, otherwise the block indented under it (or
/// a block sequence at the key's own indent), otherwise null.
pub open spec fn value_at(ls: Seq<LineView>, idx: int, col: int, key: KeyView, indent: int) -> Result<
    (NodeView, int, int),
    ErrorView,
>
    decreases ls.len() - idx, usize::MAX - col, 0int,
    when lines_fit(ls)
{
    if 0 <= idx < ls.len() && col < ls[idx].chars.len() {
        match inline_at(ls, idx, col) {
            Ok(n) => Ok((n, idx + 1, indent_at(ls, idx + 1))),
            Err(f) => Err(f),
        }
    } else {
        let i2 = idx + 1;
        let c2 = indent_at(ls, i2);
        if 0 <= i2 < ls.len() && c2 > indent {
            block_at(ls, i2, c2, c2)
        } else if 0 <= i2 < ls.len() && c2 == indent && dash_at(ls, i2, c2) {
            block_at(ls, i2, c2, c2)
        } else {
            Ok((NodeView { line: key.line, value: ValueView::Null }, i2, c2))
        }
    }
}

/// Reading the items of a sequence indented `indent`, from the cursor on,
/// after `items`: all items, and where the cursor is left. A bare `-` holds the
/// block indented under the dash, or null.
pub open spec fn seq_loop(ls: Seq<LineView>, idx: int, col: int, indent: int, items: Seq<NodeView>) -> Result<
    (Seq<NodeView>, int, int),
    ErrorView,
>
    decreases ls.len() - idx, usize::MAX - col, 1int,
    when lines_fit(ls)
{
    if !(0 <= idx < ls.len()) || col < indent {
        Ok((items, idx, col))
    } else if col > indent {
        Err(indentation_fault(ls[idx].number, col, indent))
    } else {
        let number = ls[idx].number;
        match unsupported_at(ls, idx, col) {
            Some(f) => Err(f),
            None => if !dash_at(ls, idx, col) {
                Ok((items, idx, col))
            } else {
                let s = ls[idx].chars;
                let c1 = skip_spaces(s, col + 1);
                proof {
                    lemma_skip_spaces(s, col + 1);
                }
                let item = if c1 >= s.len() {
                    let i2 = idx + 1;
                    let c2 = indent_at(ls, i2);
                    if 0 <= i2 < ls.len() && c2 > col {
                        block_at(ls, i2, c2, c2)
                    } else {
                        Ok((NodeView { line: number, value: ValueView::Null }, i2, c2))
                    }
                } else {
                    block_at(ls, idx, c1, c1)
                };
                match item {
                    Err(f) => Err(f),
                    Ok((n, i3, c3)) => if moved_on(ls, idx, col, i3, c3) {
                        seq_loop(ls, i3, c3, indent, items.push(n))
                    } else {
                        Err(syntax_fault(number, c3 + 1, "could not make progress parsing this sequence"@))
                    },
                }
            },
        }
    }
}

pub proof fn lemma_key_at(ls: Seq<LineView>, idx: int, col: int)
    requires
        lines_fit(ls),
        0 <= col,
    ensures
        key_at(ls, idx, col) matches Ok((_, c2)) ==> col < c2 <= ls[idx].chars.len() && c2 <= usize::MAX,
{
    if 0 <= idx < ls.len() {
        let s = ls[idx].chars;
        lemma_key_sep(s, col);
        if let Some(sep) = key_sep(s, col) {
            lemma_skip_spaces(s, sep + 1);
        }
    }
}

/// The failure for a document whose last block ends before a line that lines
/// up with no open block.
pub open spec fn stray_fault(number: int, col: int) -> ErrorView {
    fault(
        ErrorKind::Indentation,
        number,
        col + 1,
        "inconsistent indentation: this line is indented "@ + decimal(col as nat)
            + " spaces, which lines up with no open block"@,
    )
}

/// The tree of a document made of the significant lines `ls`. A document with
/// no significant line is null, at line 1.
pub open spec fn document(ls: Seq<LineView>) -> Result<NodeView, ErrorView> {
    if ls.len() == 0 {
        Ok(NodeView { line: 1, value: ValueView::Null })
    } else {
        let indent = ls[0].indent;
        match block_at(ls, 0, indent, indent) {
            Err(f) => Err(f),
            Ok((n, i, c)) => if 0 <= i < ls.len() {
                Err(stray_fault(ls[i].number, c))
            } else {
                Ok(n)
            },
        }
    }
}

// --- the parser --------------------------------------------------------------------------------

/// Every significant line has content after its indentation, and is short
/// enough for its columns to be `usize`s.
pub open spec fn lines_ok(ls: Seq<LineView>) -> bool {
    &&& lines_fit(ls)
    &&& forall|k: int| 0 <= k < ls.len() ==> 0 <= (#[trigger] ls[k]).indent < ls[k].chars.len()
}

/// The cursor at `(i2, c2)` is not behind `(idx, col)`.
pub open spec fn not_behind(idx: int, col: int, i2: int, c2: int) -> bool {
    idx < i2 || (idx == i2 && col <= c2)
}

/// The failure for `key`, already in its mapping on `first_line`.
fn duplicate_error(file: &Path, key: &Key, first_line: usize) -> (e: ParseError)
    ensures
        e@ == duplicate_fault(key@, first_line as int),
        e.file == owned_path(file),
{
    let mut msg = chars_of("duplicate mapping key '");
    push_str(&mut msg, key.name.as_str());
    push_str(&mut msg, "': first defined on line ");
    push_decimal(&mut msg, first_line);
    err(file, ErrorKind::DuplicateKey, key.line, key.col, string_of(msg.as_slice()))
}

/// A recursive-descent reader over the significant lines of one file.
pub struct Parser<'a> {
    pub file: &'a Path,
    pub lines: Vec<Line>,
    pub idx: usize,
    pub col: usize,
}

impl<'a> Parser<'a> {
    /// The lines, in the abstract.
    pub open spec fn ls(&self) -> Seq<LineView> {
        lines_view(self.lines@)
    }

    /// The lines are well formed, and the column leaves room for a 1-based one.
    pub open spec fn wf(&self) -> bool {
        lines_ok(self.ls()) && self.col < usize::MAX
    }

    /// The cursor is on a line or just past the last one.
    pub open spec fn in_lines(&self) -> bool {
        self.idx <= self.lines@.len()
    }

    /// The physical number of the cursor's line, or 0 past the last line.
    pub fn line_number(&self) -> (r: usize)
        ensures
            r == number_at(self.ls(), self.idx as int),
    {
        if self.idx < self.lines.len() {
            self.lines[self.idx].number
        } else {
            0
        }
    }

    /// Moves the cursor to the start of the content of the next line.
    pub fn advance_line(&mut self)
        requires
            old(self).idx < usize::MAX,
        ensures
            final(self).lines == old(self).lines,
            final(self).file == old(self).file,
            final(self).idx == old(self).idx + 1,
            final(self).col == indent_at(old(self).ls(), old(self).idx + 1),
    {
        self.idx = self.idx + 1;
        self.col = if self.idx < self.lines.len() {
            self.lines[self.idx].indent
        } else {
            0
        };
    }

    /// A `-` indicator at the cursor.
    pub fn at_dash(&self) -> (r: bool)
        ensures
            r == dash_at(self.ls(), self.idx as int, self.col as int),
    {
        if self.idx < self.lines.len() {
            let chars = self.lines[self.idx].chars.as_slice();
            self.col < chars.len() && chars[self.col] == '-' && (self.col + 1 >= chars.len() || chars[self.col
                + 1] == ' ')
        } else {
            false
        }
    }

    /// Fails on an unsupported construct at the cursor.
    pub fn reject_unsupported(&self) -> (r: Result<(), ParseError>)
        ensures
            match unsupported_at(self.ls(), self.idx as int, self.col as int) {
                Some(f) => r matches Err(e) && e@ == f && e.file == owned_path(self.file),
                None => r is Ok,
            },
    {
        if self.idx < self.lines.len() {
            let l = &self.lines[self.idx];
            check_unsupported(self.file, l.number, l.chars.as_slice(), self.col)
        } else {
            Ok(())
        }
    }

    /// The failure for the cursor's line, indented `self.col` spaces, inside a
    /// block indented `expected`.
    pub fn indentation_error(&self, number: usize, expected: usize) -> (e: ParseError)
        requires
            self.col < usize::MAX,
        ensures
            e@ == indentation_fault(number as int, self.col as int, expected as int),
            e.file == owned_path(self.file),
    {
        let mut msg = chars_of("inconsistent indentation: this line is indented ");
        push_decimal(&mut msg, self.col);
        push_str(&mut msg, " spaces, but its block is indented ");
        push_decimal(&mut msg, expected);
        err(self.file, ErrorKind::Indentation, number, self.col + 1, string_of(msg.as_slice()))
    }

    /// Read the key at the cursor and leave the cursor on its value.
    pub fn parse_key(&mut self) -> (r: Result<Key, ParseError>)
        requires
            old(self).col < usize::MAX,
        ensures
            final(self).lines == old(self).lines,
            final(self).file == old(self).file,
            final(self).idx == old(self).idx,
            r is Err ==> final(self).col == old(self).col,
            match key_at(old(self).ls(), old(self).idx as int, old(self).col as int) {
                Ok((k, c2)) => r matches Ok(key) && key@ == k && final(self).col == c2,
                Err(f) => r matches Err(e) && e@ == f && e.file == owned_path(old(self).file),
            },
    {
        let file = self.file;
        let col = self.col;
        if self.idx >= self.lines.len() {
            return Err(eof(file));
        }
        let ghost s = self.ls()[self.idx as int].chars;
        let line = &self.lines[self.idx];
        let chars = line.chars.as_slice();
        let number = line.number;
        let sep = match find_key_sep(chars, col) {
            Some(sep) => sep,
            None => {
                return Err(err(file, ErrorKind::Syntax, number, col + 1, text_of("expected ':' after a mapping key")));
            },
        };
        let name = if col < chars.len() && (chars[col] == '\'' || chars[col] == '"') {
            match decode_quoted(file, number, chars, col) {
                Ok((text, _)) => text,
                Err(e) => {
                    return Err(e);
                },
            }
        } else {
            assert(clamped(s, col as int, sep as int) == s.subrange(col as int, sep as int));
            string_of(trimmed(chars, col, sep).as_slice())
        };
        if chars_of(name.as_str()).len() == 0 {
            return Err(err(file, ErrorKind::Syntax, number, col + 1, text_of("mapping key is empty")));
        }
        let next = skip_spaces_from(chars, sep + 1);
        self.col = next;
        Ok(Key { name, line: number, col: col + 1 })
    }

    /// A scalar occupying the rest of the current line. The cursor is left
    /// where it was; the caller advances.
    pub fn parse_inline_value(&mut self) -> (r: Result<Node, ParseError>)
        ensures
            *final(self) == *old(self),
            match inline_at(old(self).ls(), old(self).idx as int, old(self).col as int) {
                Ok(n) => r matches Ok(x) && x@ == n,
                Err(f) => r matches Err(e) && e@ == f && e.file == owned_path(old(self).file),
            },
    {
        let file = self.file;
        let col = self.col;
        if self.idx >= self.lines.len() {
            return Err(eof(file));
        }
        let ghost s = self.ls()[self.idx as int].chars;
        let line = &self.lines[self.idx];
        let number = line.number;
        let chars = line.chars.as_slice();
        let len = chars.len();
        match check_unsupported(file, number, chars, col) {
            Err(e) => {
                return Err(e);
            },
            Ok(()) => {},
        }
        if col < len && chars[col] == '-' && (col + 1 >= len || chars[col + 1] == ' ') {
            return Err(
                err(
                    file,
                    ErrorKind::Syntax,
                    number,
                    col + 1,
                    text_of("a block sequence cannot start on the same line as its key"),
                ),
            );
        }
        let value = if col < len && (chars[col] == '\'' || chars[col] == '"') {
            let (text, end) = match decode_quoted(file, number, chars, col) {
                Ok(p) => p,
                Err(e) => {
                    return Err(e);
                },
            };
            let after = skip_spaces_from(chars, end);
            if after < len {
                return Err(err(file, ErrorKind::Syntax, number, after + 1, text_of("unexpected text after a quoted scalar")));
            }
            Value::Str(text)
        } else {
            let from = if col < len { col } else { len };
            assert(clamped(s, col as int, len as int) == s.subrange(from as int, len as int));
            let t = trimmed(chars, from, len);
            infer_scalar(t.as_slice())
        };
        Ok(Node { line: number, value })
    }

    /// The value of a mapping entry: the rest of the key's line if there is
    /// one, otherwise the block indented under it, otherwise null.
    pub fn parse_key_value(&mut self, key: &Key, indent: usize) -> (r: Result<Node, ParseError>)
        requires
            lines_ok(old(self).ls()),
            old(self).idx < usize::MAX,
        ensures
            final(self).lines == old(self).lines,
            final(self).file == old(self).file,
            match value_at(old(self).ls(), old(self).idx as int, old(self).col as int, key@, indent as int) {
                Ok((n, i, c)) => r matches Ok(x) && x@ == n && final(self).idx == i && final(self).col == c,
                Err(f) => r matches Err(e) && e@ == f && e.file == owned_path(old(self).file),
            },
            r is Ok ==> final(self).wf() && old(self).idx < final(self).idx,
            r is Ok && old(self).idx < old(self).lines@.len() ==> final(self).in_lines(),
        decreases old(self).lines@.len() - old(self).idx, usize::MAX - old(self).col, 0int,
    {
        let n = self.lines.len();
        let has_inline = self.idx < n && self.col < self.lines[self.idx].chars.len();
        if has_inline {
            let node = match self.parse_inline_value() {
                Ok(n) => n,
                Err(e) => {
                    return Err(e);
                },
            };
            self.advance_line();
            return Ok(node);
        }
        self.advance_line();
        if self.idx < self.lines.len() {
            if self.col > indent {
                return self.parse_block(self.col);
            }
            if self.col == indent && self.at_dash() {
                return self.parse_block(self.col);
            }
        }
        Ok(Node { line: key.line, value: Value::Null })
    }

    /// Parse whatever block starts at the cursor, at column `indent`.
    pub fn parse_block(&mut self, indent: usize) -> (r: Result<Node, ParseError>)
        requires
            old(self).wf(),
        ensures
            final(self).lines == old(self).lines,
            final(self).file == old(self).file,
            match block_at(old(self).ls(), old(self).idx as int, old(self).col as int, indent as int) {
                Ok((n, i, c)) => r matches Ok(x) && x@ == n && final(self).idx == i && final(self).col == c,
                Err(f) => r matches Err(e) && e@ == f && e.file == owned_path(old(self).file),
            },
            r is Ok ==> final(self).wf() && not_behind(
                old(self).idx as int,
                old(self).col as int,
                final(self).idx as int,
                final(self).col as int,
            ),
            r is Ok && old(self).in_lines() ==> final(self).in_lines(),
        decreases old(self).lines@.len() - old(self).idx, usize::MAX - old(self).col, 2int,
    {
        match self.reject_unsupported() {
            Err(e) => {
                return Err(e);
            },
            Ok(()) => {},
        }
        if self.at_dash() {
            return self.parse_seq(indent);
        }
        if self.idx >= self.lines.len() {
            return Err(eof(self.file));
        }
        let is_mapping = find_key_sep(self.lines[self.idx].chars.as_slice(), self.col).is_some();
        if is_mapping {
            self.parse_map(indent)
        } else {
            let node = match self.parse_inline_value() {
                Ok(n) => n,
                Err(e) => {
                    return Err(e);
                },
            };
            self.advance_line();
            Ok(node)
        }
    }

    /// The entries of the mapping at the cursor, indented `indent`.
    pub fn parse_map(&mut self, indent: usize) -> (r: Result<Node, ParseError>)
        requires
            old(self).wf(),
        ensures
            final(self).lines == old(self).lines,
            final(self).file == old(self).file,
            match map_loop(old(self).ls(), old(self).idx as int, old(self).col as int, indent as int, Seq::empty()) {
                Ok((entries, i, c)) => r matches Ok(x) && x@ == (NodeView {
                    line: number_at(old(self).ls(), old(self).idx as int),
                    value: ValueView::Mapping(entries),
                }) && final(self).idx == i && final(self).col == c,
                Err(f) => r matches Err(e) && e@ == f && e.file == owned_path(old(self).file),
            },
            r is Ok ==> final(self).wf() && not_behind(
                old(self).idx as int,
                old(self).col as int,
                final(self).idx as int,
                final(self).col as int,
            ),
            r is Ok && old(self).in_lines() ==> final(self).in_lines(),
        decreases old(self).lines@.len() - old(self).idx, usize::MAX - old(self).col, 1int,
    {
        let start_line = self.line_number();
        let ghost ls = self.ls();
        let ghost idx0 = self.idx as int;
        let ghost col0 = self.col as int;
        let mut entries: Vec<(Key, Node)> = Vec::new();
        loop
            invariant
                self.lines == old(self).lines,
                self.file == old(self).file,
                ls == self.ls(),
                self.wf(),
                idx0 == old(self).idx,
                col0 == old(self).col,
                start_line == number_at(ls, idx0),
                not_behind(idx0, col0, self.idx as int, self.col as int),
                idx0 <= self.lines@.len() ==> self.idx <= self.lines@.len(),
                map_loop(ls, idx0, col0, indent as int, Seq::empty()) == map_loop(
                    ls,
                    self.idx as int,
                    self.col as int,
                    indent as int,
                    entries_view(entries),
                ),
            decreases self.lines@.len() - self.idx, usize::MAX - self.col,
        {
            if self.idx >= self.lines.len() || self.col < indent {
                return Ok(Node { line: start_line, value: Value::Mapping(entries) });
            }
            let number = self.lines[self.idx].number;
            if self.col > indent {
                return Err(self.indentation_error(number, indent));
            }
            let before_idx = self.idx;
            let before_col = self.col;
            match self.reject_unsupported() {
                Err(e) => {
                    return Err(e);
                },
                Ok(()) => {},
            }
            if self.at_dash() {
                return Err(
                    err(
                        self.file,
                        ErrorKind::Syntax,
                        number,
                        self.col + 1,
                        text_of("expected a mapping key, found a sequence item"),
                    ),
                );
            }
            let key = match self.parse_key() {
                Ok(k) => k,
                Err(e) => {
                    return Err(e);
                },
            };
            proof {
                lemma_key_at(ls, before_idx as int, before_col as int);
            }
            proof {
                super::tree::lemma_view_entries_len(entries, entries@.len() as int);
            }
            match entry_index(&entries, key.name.as_str()) {
                Some(j) => {
                    return Err(duplicate_error(self.file, &key, entries[j].0.line));
                },
                None => {},
            }
            let value = match self.parse_key_value(&key, indent) {
                Ok(v) => v,
                Err(e) => {
                    return Err(e);
                },
            };
            let ghost before = entries;
            entries.push((key, value));
            proof {
                lemma_entries_push(before, entries, key, value);
            }
            if self.idx == before_idx && self.col == before_col {
                return Err(
                    err(
                        self.file,
                        ErrorKind::Syntax,
                        number,
                        self.col + 1,
                        text_of("could not make progress parsing this mapping"),
                    ),
                );
            }
        }
    }

    /// The items of the sequence at the cursor, indented `indent`.
    pub fn parse_seq(&mut self, indent: usize) -> (r: Result<Node, ParseError>)
        requires
            old(self).wf(),
        ensures
            final(self).lines == old(self).lines,
            final(self).file == old(self).file,
            match seq_loop(old(self).ls(), old(self).idx as int, old(self).col as int, indent as int, Seq::empty()) {
                Ok((items, i, c)) => r matches Ok(x) && x@ == (NodeView {
                    line: number_at(old(self).ls(), old(self).idx as int),
                    value: ValueView::Sequence(items),
                }) && final(self).idx == i && final(self).col == c,
                Err(f) => r matches Err(e) && e@ == f && e.file == owned_path(old(self).file),
            },
            r is Ok ==> final(self).wf() && not_behind(
                old(self).idx as int,
                old(self).col as int,
                final(self).idx as int,
                final(self).col as int,
            ),
            r is Ok && old(self).in_lines() ==> final(self).in_lines(),
        decreases old(self).lines@.len() - old(self).idx, usize::MAX - old(self).col, 1int,
    {
        let start_line = self.line_number();
        let ghost ls = self.ls();
        let ghost idx0 = self.idx as int;
        let ghost col0 = self.col as int;
        let mut items: Vec<Node> = Vec::new();
        loop
            invariant
                self.lines == old(self).lines,
                self.file == old(self).file,
                ls == self.ls(),
                self.wf(),
                idx0 == old(self).idx,
                col0 == old(self).col,
                start_line == number_at(ls, idx0),
                not_behind(idx0, col0, self.idx as int, self.col as int),
                idx0 <= self.lines@.len() ==> self.idx <= self.lines@.len(),
                seq_loop(ls, idx0, col0, indent as int, Seq::empty()) == seq_loop(
                    ls,
                    self.idx as int,
                    self.col as int,
                    indent as int,
                    items_view(items),
                ),
            decreases self.lines@.len() - self.idx, usize::MAX - self.col,
        {
            if self.idx >= self.lines.len() || self.col < indent {
                return Ok(Node { line: start_line, value: Value::Sequence(items) });
            }
            let number = self.lines[self.idx].number;
            if self.col > indent {
                return Err(self.indentation_error(number, indent));
            }
            let before_idx = self.idx;
            let before_col = self.col;
            match self.reject_unsupported() {
                Err(e) => {
                    return Err(e);
                },
                Ok(()) => {},
            }
            if !self.at_dash() {
                return Ok(Node { line: start_line, value: Value::Sequence(items) });
            }
            let dash_col = self.col;
            let line_len = self.lines[self.idx].chars.len();
            let c1 = skip_spaces_from(self.lines[self.idx].chars.as_slice(), self.col + 1);
            proof {
                lemma_skip_spaces(ls[self.idx as int].chars, self.col + 1);
            }
            self.col = c1;
            let at_end = self.col >= line_len;
            let node = if at_end {
                self.advance_line();
                if self.idx < self.lines.len() && self.col > dash_col {
                    match self.parse_block(self.col) {
                        Ok(n) => n,
                        Err(e) => {
                            return Err(e);
                        },
                    }
                } else {
                    Node { line: number, value: Value::Null }
                }
            } else {
                match self.parse_block(self.col) {
                    Ok(n) => n,
                    Err(e) => {
                        return Err(e);
                    },
                }
            };
            let ghost before = items;
            items.push(node);
            proof {
                lemma_items_push(before, items, node);
            }
            if self.idx == before_idx && self.col == before_col {
                return Err(
                    err(
                        self.file,
                        ErrorKind::Syntax,
                        number,
                        self.col + 1,
                        text_of("could not make progress parsing this sequence"),
                    ),
                );
            }
        }
    }
}

} // verus!
