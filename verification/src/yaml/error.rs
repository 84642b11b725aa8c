//! Parse failures: what went wrong, and where.

use std::path::{Path, PathBuf};
use vstd::prelude::*;

use super::text::{chars_of, display_path, owned_path, path_to_buf, push_decimal, push_str, shown_path, string_of, decimal};

verus! {

/// What went wrong, so that callers and tests can branch on the cause rather
/// than on message text.
#[derive(Debug, Clone, Copy, PartialEq, Eq)]
pub enum ErrorKind {
    /// A YAML construct this reader deliberately does not support.
    UnsupportedFeature,
    /// A tab in indentation, or a line that lines up with no open block.
    Indentation,
    /// A quoted scalar with no closing quote on its line.
    UnterminatedQuote,
    /// The same key twice in one mapping.
    DuplicateKey,
    /// Anything else malformed.
    Syntax,
    /// The file could not be read, or was not valid UTF-8. Carries line 0.
    Io,
}

/// A parse failure, always naming the file and (except for [`ErrorKind::Io`])
/// the line.
#[derive(Debug, Clone, PartialEq, Eq)]
pub struct ParseError {
    pub file: PathBuf,
    /// 1-based line, or 0 when the failure is not tied to one.
    pub line: usize,
    /// 1-based column, or 0 when the failure is not tied to one.
    pub col: usize,
    pub kind: ErrorKind,
    pub message: String,
}

/// A failure without its file: the part the reader decides.
pub struct ErrorView {
    pub kind: ErrorKind,
    pub line: int,
    pub col: int,
    pub message: Seq<char>,
}

impl View for ParseError {
    type V = ErrorView;

    open spec fn view(&self) -> ErrorView {
        ErrorView { kind: self.kind, line: self.line as int, col: self.col as int, message: self.message@ }
    }
}

/// The failure `kind` at `line`, `col` with `message`.
pub open spec fn fault(kind: ErrorKind, line: int, col: int, message: Seq<char>) -> ErrorView {
    ErrorView { kind, line, col, message }
}

/// How a failure is shown to a user: `file:line: error: message`, or
/// `file: error: message` when it is tied to no line.
pub open spec fn rendered(file: Seq<char>, line: nat, message: Seq<char>) -> Seq<char> {
    if line == 0 {
        file + ": error: "@ + message
    } else {
        file + ":"@ + decimal(line) + ": error: "@ + message
    }
}

impl ParseError {
    /// The failure as a user sees it, e.g.
    /// `catalog/dim_customer.yml:17: error: duplicate mapping key 'name': ...`.
    pub fn to_string(&self) -> (r: String)
        ensures
            r@ == rendered(shown_path(self.file), self.line as nat, self.message@),
    {
        let shown = display_path(&self.file);
        let mut out = chars_of(shown.as_str());
        if self.line != 0 {
            push_str(&mut out, ":");
            push_decimal(&mut out, self.line);
        }
        push_str(&mut out, ": error: ");
        push_str(&mut out, self.message.as_str());
        string_of(out.as_slice())
    }
}

/// A failure in `file`.
pub fn err(file: &Path, kind: ErrorKind, line: usize, col: usize, message: String) -> (e: ParseError)
    ensures
        e@ == fault(kind, line as int, col as int, message@),
        e.file == owned_path(file),
{
    ParseError { file: path_to_buf(file), line, col, kind, message }
}

/// The end of the input was reached where more was needed.
pub open spec fn eof_fault() -> ErrorView {
    fault(ErrorKind::Syntax, 0, 0, "unexpected end of file"@)
}

/// The end of the input was reached where more was needed.
pub fn eof(file: &Path) -> (e: ParseError)
    ensures
        e@ == eof_fault(),
        e.file == owned_path(file),
{
    err(file, ErrorKind::Syntax, 0, 0, string_of(chars_of("unexpected end of file").as_slice()))
}

} // verus!
