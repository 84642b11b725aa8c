//! A reader for the subset of YAML the catalog format uses, carrying the source
//! line of every node, so that a validation message can say
//! `catalog/warehouse/dim_customer.yml:17: error: ...` and point at the key
//! that is wrong.
//!
//! Supported: block mappings, block sequences, nesting by indentation (spaces
//! only), plain scalars, single- and double-quoted scalars, and `#` comments.
//!
//! Rejected, rather than misread: flow style (`{a: 1}`, `[1, 2]`), anchors and
//! aliases (`&x`, `*x`), multi-document streams (`---`, `...`), tags
//! (`!!str`), block scalars (`|`, `>`), explicit keys (`? a`), directives
//! (`%YAML`), and quoted scalars that span lines. Each fails with
//! [`ErrorKind::UnsupportedFeature`], naming the feature, the file and the line.
//!
//! Deliberate deviations from YAML 1.1: `yes`/`no`/`on`/`off` are strings, not
//! booleans; only `true` and `false` (and their `True`/`TRUE` casings) are
//! booleans. Scalars with leading zeros (`007`) stay strings, as do integers
//! too large for an `i64`.

pub mod error;
pub mod laws;
pub mod parser;
pub mod scalar;
pub mod scan;
pub mod text;
pub mod tree;

use std::path::Path;
use vstd::prelude::*;

pub use error::{eof, err, ErrorKind, ErrorView, ParseError};
pub use parser::Parser;
pub use scalar::{decode_quoted, decode_unicode, hex4, parse_int};
pub use scan::{check_unsupported, find_key_sep, scan_lines, scan_quoted_end, slice, strip_comment, Line};
pub use tree::{Key, KeyView, Node, NodeView, Value, ValueView};

use parser::{document, lemma_lines_fit};
use scan::{lemma_scan_pieces, lines_view, scan_text, split_lines};
use error::fault;
use text::{chars_of, owned_path, push_decimal, push_str, string_from_utf8, string_of, text_of};
use vstd::utf8::{decode_utf8, valid_utf8};

verus! {

/// The tree `parse_str` reads from the text `t`, or the failure it reports.
pub open spec fn parsed_text(t: Seq<char>) -> Result<NodeView, ErrorView> {
    match scan_text(t) {
        Err(f) => Err(f),
        Ok(ls) => document(ls),
    }
}

/// What reading a file's bytes `b` gives: the failure for bytes that are not
/// UTF-8, else what the text they encode reads as.
pub open spec fn parsed_bytes(b: Seq<u8>) -> Result<NodeView, ErrorView> {
    if valid_utf8(b) {
        parsed_text(decode_utf8(b))
    } else {
        Err(fault(ErrorKind::Io, 0, 0, "file is not valid UTF-8"@))
    }
}

/// Parse the contents of a file: `bytes` are decoded as UTF-8 and the text
/// parsed. `file` names the file in error messages.
pub fn parse_bytes(bytes: Vec<u8>, file: &Path) -> (r: Result<Node, ParseError>)
    ensures
        match parsed_bytes(bytes@) {
            Ok(n) => r matches Ok(x) && x@ == n,
            Err(f) => r matches Err(e) && e@ == f && e.file == owned_path(file),
        },
{
    match string_from_utf8(bytes) {
        Some(text) => parse_str(text.as_str(), file),
        None => Err(err(file, ErrorKind::Io, 0, 0, text_of("file is not valid UTF-8"))),
    }
}

/// The failure for a file that could not be read; `detail` says why.
pub fn read_error(file: &Path, detail: &str) -> (e: ParseError)
    ensures
        e@ == fault(ErrorKind::Io, 0, 0, "could not read file: "@ + detail@),
        e.file == owned_path(file),
{
    let mut msg = chars_of("could not read file: ");
    push_str(&mut msg, detail);
    err(file, ErrorKind::Io, 0, 0, string_of(msg.as_slice()))
}

/// Parse `text` into a line-tracked tree. `file` is used for error messages
/// only; it is never read.
pub fn parse_str(text: &str, file: &Path) -> (r: Result<Node, ParseError>)
    ensures
        match parsed_text(text@) {
            Ok(n) => r matches Ok(x) && x@ == n,
            Err(f) => r matches Err(e) && e@ == f && e.file == owned_path(file),
        },
{
    let lines = match scan_lines(text, file) {
        Ok(lines) => lines,
        Err(e) => {
            return Err(e);
        },
    };
    proof {
        lemma_scan_pieces(split_lines(text@), 0);
        lemma_lines_fit(lines@);
        assert forall|k: int| 0 <= k < lines_view(lines@).len() implies 0 <= (#[trigger] lines_view(
            lines@,
        )[k]).indent < lines_view(lines@)[k].chars.len() by {}
    }
    if lines.len() == 0 {
        return Ok(Node { line: 1, value: Value::Null });
    }
    let indent = lines[0].indent;
    let mut parser = Parser { file, lines, idx: 0, col: indent };
    let node = match parser.parse_block(indent) {
        Ok(node) => node,
        Err(e) => {
            return Err(e);
        },
    };
    if parser.idx < parser.lines.len() {
        let number = parser.lines[parser.idx].number;
        let mut msg = chars_of("inconsistent indentation: this line is indented ");
        push_decimal(&mut msg, parser.col);
        push_str(&mut msg, " spaces, which lines up with no open block");
        return Err(err(file, ErrorKind::Indentation, number, parser.col + 1, string_of(msg.as_slice())));
    }
    Ok(node)
}

} // verus!
