//! Properties of the reader as a whole, proved over the specification that
//! `parse_str` is verified against.

use vstd::prelude::*;

use super::error::{rendered, ErrorKind, ErrorView};
use super::{parsed_bytes, parsed_text};
use super::parser::{
    block_at, dash_at, lines_fit, document, indent_at, inline_at, key_at, lemma_key_at, lines_ok, map_loop, moved_on, seq_loop,
    unsupported_at, value_at,
};
use super::scalar::{
    all_digits, decode_from, decoded, digit_run, digit_value, float_syntax, digits_value, hex4_value, hex_value, int_parts, int_value, is_digit,
    simple_escape, typed_scalar, unicode_escape, unterminated_fault,
};
use super::scan::{
    unsupported_feature, clamped, cleaned, lemma_key_sep, comment_from, key_sep, lemma_comment_from, lemma_quoted_end, lemma_quoted_end_from, lemma_scan_pieces,
    lemma_skip_spaces, lemma_split_lines_len, lemma_split_lines_pieces, lemma_trailing_blanks, quoted_end,
    quoted_end_from, plain_sep_from, prepend, scan_line, scan_pieces, scan_text, skip_spaces, space_or_end, split_lines, trailing_blanks_from,
    LineScan, LineView,
};
use super::text::{all_white, decimal, digit_char, is_scalar_value, is_white, trim_end};
use super::tree::{first_named, named_from, KeyView, NodeView, ValueView};
use vstd::utf8::{encode_utf8, encode_utf8_decode_utf8, encode_utf8_valid_utf8};

verus! {

// --- what a sound tree is ------------------------------------------------------------------

/// Every node and key of the tree `n` carries a line between 1 and `hi`, and
/// every key a column of at least 1.
#[verifier::opaque]
pub open spec fn lines_within(n: NodeView, hi: int) -> bool
    decreases n,
{
    &&& 1 <= n.line <= hi
    &&& match n.value {
        ValueView::Sequence(items) => forall|i: int| 0 <= i < items.len() ==> lines_within(#[trigger] items[i], hi),
        ValueView::Mapping(es) => forall|i: int|
            0 <= i < es.len() ==> 1 <= (#[trigger] es[i]).0.line <= hi && es[i].0.col >= 1 && lines_within(es[i].1, hi),
        _ => true,
    }
}

/// No two entries of `es` have the same key.
pub open spec fn distinct_keys(es: Seq<(KeyView, NodeView)>) -> bool {
    forall|a: int, b: int| 0 <= a < b < es.len() ==> (#[trigger] es[a]).0.name != (#[trigger] es[b]).0.name
}

/// No mapping anywhere in the tree `n` has the same key twice.
#[verifier::opaque]
pub open spec fn keys_unique(n: NodeView) -> bool
    decreases n,
{
    match n.value {
        ValueView::Sequence(items) => forall|i: int| 0 <= i < items.len() ==> keys_unique(#[trigger] items[i]),
        ValueView::Mapping(es) => {
            &&& distinct_keys(es)
            &&& forall|i: int| 0 <= i < es.len() ==> keys_unique((#[trigger] es[i]).1)
        },
        _ => true,
    }
}

/// A tree whose lines lie in `1..=hi` and whose mappings have distinct keys.
pub open spec fn sound(n: NodeView, hi: int) -> bool {
    lines_within(n, hi) && keys_unique(n)
}

/// A failure that names a line between 1 and `hi` and a column of at least 1,
/// and is not about reading the file.
pub open spec fn located(f: ErrorView, hi: int) -> bool {
    1 <= f.line <= hi && f.col >= 1 && f.kind != ErrorKind::Io
}

/// Every significant line is numbered between 1 and `hi`.
pub open spec fn numbers_within(ls: Seq<LineView>, hi: int) -> bool {
    forall|k: int| 0 <= k < ls.len() ==> 1 <= (#[trigger] ls[k]).number <= hi
}

pub open spec fn items_sound(items: Seq<NodeView>, hi: int) -> bool {
    forall|i: int| 0 <= i < items.len() ==> sound(#[trigger] items[i], hi)
}

pub open spec fn entries_sound(es: Seq<(KeyView, NodeView)>, hi: int) -> bool {
    &&& distinct_keys(es)
    &&& forall|i: int|
        0 <= i < es.len() ==> 1 <= (#[trigger] es[i]).0.line <= hi && es[i].0.col >= 1 && sound(es[i].1, hi)
}

proof fn lemma_sequence_sound(line: int, items: Seq<NodeView>, hi: int)
    requires
        1 <= line <= hi,
        items_sound(items, hi),
    ensures
        sound(NodeView { line, value: ValueView::Sequence(items) }, hi),
{
    let n = NodeView { line, value: ValueView::Sequence(items) };
    reveal_with_fuel(lines_within, 1);
    reveal_with_fuel(keys_unique, 1);
    assert forall|i: int| 0 <= i < items.len() implies lines_within(#[trigger] items[i], hi) by {
        assert(sound(items[i], hi));
    }
    assert forall|i: int| 0 <= i < items.len() implies keys_unique(#[trigger] items[i]) by {
        assert(sound(items[i], hi));
    }
}

proof fn lemma_scalar_sound(n: NodeView, hi: int)
    requires
        1 <= n.line <= hi,
        !(n.value is Sequence),
        !(n.value is Mapping),
    ensures
        sound(n, hi),
{
    reveal_with_fuel(lines_within, 1);
    reveal_with_fuel(keys_unique, 1);
}

proof fn lemma_mapping_sound(line: int, es: Seq<(KeyView, NodeView)>, hi: int)
    requires
        1 <= line <= hi,
        entries_sound(es, hi),
    ensures
        sound(NodeView { line, value: ValueView::Mapping(es) }, hi),
{
    reveal_with_fuel(lines_within, 1);
    reveal_with_fuel(keys_unique, 1);
    assert forall|i: int| 0 <= i < es.len() implies 1 <= (#[trigger] es[i]).0.line <= hi && es[i].0.col >= 1
        && lines_within(es[i].1, hi) by {
        assert(sound(es[i].1, hi));
    }
    assert forall|i: int| 0 <= i < es.len() implies keys_unique((#[trigger] es[i]).1) by {
        assert(sound(es[i].1, hi));
    }
}

proof fn lemma_named_from_none(es: Seq<(KeyView, NodeView)>, name: Seq<char>, k: int)
    requires
        0 <= k,
        named_from(es, name, k) is None,
    ensures
        forall|j: int| k <= j < es.len() ==> (#[trigger] es[j]).0.name != name,
    decreases es.len() - k,
{
    if k < es.len() {
        lemma_named_from_none(es, name, k + 1);
    }
}

// --- failures inside one line --------------------------------------------------------------

proof fn lemma_decode_from_located(s: Seq<char>, quote: char, number: int, start: int, i: int, out: Seq<char>)
    requires
        0 <= start,
        start < i,
    ensures
        decode_from(s, quote, number, start, i, out) matches Err(f) ==> f.line == number && f.col >= 1 && f.kind
            != ErrorKind::Io,
    decreases s.len() + 1 - i,
{
    if 0 <= i < s.len() {
        let c = s[i];
        lemma_decode_from_located(s, quote, number, start, i + 1, out.push(c));
        lemma_decode_from_located(s, quote, number, start, i + 2, out.push('\''));
        if i + 1 < s.len() {
            if let Some(d) = simple_escape(s[i + 1]) {
                lemma_decode_from_located(s, quote, number, start, i + 2, out.push(d));
            }
            if let Ok((d, next)) = unicode_escape(s, number, i) {
                lemma_decode_from_located(s, quote, number, start, next, out.push(d));
            }
        }
    }
}

proof fn lemma_decoded_located(s: Seq<char>, number: int, start: int)
    requires
        0 <= start < s.len(),
    ensures
        decoded(s, number, start) matches Err(f) ==> f.line == number && f.col >= 1 && f.kind != ErrorKind::Io,
{
    lemma_decode_from_located(s, s[start], number, start, start + 1, Seq::empty());
}

proof fn lemma_key_located(ls: Seq<LineView>, idx: int, col: int)
    requires
        0 <= idx < ls.len(),
        0 <= col,
    ensures
        key_at(ls, idx, col) matches Ok((k, _)) ==> k.line == ls[idx].number && k.col >= 1,
        key_at(ls, idx, col) matches Err(f) ==> f.line == ls[idx].number && f.col >= 1 && f.kind != ErrorKind::Io,
{
    let s = ls[idx].chars;
    if 0 <= col < s.len() {
        lemma_decoded_located(s, ls[idx].number, col);
    }
}

proof fn lemma_inline_located(ls: Seq<LineView>, idx: int, col: int)
    requires
        0 <= idx < ls.len(),
        0 <= col,
    ensures
        inline_at(ls, idx, col) matches Ok(n) ==> n.line == ls[idx].number && !(n.value is Sequence)
            && !(n.value is Mapping),
        inline_at(ls, idx, col) matches Err(f) ==> f.line == ls[idx].number && f.col >= 1 && f.kind != ErrorKind::Io,
{
    let s = ls[idx].chars;
    if 0 <= col < s.len() {
        lemma_decoded_located(s, ls[idx].number, col);
        super::scan::lemma_skip_spaces(s, col);
        super::scalar::lemma_decode_from(s, s[col], ls[idx].number, col, col + 1, Seq::empty());
        if let Ok((_, end)) = decoded(s, ls[idx].number, col) {
            super::scan::lemma_skip_spaces(s, end);
        }
    }
}

// --- the descent --------------------------------------------------------------------------------

proof fn lemma_block_sound(ls: Seq<LineView>, hi: int, idx: int, col: int, indent: int)
    requires
        lines_ok(ls),
        numbers_within(ls, hi),
        0 <= idx < ls.len(),
        0 <= col,
    ensures
        block_at(ls, idx, col, indent) matches Ok((n, _, c)) ==> sound(n, hi) && 0 <= c,
        block_at(ls, idx, col, indent) matches Err(f) ==> located(f, hi),
    decreases ls.len() - idx, usize::MAX - col, 2int,
{
    let number = ls[idx].number;
    if unsupported_at(ls, idx, col) is None {
        if dash_at(ls, idx, col) {
            lemma_seq_sound(ls, hi, idx, col, indent, Seq::empty());
            if let Ok((items, _, _)) = seq_loop(ls, idx, col, indent, Seq::empty()) {
                lemma_sequence_sound(number, items, hi);
            }
        } else if key_sep(ls[idx].chars, col) is Some {
            lemma_map_sound(ls, hi, idx, col, indent, Seq::empty());
            if let Ok((es, _, _)) = map_loop(ls, idx, col, indent, Seq::empty()) {
                lemma_mapping_sound(number, es, hi);
            }
        } else {
            lemma_inline_located(ls, idx, col);
            if let Ok(n) = inline_at(ls, idx, col) {
                lemma_scalar_sound(n, hi);
            }
        }
    } else {
        assert(1 <= ls[idx].number <= hi);
    }
}

proof fn lemma_map_sound(
    ls: Seq<LineView>,
    hi: int,
    idx: int,
    col: int,
    indent: int,
    entries: Seq<(KeyView, NodeView)>,
)
    requires
        lines_ok(ls),
        numbers_within(ls, hi),
        0 <= idx <= ls.len(),
        0 <= col,
        entries_sound(entries, hi),
    ensures
        map_loop(ls, idx, col, indent, entries) matches Ok((es, _, c)) ==> entries_sound(es, hi) && 0 <= c,
        map_loop(ls, idx, col, indent, entries) matches Err(f) ==> located(f, hi),
    decreases ls.len() - idx, usize::MAX - col, 1int,
{
    if 0 <= idx < ls.len() && col == indent && unsupported_at(ls, idx, col) is None && !dash_at(ls, idx, col) {
        lemma_key_located(ls, idx, col);
        lemma_key_at(ls, idx, col);
        if let Ok((key, c2)) = key_at(ls, idx, col) {
            if first_named(entries, key.name) is None {
                lemma_named_from_none(entries, key.name, 0);
                lemma_value_sound(ls, hi, idx, c2, key, indent);
                if let Ok((v, i3, c3)) = value_at(ls, idx, c2, key, indent) {
                    if moved_on(ls, idx, col, i3, c3) {
                        let next = entries.push((key, v));
                        assert(entries_sound(next, hi)) by {
                            assert forall|a: int, b: int| 0 <= a < b < next.len() implies (#[trigger] next[a]).0.name
                                != (#[trigger] next[b]).0.name by {
                                if b == entries.len() {
                                    assert(next[a] == entries[a]);
                                } else {
                                    assert(next[a] == entries[a]);
                                    assert(next[b] == entries[b]);
                                }
                            }
                            assert forall|i: int| 0 <= i < next.len() implies 1 <= (#[trigger] next[i]).0.line <= hi
                                && next[i].0.col >= 1 && sound(next[i].1, hi) by {
                                if i < entries.len() {
                                    assert(next[i] == entries[i]);
                                }
                            }
                        }
                        lemma_map_sound(ls, hi, i3, c3, indent, next);
                    }
                }
            }
        }
    }
}

proof fn lemma_value_sound(ls: Seq<LineView>, hi: int, idx: int, col: int, key: KeyView, indent: int)
    requires
        lines_ok(ls),
        numbers_within(ls, hi),
        0 <= idx < ls.len(),
        0 <= col,
        1 <= key.line <= hi,
    ensures
        value_at(ls, idx, col, key, indent) matches Ok((n, _, c)) ==> sound(n, hi) && 0 <= c,
        value_at(ls, idx, col, key, indent) matches Err(f) ==> located(f, hi),
    decreases ls.len() - idx, usize::MAX - col, 0int,
{
    assert(1 <= ls[idx].number <= hi);
    if idx + 1 < ls.len() {
        assert(0 <= ls[idx + 1].indent);
    }
    if col < ls[idx].chars.len() {
        lemma_inline_located(ls, idx, col);
        if let Ok(n) = inline_at(ls, idx, col) {
            lemma_scalar_sound(n, hi);
        }
    } else {
        let i2 = idx + 1;
        if i2 < ls.len() {
            assert(0 <= ls[i2].indent);
            lemma_block_sound(ls, hi, i2, indent_at(ls, i2), indent_at(ls, i2));
        }
        lemma_scalar_sound(NodeView { line: key.line, value: ValueView::Null }, hi);
    }
}

proof fn lemma_seq_sound(ls: Seq<LineView>, hi: int, idx: int, col: int, indent: int, items: Seq<NodeView>)
    requires
        lines_ok(ls),
        numbers_within(ls, hi),
        0 <= idx <= ls.len(),
        0 <= col,
        items_sound(items, hi),
    ensures
        seq_loop(ls, idx, col, indent, items) matches Ok((out, _, c)) ==> items_sound(out, hi) && 0 <= c,
        seq_loop(ls, idx, col, indent, items) matches Err(f) ==> located(f, hi),
    decreases ls.len() - idx, usize::MAX - col, 1int,
{
    if 0 <= idx < ls.len() && col == indent && unsupported_at(ls, idx, col) is None && dash_at(ls, idx, col) {
        let s = ls[idx].chars;
        let number = ls[idx].number;
        let c1 = skip_spaces(s, col + 1);
        lemma_skip_spaces(s, col + 1);
        let item = if c1 >= s.len() {
            let i2 = idx + 1;
            let c2 = indent_at(ls, i2);
            if 0 <= i2 < ls.len() && c2 > col {
                block_at(ls, i2, c2, c2)
            } else {
                Ok((NodeView { line: number, value: ValueView::Null }, i2, c2))
            }
        } else {
            block_at(ls, idx, c1, c1)
        };
        assert(1 <= number <= hi);
        if c1 >= s.len() {
            let i2 = idx + 1;
            let c2 = indent_at(ls, i2);
            if 0 <= i2 < ls.len() && c2 > col {
                assert(0 <= ls[i2].indent);
                lemma_block_sound(ls, hi, i2, c2, c2);
            } else {
                assert(0 <= c2) by {
                    if 0 <= i2 < ls.len() {
                        assert(0 <= ls[i2].indent);
                    }
                }
                lemma_scalar_sound(NodeView { line: number, value: ValueView::Null }, hi);
            }
        } else {
            lemma_block_sound(ls, hi, idx, c1, c1);
        }
        if let Ok((n, i3, c3)) = item {
            assert(sound(n, hi) && 0 <= c3);
            if moved_on(ls, idx, col, i3, c3) {
                let next = items.push(n);
                assert(items_sound(next, hi)) by {
                    assert forall|i: int| 0 <= i < next.len() implies sound(#[trigger] next[i], hi) by {
                        if i < items.len() {
                            assert(next[i] == items[i]);
                        }
                    }
                }
                lemma_seq_sound(ls, hi, i3, c3, indent, next);
            }
        }
    }
}

proof fn lemma_document_sound(ls: Seq<LineView>, hi: int)
    requires
        lines_ok(ls),
        numbers_within(ls, hi),
        1 <= hi,
    ensures
        document(ls) matches Ok(n) ==> sound(n, hi),
        document(ls) matches Err(f) ==> located(f, hi),
{
    if ls.len() == 0 {
        lemma_scalar_sound(NodeView { line: 1, value: ValueView::Null }, hi);
    } else {
        assert(0 <= ls[0].indent);
        lemma_block_sound(ls, hi, 0, ls[0].indent, ls[0].indent);
        if let Ok((_, i, c)) = block_at(ls, 0, ls[0].indent, ls[0].indent) {
            if 0 <= i < ls.len() {
                assert(1 <= ls[i].number <= hi);
            }
        }
    }
}

/// The outcome of reading a text that fits in memory is sound: a tree whose
/// nodes and keys carry lines of the text and whose mappings have distinct
/// keys, or a failure that names a line of the text.
proof fn lemma_parsed_sound(t: Seq<char>)
    requires
        t.len() <= usize::MAX,
    ensures
        parsed_text(t) matches Ok(n) ==> sound(n, split_lines(t).len() as int),
        parsed_text(t) matches Err(f) ==> located(f, split_lines(t).len() as int),
{
    let pieces = split_lines(t);
    lemma_split_lines_len(t);
    lemma_split_lines_pieces(t);
    lemma_scan_pieces(pieces, 0);
    if let Ok(ls) = scan_text(t) {
        assert(lines_ok(ls)) by {
            assert forall|k: int| 0 <= k < ls.len() implies (#[trigger] ls[k]).chars.len() <= usize::MAX by {
                assert(pieces[ls[k].number - 1].len() <= t.len());
            }
        }
        lemma_document_sound(ls, pieces.len() as int);
    }
}

// --- the laws --------------------------------------------------------------------------------

/// The UTF-8 bytes of a text read exactly as the text does: decoding a file
/// adds nothing to, and takes nothing from, what its text means.
pub proof fn law_bytes_read_as_their_text(t: Seq<char>)
    ensures
        parsed_bytes(encode_utf8(t)) == parsed_text(t),
{
    encode_utf8_valid_utf8(t);
    encode_utf8_decode_utf8(t);
}

/// Every node of a document that reads successfully, and every key in it,
/// carries a 1-based line of the text (blank and comment lines counted), and
/// every key a 1-based column.
pub proof fn law_every_node_carries_a_source_line(t: Seq<char>)
    requires
        t.len() <= usize::MAX,
    ensures
        parsed_text(t) matches Ok(n) ==> lines_within(n, split_lines(t).len() as int),
{
    lemma_parsed_sound(t);
}

/// No mapping anywhere in a document that reads successfully holds the same
/// key twice: a duplicate key is always refused.
pub proof fn law_no_mapping_repeats_a_key(t: Seq<char>)
    requires
        t.len() <= usize::MAX,
    ensures
        parsed_text(t) matches Ok(n) ==> keys_unique(n),
{
    lemma_parsed_sound(t);
}

/// A text that cannot be read fails naming one of its lines and a column,
/// never as a failure to read the file.
pub proof fn law_failures_name_a_line(t: Seq<char>)
    requires
        t.len() <= usize::MAX,
    ensures
        parsed_text(t) matches Err(f) ==> located(f, split_lines(t).len() as int),
{
    lemma_parsed_sound(t);
}

/// A failure to read a text is shown as `file:line: error: message`: it always
/// names the file and the line.
pub proof fn law_failures_show_file_and_line(t: Seq<char>, file: Seq<char>)
    requires
        t.len() <= usize::MAX,
    ensures
        parsed_text(t) matches Err(f) ==> rendered(file, f.line as nat, f.message) == file + ":"@ + decimal(
            f.line as nat,
        ) + ": error: "@ + f.message,
{
    lemma_parsed_sound(t);
}

/// Line numbers are physical: the significant lines are numbered by their
/// place in the text, in rising order, blank and comment lines included in the
/// count but never in the list, and each is what the pre-pass makes of the
/// physical line with its number.
pub proof fn law_significant_lines_keep_their_numbers(t: Seq<char>)
    ensures
        scan_text(t) matches Ok(ls) ==> {
            &&& forall|j: int| 0 <= j < ls.len() ==> 1 <= (#[trigger] ls[j]).number <= split_lines(t).len()
            &&& forall|a: int, b: int| 0 <= a < b < ls.len() ==> (#[trigger] ls[a]).number < (#[trigger] ls[b]).number
            &&& forall|j: int|
                0 <= j < ls.len() ==> scan_line(split_lines(t)[(#[trigger] ls[j]).number - 1], ls[j].number)
                    == LineScan::Keep(ls[j])
        },
{
    lemma_scan_pieces(split_lines(t), 0);
}

proof fn lemma_all_skipped(pieces: Seq<Seq<char>>, k: int)
    requires
        0 <= k,
        forall|j: int| 0 <= j < pieces.len() ==> scan_line(#[trigger] pieces[j], j + 1) == LineScan::Skip,
    ensures
        scan_pieces(pieces, k) == Ok::<Seq<LineView>, ErrorView>(Seq::empty()),
    decreases pieces.len() - k,
{
    if k < pieces.len() {
        lemma_all_skipped(pieces, k + 1);
    }
}

/// A text whose every line is blank or a comment reads as a null document at
/// line 1.
pub proof fn law_blank_documents_are_null(t: Seq<char>)
    requires
        forall|j: int| 0 <= j < split_lines(t).len() ==> scan_line(#[trigger] split_lines(t)[j], j + 1) == LineScan::Skip,
    ensures
        parsed_text(t) == Ok::<NodeView, ErrorView>(NodeView { line: 1, value: ValueView::Null }),
{
    lemma_all_skipped(split_lines(t), 0);
}

/// In a mapping with distinct keys, looking a key up finds the one entry that
/// has it, and finds nothing only when no entry has it.
pub proof fn law_lookup_finds_the_only_entry(es: Seq<(KeyView, NodeView)>, name: Seq<char>)
    requires
        distinct_keys(es),
    ensures
        forall|j: int| 0 <= j < es.len() && (#[trigger] es[j]).0.name == name ==> first_named(es, name) == Some(j),
        first_named(es, name) is None <==> forall|j: int| 0 <= j < es.len() ==> (#[trigger] es[j]).0.name != name,
{
    lemma_named_from(es, name, 0);
}

proof fn lemma_named_from(es: Seq<(KeyView, NodeView)>, name: Seq<char>, k: int)
    requires
        distinct_keys(es),
        0 <= k,
    ensures
        forall|j: int| k <= j < es.len() && (#[trigger] es[j]).0.name == name ==> named_from(es, name, k) == Some(j),
        named_from(es, name, k) is None <==> forall|j: int| k <= j < es.len() ==> (#[trigger] es[j]).0.name != name,
        named_from(es, name, k) matches Some(j) ==> k <= j < es.len() && es[j].0.name == name,
    decreases es.len() - k,
{
    if k < es.len() {
        lemma_named_from(es, name, k + 1);
    }
}

// --- scalar typing ------------------------------------------------------------------------------

/// Only `true`, `True` and `TRUE` read as the boolean true, and only `false`,
/// `False` and `FALSE` as false: `yes`, `no`, `on`, `off` and everything
/// else are not booleans.
pub proof fn law_booleans_are_spelled_true_or_false(t: Seq<char>)
    ensures
        typed_scalar(t) == ValueView::Bool(true) <==> (t == "true"@ || t == "True"@ || t == "TRUE"@),
        typed_scalar(t) == ValueView::Bool(false) <==> (t == "false"@ || t == "False"@ || t == "FALSE"@),
{
    reveal_strlit("~");
    reveal_strlit("null");
    reveal_strlit("Null");
    reveal_strlit("NULL");
    reveal_strlit("true");
    reveal_strlit("True");
    reveal_strlit("TRUE");
    reveal_strlit("false");
    reveal_strlit("False");
    reveal_strlit("FALSE");
}

/// The decimal text of an `i64`, with a `-` for a negative one.
pub open spec fn int_text(v: i64) -> Seq<char> {
    if v < 0 {
        seq!['-'] + decimal((-v) as nat)
    } else {
        decimal(v as nat)
    }
}

proof fn lemma_decimal(n: nat)
    ensures
        all_digits(decimal(n)),
        decimal(n).len() >= 1,
        digits_value(decimal(n)) == n,
        decimal(n).len() > 1 ==> decimal(n)[0] != '0',
        n > 0 ==> decimal(n)[0] != '0',
    decreases n,
{
    if n >= 10 {
        lemma_decimal(n / 10);
        let d = decimal(n);
        assert(d.drop_last() == decimal(n / 10));
        assert(d[0] == decimal(n / 10)[0]);
        assert(digit_value(digit_char(n % 10)) == n % 10);
        assert((n / 10) * 10 + n % 10 == n) by (nonlinear_arith);
        assert(d.last() == digit_char(n % 10));
        assert(forall|i: int| 0 <= i < d.len() - 1 ==> d[i] == decimal(n / 10)[i]);
    } else {
        assert(digit_value(digit_char(n)) == n);
        assert(decimal(n).drop_last() == Seq::<char>::empty());
        assert(digits_value(Seq::<char>::empty()) == 0);
    }
}

/// Integers read back: the decimal text of any `i64` reads as that integer.
pub proof fn law_integers_read_back(v: i64)
    ensures
        typed_scalar(int_text(v)) == ValueView::Int(v),
{
    reveal_strlit("~");
    reveal_strlit("null");
    reveal_strlit("Null");
    reveal_strlit("NULL");
    reveal_strlit("true");
    reveal_strlit("True");
    reveal_strlit("TRUE");
    reveal_strlit("false");
    reveal_strlit("False");
    reveal_strlit("FALSE");
    let t = int_text(v);
    if v < 0 {
        let m = (-v) as nat;
        lemma_decimal(m);
        assert(t.drop_first() == decimal(m));
        assert(int_parts(t).1 == decimal(m));
    } else {
        lemma_decimal(v as nat);
        assert(is_digit(t[0]));
    }
    assert(int_value(t) == Some(v));
}

/// A number written with a leading zero (`007`, `-01`) is never an integer, so
/// codes keep their zeros.
pub proof fn law_leading_zeros_are_not_integers(t: Seq<char>)
    requires
        int_parts(t).1.len() > 1,
        int_parts(t).1[0] == '0',
    ensures
        !(typed_scalar(t) is Int),
{
    assert(int_value(t) is None);
}

/// An optional sign and digits whose value does not fit an `i64` is never an
/// integer: it is not rounded into one.
pub proof fn law_out_of_range_numbers_are_not_integers(t: Seq<char>)
    requires
        all_digits(int_parts(t).1),
        !(i64::MIN <= (if int_parts(t).0 { -digits_value(int_parts(t).1) } else { digits_value(int_parts(t).1) })
            <= i64::MAX),
    ensures
        !(typed_scalar(t) is Int),
{
    assert(int_value(t) is None);
}

/// A quoted scalar is always a string, whatever it looks like.
pub proof fn law_quoted_scalars_are_strings(ls: Seq<LineView>, idx: int, col: int)
    requires
        0 <= idx < ls.len(),
        0 <= col < ls[idx].chars.len(),
        ls[idx].chars[col] == '\'' || ls[idx].chars[col] == '"',
    ensures
        inline_at(ls, idx, col) matches Ok(n) ==> n.value is Str,
{
}

// --- quoting ----------------------------------------------------------------------------------------

/// How one character is written inside single quotes: a quote is doubled.
pub open spec fn single_quote_piece(c: char) -> Seq<char> {
    if c == '\'' {
        seq!['\'', '\'']
    } else {
        seq![c]
    }
}

/// `s` written as the inside of a single-quoted scalar.
pub open spec fn doubled_quotes(s: Seq<char>) -> Seq<char>
    decreases s.len(),
{
    if s.len() == 0 {
        Seq::empty()
    } else {
        doubled_quotes(s.drop_last()) + single_quote_piece(s.last())
    }
}

/// `s` written as a single-quoted scalar.
pub open spec fn single_quoted(s: Seq<char>) -> Seq<char> {
    seq!['\''] + doubled_quotes(s) + seq!['\'']
}

proof fn lemma_doubled_concat(a: Seq<char>, b: Seq<char>)
    ensures
        doubled_quotes(a + b) == doubled_quotes(a) + doubled_quotes(b),
    decreases b.len(),
{
    if b.len() == 0 {
        assert(a + b == a);
        assert(doubled_quotes(a) + doubled_quotes(b) == doubled_quotes(a));
    } else {
        lemma_doubled_concat(a, b.drop_last());
        assert((a + b).drop_last() == a + b.drop_last());
        assert((a + b).last() == b.last());
    }
}

proof fn lemma_doubled_split(s: Seq<char>, j: int)
    requires
        0 <= j < s.len(),
    ensures
        doubled_quotes(s) == doubled_quotes(s.take(j)) + single_quote_piece(s[j]) + doubled_quotes(s.skip(j + 1)),
        doubled_quotes(s.take(j + 1)) == doubled_quotes(s.take(j)) + single_quote_piece(s[j]),
{
    let c = s[j];
    assert(s == s.take(j) + (seq![c] + s.skip(j + 1)));
    lemma_doubled_concat(s.take(j), seq![c] + s.skip(j + 1));
    lemma_doubled_concat(seq![c], s.skip(j + 1));
    assert(seq![c].drop_last() == Seq::<char>::empty());
    assert(doubled_quotes(Seq::<char>::empty()) == Seq::<char>::empty());
    assert(Seq::<char>::empty() + single_quote_piece(c) == single_quote_piece(c));
    assert(doubled_quotes(seq![c]) == single_quote_piece(c));
    assert(s.take(j + 1).drop_last() == s.take(j));
    assert(s.take(j + 1).last() == c);
}

#[verifier::spinoff_prover]
#[verifier::rlimit(30)]
proof fn lemma_single_quoted_from(s: Seq<char>, rest: Seq<char>, number: int, j: int)
    requires
        0 <= j <= s.len(),
        rest.len() == 0 || rest[0] != '\'',
    ensures
        decode_from(single_quoted(s) + rest, '\'', number, 0, 1 + doubled_quotes(s.take(j)).len() as int, s.take(j))
            == Ok::<(Seq<char>, int), ErrorView>((s, single_quoted(s).len() as int)),
    decreases s.len() - j,
{
    let text = single_quoted(s) + rest;
    let dj = doubled_quotes(s.take(j));
    let p: int = 1 + dj.len() as int;
    if j == s.len() {
        assert(s.take(j) == s);
        assert(text[p] == '\'');
        if p + 1 < text.len() {
            assert(text[p + 1] == rest[0]);
        }
    } else {
        let c = s[j];
        let piece = single_quote_piece(c);
        lemma_doubled_split(s, j);
        let tail = doubled_quotes(s.skip(j + 1));
        assert(text == dj.insert(0, '\'') + piece + tail + seq!['\''] + rest);
        assert(text[p] == piece[0]);
        if c == '\'' {
            assert(text[p + 1] == piece[1]);
        }
        assert(s.take(j + 1) == s.take(j).push(c));
        lemma_single_quoted_from(s, rest, number, j + 1);
    }
}

/// Single quoting reads back: a string written in single quotes, with each
/// quote doubled, reads as that same string, the closing quote ending it.
pub proof fn law_single_quoted_scalars_read_back(s: Seq<char>, rest: Seq<char>, number: int)
    requires
        rest.len() == 0 || rest[0] != '\'',
    ensures
        decoded(single_quoted(s) + rest, number, 0) == Ok::<(Seq<char>, int), ErrorView>(
            (s, single_quoted(s).len() as int),
        ),
{
    assert(s.take(0) == Seq::<char>::empty());
    lemma_single_quoted_from(s, rest, number, 0);
}

// --- comments -------------------------------------------------------------------------------------

/// Texts whose physical lines the pre-pass makes the same read the same.
pub proof fn law_same_lines_read_the_same(t1: Seq<char>, t2: Seq<char>)
    requires
        split_lines(t1).len() == split_lines(t2).len(),
        forall|k: int| 0 <= k < split_lines(t1).len() ==> scan_line(#[trigger] split_lines(t1)[k], k + 1) == scan_line(
            split_lines(t2)[k],
            k + 1,
        ),
    ensures
        scan_text(t1) == scan_text(t2),
        parsed_text(t1) == parsed_text(t2),
{
    lemma_same_pieces(split_lines(t1), split_lines(t2), 0);
}

proof fn lemma_same_pieces(p1: Seq<Seq<char>>, p2: Seq<Seq<char>>, k: int)
    requires
        0 <= k,
        p1.len() == p2.len(),
        forall|j: int| 0 <= j < p1.len() ==> scan_line(#[trigger] p1[j], j + 1) == scan_line(p2[j], j + 1),
    ensures
        scan_pieces(p1, k) == scan_pieces(p2, k),
    decreases p1.len() - k,
{
    if k < p1.len() {
        lemma_same_pieces(p1, p2, k + 1);
        assert(scan_line(p1[k], k + 1) == scan_line(p2[k], k + 1));
    }
}

/// A line whose content starts with `#` is a comment and is skipped.
pub proof fn law_comment_lines_are_skipped(raw: Seq<char>, number: int)
    requires
        ({
            let r = cleaned(raw, number);
            let ind = super::scan::skip_spaces(r, 0);
            ind < r.len() && r[ind] == '#'
        }),
    ensures
        scan_line(raw, number) == LineScan::Skip,
{
}

/// The comment scan of `s` from `i` (as `comment_from` runs it) meets no quoted
/// scalar that the line leaves open: every quote that opens a scalar before a
/// comment starts is closed on the line.
pub open spec fn quotes_close_from(s: Seq<char>, start: int, i: int, token_start: bool) -> bool
    decreases s.len() + 1 - i,
{
    if i < 0 || i >= s.len() {
        true
    } else {
        let c = s[i];
        if (c == '\'' || c == '"') && token_start {
            match quoted_end(s, i) {
                Some(end) => {
                    proof {
                        lemma_quoted_end(s, i);
                    }
                    quotes_close_from(s, start, end, false)
                },
                None => false,
            }
        } else if c == '#' && (i == start || s[i - 1] == ' ' || s[i - 1] == '\t') {
            true
        } else if c == ' ' || c == '\t' {
            quotes_close_from(s, start, i + 1, token_start)
        } else if c == '-' && token_start && space_or_end(s, i + 1) {
            quotes_close_from(s, start, i + 1, token_start)
        } else if c == ':' && space_or_end(s, i + 1) {
            quotes_close_from(s, start, i + 1, true)
        } else {
            quotes_close_from(s, start, i + 1, false)
        }
    }
}

/// Every quoted scalar that the content of the line `s` opens is closed on it.
pub open spec fn quotes_close(s: Seq<char>) -> bool {
    quotes_close_from(s, skip_spaces(s, 0), skip_spaces(s, 0), true)
}

/// How many characters of the physical line `raw` come before its line break:
/// all of them, or all but a trailing carriage return.
pub open spec fn content_len(raw: Seq<char>) -> int {
    if raw.len() > 0 && raw.last() == '\r' {
        raw.len() - 1
    } else {
        raw.len() as int
    }
}

/// The physical line `raw` with ` #` and `note` put before its line break.
pub open spec fn with_comment(raw: Seq<char>, note: Seq<char>) -> Seq<char> {
    raw.take(content_len(raw)) + seq![' ', '#'] + note + raw.skip(content_len(raw))
}

/// The physical line `raw`, numbered `number`, holds nothing but spaces and a
/// `#` comment.
pub open spec fn comment_line(raw: Seq<char>, number: int) -> bool {
    let r = cleaned(raw, number);
    let ind = skip_spaces(r, 0);
    ind < r.len() && r[ind] == '#'
}

/// Physical line `b` is line `a` with a comment added, or both are blank or
/// comment lines, or they are the same.
pub open spec fn comment_edit(a: Seq<char>, b: Seq<char>, number: int) -> bool {
    ||| b == a
    ||| (all_white(cleaned(a, number)) || comment_line(a, number)) && (all_white(cleaned(b, number))
        || comment_line(b, number))
    ||| !all_white(cleaned(a, number)) && quotes_close(cleaned(a, number)) && exists|note: Seq<char>|
        #[trigger] with_comment(a, note) == b
}

proof fn lemma_quoted_end_extend(s: Seq<char>, x: Seq<char>, quote: char, i: int)
    requires
        x.len() > 0,
        x[0] == ' ',
        quoted_end_from(s, quote, i) is Some,
    ensures
        quoted_end_from(s + x, quote, i) == quoted_end_from(s, quote, i),
    decreases s.len() + 1 - i,
{
    let t = s + x;
    assert(0 <= i < s.len());
    assert(t[i] == s[i]);
    if quote == '\'' {
        if s[i] == '\'' {
            if i + 1 < s.len() && s[i + 1] == '\'' {
                assert(t[i + 1] == s[i + 1]);
                lemma_quoted_end_extend(s, x, quote, i + 2);
            } else if i + 1 < s.len() {
                assert(t[i + 1] == s[i + 1]);
            } else {
                assert(t[i + 1] == x[0]);
            }
        } else {
            lemma_quoted_end_extend(s, x, quote, i + 1);
        }
    } else if s[i] == '\\' {
        lemma_quoted_end_extend(s, x, quote, i + 2);
    } else if s[i] != '"' {
        lemma_quoted_end_extend(s, x, quote, i + 1);
    }
}

/// The comment scan of a line with ` #` and a note appended finds the line's
/// own comment if it has one, and the appended one otherwise.
proof fn lemma_comment_extend(s: Seq<char>, note: Seq<char>, start: int, i: int, token_start: bool)
    requires
        0 <= start <= i <= s.len(),
        quotes_close_from(s, start, i, token_start),
    ensures
        ({
            let c1 = comment_from(s, start, i, token_start);
            let c2 = comment_from(s + seq![' ', '#'] + note, start, i, token_start);
            if c1 < s.len() {
                c2 == c1
            } else {
                c2 == s.len() + 1
            }
        }),
    decreases s.len() + 1 - i,
{
    let x = seq![' ', '#'] + note;
    let t = s + x;
    assert(s + seq![' ', '#'] + note == t);
    assert(t[s.len() as int] == ' ');
    assert(t[s.len() as int + 1] == '#');
    if i == s.len() {
        assert(comment_from(t, start, i + 1, token_start) == i + 1);
    } else {
        let c = s[i];
        assert(t[i] == c);
        if i > 0 {
            assert(t[i - 1] == s[i - 1]);
        }
        assert(space_or_end(t, i + 1) == space_or_end(s, i + 1)) by {
            if i + 1 < s.len() {
                assert(t[i + 1] == s[i + 1]);
            }
        }
        if (c == '\'' || c == '"') && token_start {
            lemma_quoted_end(s, i);
            let end = quoted_end(s, i)->0;
            lemma_quoted_end_extend(s, x, s[i], i + 1);
            assert(quoted_end(t, i) == quoted_end(s, i));
            lemma_comment_extend(s, note, start, end, false);
        } else if c == '#' && (i == start || s[i - 1] == ' ' || s[i - 1] == '\t') {
        } else if c == ' ' || c == '\t' {
            lemma_comment_extend(s, note, start, i + 1, token_start);
        } else if c == '-' && token_start && space_or_end(s, i + 1) {
            lemma_comment_extend(s, note, start, i + 1, token_start);
        } else if c == ':' && space_or_end(s, i + 1) {
            lemma_comment_extend(s, note, start, i + 1, true);
        } else {
            lemma_comment_extend(s, note, start, i + 1, false);
        }
    }
}

proof fn lemma_trailing_blanks_prefix(a: Seq<char>, b: Seq<char>, end: int, floor: int)
    requires
        0 <= floor,
        end <= a.len(),
        end <= b.len(),
        forall|j: int| 0 <= j < end ==> a[j] == b[j],
    ensures
        trailing_blanks_from(a, end, floor) == trailing_blanks_from(b, end, floor),
    decreases end - floor,
{
    if floor < end {
        lemma_trailing_blanks_prefix(a, b, end - 1, floor);
    }
}

/// Cleaning a line with a comment added gives the cleaned line with a comment
/// added (the note losing a carriage return that ends the line).
proof fn lemma_cleaned_with_comment(raw: Seq<char>, note: Seq<char>, number: int) -> (note2: Seq<char>)
    requires
        !all_white(cleaned(raw, number)),
    ensures
        cleaned(with_comment(raw, note), number) == cleaned(raw, number) + seq![' ', '#'] + note2,
{
    let m = content_len(raw);
    let c = raw.take(m);
    let tail = raw.skip(m);
    let x = seq![' ', '#'] + note;
    let b = with_comment(raw, note);
    assert(b == c + x + tail);
    assert(raw == c + tail);
    assert(c.len() > 0) by {
        if c.len() == 0 {
            if tail.len() == 0 {
                assert(raw.len() == 0);
            } else {
                assert(raw =~= seq!['\r']);
            }
            assert(all_white(cleaned(raw, number)));
        }
    }
    let bom = number == 1 && c[0] == '\u{feff}';
    let bc = if bom { c.drop_first() } else { c };
    assert(raw[0] == c[0]);
    assert(b[0] == c[0]);
    let r1 = if bom { raw.drop_first() } else { raw };
    let r2 = if bom { b.drop_first() } else { b };
    assert(r1 == bc + tail);
    assert(r2 == bc + x + tail);
    if tail.len() > 0 {
        assert(tail =~= seq!['\r']);
        assert(r1.last() == '\r');
        assert(r1.drop_last() =~= bc);
        assert(r2.last() == '\r');
        assert(r2.drop_last() =~= bc + x);
        assert(bc + x == bc + seq![' ', '#'] + note);
        note
    } else {
        assert(tail =~= Seq::<char>::empty());
        assert(r1 =~= bc);
        assert(r2 =~= bc + x);
        if bc.len() > 0 {
            assert(bc.last() == raw.last());
        }
        if note.len() > 0 && note.last() == '\r' {
            assert((bc + x).last() == note.last());
            assert((bc + x).drop_last() =~= bc + seq![' ', '#'] + note.drop_last());
            note.drop_last()
        } else {
            assert((bc + x).last() != '\r') by {
                if note.len() == 0 {
                    assert((bc + x).last() == '#');
                } else {
                    assert((bc + x).last() == note.last());
                }
            }
            assert(bc + x == bc + seq![' ', '#'] + note);
            note
        }
    }
}

/// A comment put after a line's content changes nothing: the line, with ` #`
/// and any note put before its line break, is read as the line alone. This
/// holds of every line with content whose quoted scalars close; on a line
/// that leaves a quote open the `#` would be inside the quote.
pub proof fn law_trailing_comments_are_ignored(raw: Seq<char>, note: Seq<char>, number: int)
    requires
        !all_white(cleaned(raw, number)),
        quotes_close(cleaned(raw, number)),
    ensures
        scan_line(with_comment(raw, note), number) == scan_line(raw, number),
{
    let r1 = cleaned(raw, number);
    let note2 = lemma_cleaned_with_comment(raw, note, number);
    let r2 = cleaned(with_comment(raw, note), number);
    let n = r1.len() as int;
    assert forall|j: int| 0 <= j < n implies r2[j] == r1[j] by {}
    assert(!all_white(r2)) by {
        let w = choose|j: int| 0 <= j < r1.len() && !is_white(r1[j]);
        assert(r2[w] == r1[w]);
    }
    let ind = skip_spaces(r1, 0);
    lemma_skip_spaces(r1, 0);
    assert(ind < n) by {
        if ind >= n {
            assert(all_white(r1));
        }
    }
    lemma_skip_spaces_prefix(r1, r2, 0);
    assert(r2[ind] == r1[ind]);
    if r1[ind] != '\t' && r1[ind] != '#' {
        lemma_comment_extend(r1, note2, ind, ind, true);
        let c1 = comment_from(r1, ind, ind, true);
        lemma_comment_from(r1, ind, ind, true);
        let p = if c1 < n { c1 } else { n };
        if c1 >= n {
            assert(trailing_blanks_from(r2, n + 1, ind) == trailing_blanks_from(r2, n, ind));
        }
        lemma_trailing_blanks_prefix(r1, r2, p, ind);
        let end = trailing_blanks_from(r1, p, ind);
        lemma_trailing_blanks(r1, p, ind);
        assert(r2.take(end) =~= r1.take(end));
    }
}

/// Blank and comment-only lines are read alike, and so is a line of content
/// with a comment added.
proof fn lemma_comment_edit(a: Seq<char>, b: Seq<char>, number: int)
    requires
        comment_edit(a, b, number),
    ensures
        scan_line(a, number) == scan_line(b, number),
{
    if b == a {
    } else if (all_white(cleaned(a, number)) || comment_line(a, number)) && (all_white(cleaned(b, number))
        || comment_line(b, number)) {
    } else {
        let note = choose|note: Seq<char>| #[trigger] with_comment(a, note) == b;
        law_trailing_comments_are_ignored(a, note, number);
    }
}

/// Comments change nothing: a text whose physical lines are those of another,
/// each the same, or a blank or comment line in place of a blank or comment
/// line, or a line of content with a comment added after it, reads exactly as
/// the other, with the same line on every node.
pub proof fn law_comments_change_nothing(t1: Seq<char>, t2: Seq<char>)
    requires
        split_lines(t1).len() == split_lines(t2).len(),
        forall|k: int|
            0 <= k < split_lines(t1).len() ==> comment_edit(#[trigger] split_lines(t1)[k], split_lines(t2)[k], k + 1),
    ensures
        parsed_text(t1) == parsed_text(t2),
{
    assert forall|k: int| 0 <= k < split_lines(t1).len() implies scan_line(#[trigger] split_lines(t1)[k], k + 1)
        == scan_line(split_lines(t2)[k], k + 1) by {
        lemma_comment_edit(split_lines(t1)[k], split_lines(t2)[k], k + 1);
    }
    law_same_lines_read_the_same(t1, t2);
}

proof fn lemma_skip_spaces_prefix(a: Seq<char>, b: Seq<char>, i: int)
    requires
        0 <= i,
        a.len() <= b.len(),
        forall|j: int| 0 <= j < a.len() ==> b[j] == a[j],
        skip_spaces(a, 0) < a.len(),
        i <= skip_spaces(a, 0),
    ensures
        skip_spaces(b, i) == skip_spaces(a, i),
    decreases a.len() - i,
{
    lemma_skip_spaces(a, i);
    lemma_skip_spaces(a, 0);
    if i < skip_spaces(a, 0) {
        assert(a[i] == ' ');
        lemma_skip_spaces_prefix(a, b, i + 1);
    }
}

/// How one character is written inside double quotes: a quote, a backslash
/// and the control characters that have a one-letter escape are escaped.
pub open spec fn double_quote_piece(c: char) -> Seq<char> {
    if c == '"' {
        seq!['\\', '"']
    } else if c == '\\' {
        seq!['\\', '\\']
    } else if c == '\n' {
        seq!['\\', 'n']
    } else if c == '\t' {
        seq!['\\', 't']
    } else if c == '\r' {
        seq!['\\', 'r']
    } else if c == '\0' {
        seq!['\\', '0']
    } else {
        seq![c]
    }
}

/// `s` written as the inside of a double-quoted scalar.
pub open spec fn escaped(s: Seq<char>) -> Seq<char>
    decreases s.len(),
{
    if s.len() == 0 {
        Seq::empty()
    } else {
        escaped(s.drop_last()) + double_quote_piece(s.last())
    }
}

/// `s` written as a double-quoted scalar.
pub open spec fn double_quoted(s: Seq<char>) -> Seq<char> {
    seq!['"'] + escaped(s) + seq!['"']
}

proof fn lemma_escaped_concat(a: Seq<char>, b: Seq<char>)
    ensures
        escaped(a + b) == escaped(a) + escaped(b),
    decreases b.len(),
{
    if b.len() == 0 {
        assert(a + b == a);
        assert(escaped(a) + escaped(b) == escaped(a));
    } else {
        lemma_escaped_concat(a, b.drop_last());
        assert((a + b).drop_last() == a + b.drop_last());
        assert((a + b).last() == b.last());
    }
}

proof fn lemma_escaped_split(s: Seq<char>, j: int)
    requires
        0 <= j < s.len(),
    ensures
        escaped(s) == escaped(s.take(j)) + double_quote_piece(s[j]) + escaped(s.skip(j + 1)),
        escaped(s.take(j + 1)) == escaped(s.take(j)) + double_quote_piece(s[j]),
{
    let c = s[j];
    assert(s == s.take(j) + (seq![c] + s.skip(j + 1)));
    lemma_escaped_concat(s.take(j), seq![c] + s.skip(j + 1));
    lemma_escaped_concat(seq![c], s.skip(j + 1));
    assert(seq![c].drop_last() == Seq::<char>::empty());
    assert(escaped(Seq::<char>::empty()) == Seq::<char>::empty());
    assert(Seq::<char>::empty() + double_quote_piece(c) == double_quote_piece(c));
    assert(escaped(seq![c]) == double_quote_piece(c));
    assert(s.take(j + 1).drop_last() == s.take(j));
    assert(s.take(j + 1).last() == c);
}

#[verifier::spinoff_prover]
#[verifier::rlimit(30)]
proof fn lemma_double_quoted_from(s: Seq<char>, rest: Seq<char>, number: int, j: int)
    requires
        0 <= j <= s.len(),
    ensures
        decode_from(double_quoted(s) + rest, '"', number, 0, 1 + escaped(s.take(j)).len() as int, s.take(j))
            == Ok::<(Seq<char>, int), ErrorView>((s, double_quoted(s).len() as int)),
    decreases s.len() - j,
{
    let text = double_quoted(s) + rest;
    let ej = escaped(s.take(j));
    let p: int = 1 + ej.len() as int;
    if j == s.len() {
        assert(s.take(j) == s);
        assert(text[p] == '"');
    } else {
        let c = s[j];
        let piece = double_quote_piece(c);
        lemma_escaped_split(s, j);
        let tail = escaped(s.skip(j + 1));
        assert(text == ej.insert(0, '"') + piece + tail + seq!['"'] + rest);
        assert(text[p] == piece[0]);
        if piece.len() == 2 {
            assert(text[p + 1] == piece[1]);
            assert(simple_escape(piece[1]) == Some(c));
        }
        assert(s.take(j + 1) == s.take(j).push(c));
        lemma_double_quoted_from(s, rest, number, j + 1);
    }
}

/// Double quoting reads back: a string written in double quotes, with quotes,
/// backslashes and the control characters escaped, reads as that same string,
/// the closing quote ending it.
pub proof fn law_double_quoted_scalars_read_back(s: Seq<char>, rest: Seq<char>, number: int)
    ensures
        decoded(double_quoted(s) + rest, number, 0) == Ok::<(Seq<char>, int), ErrorView>(
            (s, double_quoted(s).len() as int),
        ),
{
    assert(s.take(0) == Seq::<char>::empty());
    lemma_double_quoted_from(s, rest, number, 0);
}

// --- refusing what is not supported ---------------------------------------------------------------

/// A construct this reader does not support is refused by name wherever a
/// block or a value may start, rather than read as something else.
pub proof fn law_unsupported_constructs_are_refused(ls: Seq<LineView>, idx: int, col: int, indent: int)
    requires
        lines_ok(ls),
        0 <= idx < ls.len(),
        unsupported_feature(ls[idx].chars, col) is Some,
    ensures
        block_at(ls, idx, col, indent) matches Err(f) && f.kind == ErrorKind::UnsupportedFeature,
        inline_at(ls, idx, col) matches Err(f) && f.kind == ErrorKind::UnsupportedFeature,
{
}

// --- the shape of a mapping ------------------------------------------------------------------

/// The significant lines' numbers rise from each line to the next.
pub open spec fn numbers_rise(ls: Seq<LineView>) -> bool {
    forall|a: int, b: int| 0 <= a < b < ls.len() ==> (#[trigger] ls[a]).number < (#[trigger] ls[b]).number
}

/// The keys of `es` stand in rising line order, each at column `indent + 1`.
pub open spec fn keys_in_order(es: Seq<(KeyView, NodeView)>, indent: int) -> bool {
    &&& forall|a: int| 0 <= a < es.len() ==> (#[trigger] es[a]).0.col == indent + 1
    &&& forall|a: int, b: int| 0 <= a < b < es.len() ==> (#[trigger] es[a]).0.line < (#[trigger] es[b]).0.line
}

proof fn lemma_map_loop_shape(
    ls: Seq<LineView>,
    idx: int,
    col: int,
    indent: int,
    entries: Seq<(KeyView, NodeView)>,
)
    requires
        lines_fit(ls),
        numbers_rise(ls),
        0 <= indent,
        0 <= idx <= ls.len(),
        keys_in_order(entries, indent),
        distinct_keys(entries),
        idx < ls.len() ==> forall|a: int| 0 <= a < entries.len() ==> (#[trigger] entries[a]).0.line < ls[idx].number,
    ensures
        map_loop(ls, idx, col, indent, entries) matches Ok((es, i, c)) ==> {
            &&& entries.len() <= es.len()
            &&& forall|a: int| 0 <= a < entries.len() ==> es[a] == #[trigger] entries[a]
            &&& keys_in_order(es, indent)
            &&& distinct_keys(es)
            &&& idx <= i <= ls.len()
            &&& (i == ls.len() || c < indent)
            &&& (idx < ls.len() && col == indent) ==> entries.len() < es.len() && es[entries.len() as int].0.line
                == ls[idx].number && idx < i
        },
    decreases ls.len() - idx, usize::MAX - col,
{
    if 0 <= idx < ls.len() && col == indent && unsupported_at(ls, idx, col) is None && !dash_at(ls, idx, col) {
        lemma_key_at(ls, idx, col);
        if let Ok((key, c2)) = key_at(ls, idx, col) {
            if first_named(entries, key.name) is None {
                lemma_named_from_none(entries, key.name, 0);
                if let Ok((v, i3, c3)) = value_at(ls, idx, c2, key, indent) {
                    if moved_on(ls, idx, col, i3, c3) && idx < i3 {
                        let next = entries.push((key, v));
                        assert(keys_in_order(next, indent)) by {
                            assert forall|a: int, b: int| 0 <= a < b < next.len() implies (#[trigger] next[a]).0.line
                                < (#[trigger] next[b]).0.line by {
                                assert(next[a] == entries[a]);
                                if b < entries.len() {
                                    assert(next[b] == entries[b]);
                                }
                            }
                            assert forall|a: int| 0 <= a < next.len() implies (#[trigger] next[a]).0.col == indent
                                + 1 by {
                                if a < entries.len() {
                                    assert(next[a] == entries[a]);
                                }
                            }
                        }
                        assert(distinct_keys(next)) by {
                            assert forall|a: int, b: int| 0 <= a < b < next.len() implies (#[trigger] next[a]).0.name
                                != (#[trigger] next[b]).0.name by {
                                assert(next[a] == entries[a]);
                                if b < entries.len() {
                                    assert(next[b] == entries[b]);
                                }
                            }
                        }
                        assert(i3 < ls.len() ==> forall|a: int|
                            0 <= a < next.len() ==> (#[trigger] next[a]).0.line < ls[i3].number) by {
                            if i3 < ls.len() {
                                assert(ls[idx].number < ls[i3].number);
                                assert forall|a: int| 0 <= a < next.len() implies (#[trigger] next[a]).0.line
                                    < ls[i3].number by {
                                    if a < entries.len() {
                                        assert(next[a] == entries[a]);
                                    }
                                }
                            }
                        }
                        lemma_map_loop_shape(ls, i3, c3, indent, next);
                        if let Ok((es, i, c)) = map_loop(ls, i3, c3, indent, next) {
                            assert(es[entries.len() as int] == next[entries.len() as int]);
                            assert forall|a: int| 0 <= a < entries.len() implies es[a] == #[trigger] entries[a] by {
                                assert(es[a] == next[a]);
                            }
                        }
                    }
                }
            }
        }
    }
}

/// A mapping read from line `idx` at column `indent` holds at least one entry,
/// the first key on the mapping's own line; no key occurs twice; the keys stand
/// in the order of their lines, each at column `indent + 1`; and the reading
/// stops past the mapping's first line, at the end of the lines or on a line
/// indented less than `indent`.
pub proof fn law_mapping_keys_follow_the_lines(ls: Seq<LineView>, idx: int, indent: int)
    requires
        lines_fit(ls),
        numbers_rise(ls),
        0 <= indent,
        0 <= idx < ls.len(),
    ensures
        map_loop(ls, idx, indent, indent, Seq::empty()) matches Ok((es, i, c)) ==> {
            &&& es.len() > 0
            &&& es[0].0.line == ls[idx].number
            &&& distinct_keys(es)
            &&& keys_in_order(es, indent)
            &&& idx < i <= ls.len()
            &&& (i == ls.len() || c < indent)
        },
{
    lemma_map_loop_shape(ls, idx, indent, indent, Seq::empty());
}

// --- what the line numbers decide ----------------------------------------------------------

/// Two trees alike but for the lines their nodes and keys carry.
pub open spec fn same_shape(a: NodeView, b: NodeView) -> bool
    decreases a,
{
    match a.value {
        ValueView::Sequence(x) => match b.value {
            ValueView::Sequence(y) => x.len() == y.len() && forall|i: int|
                0 <= i < x.len() ==> same_shape(#[trigger] x[i], y[i]),
            _ => false,
        },
        ValueView::Mapping(x) => match b.value {
            ValueView::Mapping(y) => x.len() == y.len() && forall|i: int|
                0 <= i < x.len() ==> (#[trigger] x[i]).0.name == y[i].0.name && x[i].0.col == y[i].0.col
                    && same_shape(x[i].1, y[i].1),
            _ => false,
        },
        _ => b.value == a.value,
    }
}

/// Items alike, one for one, but for their lines.
pub open spec fn items_alike(x: Seq<NodeView>, y: Seq<NodeView>) -> bool {
    x.len() == y.len() && forall|i: int| 0 <= i < x.len() ==> same_shape(#[trigger] x[i], y[i])
}

/// Entries alike, one for one, but for their lines: the same key names and
/// columns, and values alike.
pub open spec fn entries_alike(x: Seq<(KeyView, NodeView)>, y: Seq<(KeyView, NodeView)>) -> bool {
    x.len() == y.len() && forall|i: int|
        0 <= i < x.len() ==> (#[trigger] x[i]).0.name == y[i].0.name && x[i].0.col == y[i].0.col && same_shape(
            x[i].1,
            y[i].1,
        )
}

/// The significant lines `ls2` are `ls1` numbered otherwise: the same lines, in
/// the same order, with the same indentation.
pub open spec fn renumbered(ls1: Seq<LineView>, ls2: Seq<LineView>) -> bool {
    &&& ls1.len() == ls2.len()
    &&& forall|k: int| 0 <= k < ls1.len() ==> (#[trigger] ls1[k]).chars == ls2[k].chars && ls1[k].indent == ls2[k].indent
}

proof fn lemma_decode_renumbered(s: Seq<char>, quote: char, n1: int, n2: int, start: int, i: int, out: Seq<char>)
    ensures
        (decode_from(s, quote, n1, start, i, out) is Ok || decode_from(s, quote, n2, start, i, out) is Ok)
            ==> decode_from(s, quote, n1, start, i, out) == decode_from(s, quote, n2, start, i, out),
    decreases s.len() + 1 - i,
{
    if 0 <= i < s.len() {
        let c = s[i];
        lemma_decode_renumbered(s, quote, n1, n2, start, i + 1, out.push(c));
        lemma_decode_renumbered(s, quote, n1, n2, start, i + 2, out.push('\''));
        if i + 1 < s.len() {
            if let Some(d) = simple_escape(s[i + 1]) {
                lemma_decode_renumbered(s, quote, n1, n2, start, i + 2, out.push(d));
            }
            assert((unicode_escape(s, n1, i) is Ok || unicode_escape(s, n2, i) is Ok) ==> unicode_escape(s, n1, i)
                == unicode_escape(s, n2, i));
            if let Ok((d, next)) = unicode_escape(s, n1, i) {
                lemma_decode_renumbered(s, quote, n1, n2, start, next, out.push(d));
            }
        }
    }
}

proof fn lemma_decoded_renumbered(s: Seq<char>, n1: int, n2: int, start: int)
    ensures
        (decoded(s, n1, start) is Ok || decoded(s, n2, start) is Ok) ==> decoded(s, n1, start) == decoded(s, n2, start),
{
    if 0 <= start < s.len() {
        lemma_decode_renumbered(s, s[start], n1, n2, start, start + 1, Seq::empty());
    }
}

proof fn lemma_inline_renumbered(ls1: Seq<LineView>, ls2: Seq<LineView>, idx: int, col: int)
    requires
        renumbered(ls1, ls2),
    ensures
        inline_at(ls1, idx, col) is Ok <==> inline_at(ls2, idx, col) is Ok,
        inline_at(ls1, idx, col) matches Ok(n1) ==> inline_at(ls2, idx, col) matches Ok(n2) && n1.value == n2.value,
{
    if 0 <= idx < ls1.len() {
        let s = ls1[idx].chars;
        assert(ls2[idx].chars == s);
        lemma_decoded_renumbered(s, ls1[idx].number, ls2[idx].number, col);
    }
}

proof fn lemma_key_renumbered(ls1: Seq<LineView>, ls2: Seq<LineView>, idx: int, col: int)
    requires
        renumbered(ls1, ls2),
    ensures
        key_at(ls1, idx, col) is Ok <==> key_at(ls2, idx, col) is Ok,
        key_at(ls1, idx, col) matches Ok((k1, c1)) ==> key_at(ls2, idx, col) matches Ok((k2, c2)) && k1.name == k2.name
            && k1.col == k2.col && c1 == c2,
{
    if 0 <= idx < ls1.len() {
        let s = ls1[idx].chars;
        assert(ls2[idx].chars == s);
        lemma_decoded_renumbered(s, ls1[idx].number, ls2[idx].number, col);
    }
}

proof fn lemma_named_alike(e1: Seq<(KeyView, NodeView)>, e2: Seq<(KeyView, NodeView)>, name: Seq<char>, k: int)
    requires
        entries_alike(e1, e2),
    ensures
        named_from(e1, name, k) == named_from(e2, name, k),
    decreases e1.len() - k,
{
    if 0 <= k < e1.len() {
        assert(e1[k].0.name == e2[k].0.name);
        lemma_named_alike(e1, e2, name, k + 1);
    }
}

proof fn lemma_block_alike(ls1: Seq<LineView>, ls2: Seq<LineView>, idx: int, col: int, indent: int)
    requires
        lines_ok(ls1),
        lines_ok(ls2),
        renumbered(ls1, ls2),
        0 <= idx < ls1.len(),
        0 <= col,
    ensures
        block_at(ls1, idx, col, indent) is Ok <==> block_at(ls2, idx, col, indent) is Ok,
        block_at(ls1, idx, col, indent) matches Ok((n1, i1, c1)) ==> block_at(ls2, idx, col, indent) matches Ok(
            (n2, i2, c2),
        ) && i1 == i2 && c1 == c2 && 0 <= c1 && same_shape(n1, n2),
    decreases ls1.len() - idx, usize::MAX - col, 2int,
{
    assert(ls1[idx].chars == ls2[idx].chars);
    if unsupported_at(ls1, idx, col) is None {
        if dash_at(ls1, idx, col) {
            lemma_seq_alike(ls1, ls2, idx, col, indent, Seq::empty(), Seq::empty());
        } else if key_sep(ls1[idx].chars, col) is Some {
            lemma_map_alike(ls1, ls2, idx, col, indent, Seq::empty(), Seq::empty());
        } else {
            lemma_inline_renumbered(ls1, ls2, idx, col);
            if idx + 1 < ls1.len() {
                assert(ls1[idx + 1].indent == ls2[idx + 1].indent);
            }
        }
    }
}

proof fn lemma_map_alike(
    ls1: Seq<LineView>,
    ls2: Seq<LineView>,
    idx: int,
    col: int,
    indent: int,
    e1: Seq<(KeyView, NodeView)>,
    e2: Seq<(KeyView, NodeView)>,
)
    requires
        lines_ok(ls1),
        lines_ok(ls2),
        renumbered(ls1, ls2),
        0 <= idx <= ls1.len(),
        0 <= col,
        entries_alike(e1, e2),
    ensures
        map_loop(ls1, idx, col, indent, e1) is Ok <==> map_loop(ls2, idx, col, indent, e2) is Ok,
        map_loop(ls1, idx, col, indent, e1) matches Ok((x1, i1, c1)) ==> map_loop(ls2, idx, col, indent, e2) matches Ok(
            (x2, i2, c2),
        ) && i1 == i2 && c1 == c2 && 0 <= c1 && entries_alike(x1, x2),
    decreases ls1.len() - idx, usize::MAX - col, 1int,
{
    if 0 <= idx < ls1.len() && col == indent {
        assert(ls1[idx].chars == ls2[idx].chars);
        if unsupported_at(ls1, idx, col) is None && !dash_at(ls1, idx, col) {
            lemma_key_renumbered(ls1, ls2, idx, col);
            lemma_key_at(ls1, idx, col);
            if let Ok((k1, kc)) = key_at(ls1, idx, col) {
                let k2 = (key_at(ls2, idx, col)->Ok_0).0;
                lemma_named_alike(e1, e2, k1.name, 0);
                if first_named(e1, k1.name) is None {
                    lemma_value_alike(ls1, ls2, idx, kc, k1, k2, indent);
                    if let Ok((v1, i3, c3)) = value_at(ls1, idx, kc, k1, indent) {
                        let v2 = (value_at(ls2, idx, kc, k2, indent)->Ok_0).0;
                        if moved_on(ls1, idx, col, i3, c3) {
                            let x1 = e1.push((k1, v1));
                            let x2 = e2.push((k2, v2));
                            assert(entries_alike(x1, x2)) by {
                                assert forall|i: int| 0 <= i < x1.len() implies (#[trigger] x1[i]).0.name
                                    == x2[i].0.name && x1[i].0.col == x2[i].0.col && same_shape(x1[i].1, x2[i].1) by {
                                    if i < e1.len() {
                                        assert(x1[i] == e1[i]);
                                        assert(x2[i] == e2[i]);
                                    }
                                }
                            }
                            lemma_map_alike(ls1, ls2, i3, c3, indent, x1, x2);
                        }
                    }
                }
            }
        }
    }
}

proof fn lemma_value_alike(
    ls1: Seq<LineView>,
    ls2: Seq<LineView>,
    idx: int,
    col: int,
    k1: KeyView,
    k2: KeyView,
    indent: int,
)
    requires
        lines_ok(ls1),
        lines_ok(ls2),
        renumbered(ls1, ls2),
        0 <= idx < ls1.len(),
        0 <= col,
    ensures
        value_at(ls1, idx, col, k1, indent) is Ok <==> value_at(ls2, idx, col, k2, indent) is Ok,
        value_at(ls1, idx, col, k1, indent) matches Ok((n1, i1, c1)) ==> value_at(ls2, idx, col, k2, indent) matches Ok(
            (n2, i2, c2),
        ) && i1 == i2 && c1 == c2 && 0 <= c1 && same_shape(n1, n2),
    decreases ls1.len() - idx, usize::MAX - col, 0int,
{
    assert(ls1[idx].chars == ls2[idx].chars);
    let i2 = idx + 1;
    if i2 < ls1.len() {
        assert(ls1[i2].indent == ls2[i2].indent);
        assert(ls1[i2].chars == ls2[i2].chars);
        assert(0 <= ls1[i2].indent);
    }
    if col < ls1[idx].chars.len() {
        lemma_inline_renumbered(ls1, ls2, idx, col);
    } else if i2 < ls1.len() {
        lemma_block_alike(ls1, ls2, i2, indent_at(ls1, i2), indent_at(ls1, i2));
    }
}

proof fn lemma_seq_alike(
    ls1: Seq<LineView>,
    ls2: Seq<LineView>,
    idx: int,
    col: int,
    indent: int,
    t1: Seq<NodeView>,
    t2: Seq<NodeView>,
)
    requires
        lines_ok(ls1),
        lines_ok(ls2),
        renumbered(ls1, ls2),
        0 <= idx <= ls1.len(),
        0 <= col,
        items_alike(t1, t2),
    ensures
        seq_loop(ls1, idx, col, indent, t1) is Ok <==> seq_loop(ls2, idx, col, indent, t2) is Ok,
        seq_loop(ls1, idx, col, indent, t1) matches Ok((x1, i1, c1)) ==> seq_loop(ls2, idx, col, indent, t2) matches Ok(
            (x2, i2, c2),
        ) && i1 == i2 && c1 == c2 && 0 <= c1 && items_alike(x1, x2),
    decreases ls1.len() - idx, usize::MAX - col, 1int,
{
    if 0 <= idx < ls1.len() && col == indent {
        assert(ls1[idx].chars == ls2[idx].chars);
        if unsupported_at(ls1, idx, col) is None && dash_at(ls1, idx, col) {
            let s = ls1[idx].chars;
            let c1 = skip_spaces(s, col + 1);
            lemma_skip_spaces(s, col + 1);
            let i2 = idx + 1;
            if i2 < ls1.len() {
                assert(ls1[i2].indent == ls2[i2].indent);
                assert(0 <= ls1[i2].indent);
            }
            let item1 = if c1 >= s.len() {
                let c2 = indent_at(ls1, i2);
                if 0 <= i2 < ls1.len() && c2 > col {
                    block_at(ls1, i2, c2, c2)
                } else {
                    Ok((NodeView { line: ls1[idx].number, value: ValueView::Null }, i2, c2))
                }
            } else {
                block_at(ls1, idx, c1, c1)
            };
            let item2 = if c1 >= s.len() {
                let c2 = indent_at(ls2, i2);
                if 0 <= i2 < ls2.len() && c2 > col {
                    block_at(ls2, i2, c2, c2)
                } else {
                    Ok((NodeView { line: ls2[idx].number, value: ValueView::Null }, i2, c2))
                }
            } else {
                block_at(ls2, idx, c1, c1)
            };
            if c1 >= s.len() {
                let c2 = indent_at(ls1, i2);
                if 0 <= i2 < ls1.len() && c2 > col {
                    lemma_block_alike(ls1, ls2, i2, c2, c2);
                }
            } else {
                lemma_block_alike(ls1, ls2, idx, c1, c1);
            }
            assert(item1 is Ok <==> item2 is Ok);
            if let Ok((n1, i3, c3)) = item1 {
                let n2 = (item2->Ok_0).0;
                assert(same_shape(n1, n2));
                if moved_on(ls1, idx, col, i3, c3) {
                    let x1 = t1.push(n1);
                    let x2 = t2.push(n2);
                    assert(items_alike(x1, x2)) by {
                        assert forall|i: int| 0 <= i < x1.len() implies same_shape(#[trigger] x1[i], x2[i]) by {
                            if i < t1.len() {
                                assert(x1[i] == t1[i]);
                                assert(x2[i] == t2[i]);
                            }
                        }
                    }
                    lemma_seq_alike(ls1, ls2, i3, c3, indent, x1, x2);
                }
            }
        }
    }
}

/// The numbers of the significant lines decide only the lines a tree carries,
/// never its shape: two documents made of the same significant lines, numbered
/// otherwise, either both read, to trees alike but for their lines, or both
/// fail.
pub proof fn law_line_numbers_do_not_shape_the_tree(ls1: Seq<LineView>, ls2: Seq<LineView>)
    requires
        lines_ok(ls1),
        renumbered(ls1, ls2),
    ensures
        document(ls1) is Ok <==> document(ls2) is Ok,
        document(ls1) matches Ok(n1) ==> document(ls2) matches Ok(n2) && same_shape(n1, n2),
{
    assert(lines_ok(ls2)) by {
        assert forall|k: int| 0 <= k < ls2.len() implies (#[trigger] ls2[k]).chars.len() <= usize::MAX by {
            assert(ls1[k].chars == ls2[k].chars);
        }
        assert forall|k: int| 0 <= k < ls2.len() implies 0 <= (#[trigger] ls2[k]).indent < ls2[k].chars.len() by {
            assert(ls1[k].chars == ls2[k].chars);
        }
    }
    if ls1.len() > 0 {
        assert(ls1[0].indent == ls2[0].indent);
        lemma_block_alike(ls1, ls2, 0, ls1[0].indent, ls1[0].indent);
    }
}

/// Two outcomes of the line pre-pass alike: both fail, or both give the same
/// significant lines, numbered otherwise.
pub open spec fn scans_alike(r1: Result<Seq<LineView>, ErrorView>, r2: Result<Seq<LineView>, ErrorView>) -> bool {
    &&& (r1 is Ok <==> r2 is Ok)
    &&& r1 matches Ok(a) ==> r2 matches Ok(b) && renumbered(a, b)
}

proof fn lemma_prepend_alike(
    l1: LineView,
    l2: LineView,
    r1: Result<Seq<LineView>, ErrorView>,
    r2: Result<Seq<LineView>, ErrorView>,
)
    requires
        l1.chars == l2.chars,
        l1.indent == l2.indent,
        scans_alike(r1, r2),
    ensures
        scans_alike(prepend(seq![l1], r1), prepend(seq![l2], r2)),
{
    if let Ok(a) = r1 {
        let b = r2->Ok_0;
        let x = seq![l1] + a;
        let y = seq![l2] + b;
        assert forall|k: int| 0 <= k < x.len() implies (#[trigger] x[k]).chars == y[k].chars && x[k].indent
            == y[k].indent by {
            if k > 0 {
                assert(x[k] == a[k - 1]);
                assert(y[k] == b[k - 1]);
            }
        }
    }
}

/// The pieces after an inserted line, each read one line further down.
proof fn lemma_scan_after(p1: Seq<Seq<char>>, p2: Seq<Seq<char>>, j: int, k: int)
    requires
        0 <= j <= k <= p1.len(),
        p2.len() == p1.len() + 1,
        forall|m: int| j <= m < p1.len() ==> #[trigger] p2[m + 1] == p1[m],
        j > 0 || p1.len() == 0 || !(p1[0].len() > 0 && p1[0][0] == '\u{feff}'),
    ensures
        scans_alike(scan_pieces(p1, k), scan_pieces(p2, k + 1)),
    decreases p1.len() - k,
{
    if k < p1.len() {
        let raw = p1[k];
        assert(p2[k + 1] == raw);
        assert(cleaned(raw, k + 1) == cleaned(raw, k + 2));
        lemma_scan_after(p1, p2, j, k + 1);
        if let LineScan::Keep(l1) = scan_line(raw, k + 1) {
            let l2 = scan_line(raw, k + 2)->Keep_0;
            lemma_prepend_alike(l1, l2, scan_pieces(p1, k + 1), scan_pieces(p2, k + 2));
        }
    }
}

/// The pieces before an inserted blank or comment line read the same.
proof fn lemma_scan_before(p1: Seq<Seq<char>>, p2: Seq<Seq<char>>, j: int, k: int)
    requires
        0 <= k <= j <= p1.len(),
        p2.len() == p1.len() + 1,
        forall|m: int| 0 <= m < j ==> #[trigger] p2[m] == p1[m],
        forall|m: int| j <= m < p1.len() ==> #[trigger] p2[m + 1] == p1[m],
        scan_line(p2[j], j + 1) is Skip,
        j > 0 || p1.len() == 0 || !(p1[0].len() > 0 && p1[0][0] == '\u{feff}'),
    ensures
        scans_alike(scan_pieces(p1, k), scan_pieces(p2, k)),
    decreases j - k,
{
    if k == j {
        assert(scan_pieces(p2, j) == scan_pieces(p2, j + 1));
        lemma_scan_after(p1, p2, j, j);
    } else {
        assert(p2[k] == p1[k]);
        lemma_scan_before(p1, p2, j, k + 1);
        if let LineScan::Keep(l) = scan_line(p1[k], k + 1) {
            lemma_prepend_alike(l, l, scan_pieces(p1, k + 1), scan_pieces(p2, k + 1));
        }
    }
}

/// Putting a blank or comment line into a text renumbers the lines after it
/// and changes nothing else: the text with the line `c` put before its line
/// `j + 1` reads to a tree alike but for its lines, or fails where the text
/// fails. (A byte-order mark that starts the text only counts on its first
/// line, so the line may not go before a first line that starts with one.)
pub proof fn law_inserted_comment_lines_keep_the_shape(t1: Seq<char>, t2: Seq<char>, j: int, c: Seq<char>)
    requires
        t1.len() <= usize::MAX,
        0 <= j <= split_lines(t1).len(),
        split_lines(t2) == split_lines(t1).take(j) + seq![c] + split_lines(t1).skip(j),
        all_white(cleaned(c, j + 1)) || comment_line(c, j + 1),
        j > 0 || !(split_lines(t1)[0].len() > 0 && split_lines(t1)[0][0] == '\u{feff}'),
    ensures
        parsed_text(t1) is Ok <==> parsed_text(t2) is Ok,
        parsed_text(t1) matches Ok(n1) ==> parsed_text(t2) matches Ok(n2) && same_shape(n1, n2),
{
    let p1 = split_lines(t1);
    let p2 = split_lines(t2);
    lemma_split_lines_len(t1);
    assert(p2.len() == p1.len() + 1);
    assert forall|m: int| 0 <= m < j implies #[trigger] p2[m] == p1[m] by {
        assert(p2[m] == p1.take(j)[m]);
    }
    assert forall|m: int| j <= m < p1.len() implies #[trigger] p2[m + 1] == p1[m] by {
        assert(p2[m + 1] == p1.skip(j)[m - j]);
    }
    assert(p2[j] == c);
    lemma_scan_before(p1, p2, j, 0);
    lemma_split_lines_pieces(t1);
    lemma_scan_pieces(p1, 0);
    if let Ok(ls1) = scan_text(t1) {
        assert(lines_ok(ls1)) by {
            assert forall|k: int| 0 <= k < ls1.len() implies (#[trigger] ls1[k]).chars.len() <= usize::MAX by {
                assert(p1[ls1[k].number - 1].len() <= t1.len());
            }
        }
        law_line_numbers_do_not_shape_the_tree(ls1, scan_text(t2)->Ok_0);
    }
}

// --- quoted scalars and the quote scan -------------------------------------------------------

/// `x` with each `''` read as one `'`, from left to right.
pub open spec fn undoubled(x: Seq<char>) -> Seq<char>
    decreases x.len(),
{
    if x.len() == 0 {
        Seq::empty()
    } else if x.len() >= 2 && x[0] == '\'' && x[1] == '\'' {
        seq!['\''] + undoubled(x.skip(2))
    } else {
        seq![x[0]] + undoubled(x.skip(1))
    }
}

proof fn lemma_single_decode_from(s: Seq<char>, number: int, start: int, i: int, out: Seq<char>)
    requires
        0 <= i <= s.len(),
    ensures
        match quoted_end_from(s, '\'', i) {
            Some(e) => decode_from(s, '\'', number, start, i, out) == Ok::<(Seq<char>, int), ErrorView>(
                (out + undoubled(s.subrange(i, e - 1)), e),
            ),
            None => decode_from(s, '\'', number, start, i, out) == Err::<(Seq<char>, int), ErrorView>(
                unterminated_fault(number, start, '\''),
            ),
        },
    decreases s.len() - i,
{
    if i < s.len() {
        let c = s[i];
        if c == '\'' && i + 1 < s.len() && s[i + 1] == '\'' {
            lemma_single_decode_from(s, number, start, i + 2, out.push('\''));
            lemma_quoted_end_from(s, '\'', i + 2);
            if let Some(e) = quoted_end_from(s, '\'', i + 2) {
                let x = s.subrange(i, e - 1);
                assert(x.skip(2) =~= s.subrange(i + 2, e - 1));
                assert(x[0] == '\'' && x[1] == '\'');
                assert(out.push('\'') + undoubled(x.skip(2)) =~= out + (seq!['\''] + undoubled(x.skip(2))));
            }
        } else if c == '\'' {
            assert(s.subrange(i, i) =~= Seq::<char>::empty());
            assert(out + Seq::<char>::empty() =~= out);
        } else {
            lemma_single_decode_from(s, number, start, i + 1, out.push(c));
            lemma_quoted_end_from(s, '\'', i + 1);
            if let Some(e) = quoted_end_from(s, '\'', i + 1) {
                let x = s.subrange(i, e - 1);
                assert(x.skip(1) =~= s.subrange(i + 1, e - 1));
                assert(x[0] == c);
                assert(out.push(c) + undoubled(x.skip(1)) =~= out + (seq![c] + undoubled(x.skip(1))));
            }
        }
    }
}

/// A single-quoted scalar reads as the characters between its quotes, each
/// `''` read as one `'`, and ends just past the closing quote that the quote
/// scan finds; with no closing quote on the line it is unterminated.
pub proof fn law_single_quoted_text_is_the_undoubled_slice(s: Seq<char>, number: int, start: int)
    requires
        0 <= start < s.len(),
        s[start] == '\'',
    ensures
        match quoted_end(s, start) {
            Some(e) => decoded(s, number, start) == Ok::<(Seq<char>, int), ErrorView>(
                (undoubled(s.subrange(start + 1, e - 1)), e),
            ),
            None => decoded(s, number, start) == Err::<(Seq<char>, int), ErrorView>(
                unterminated_fault(number, start, '\''),
            ),
        },
{
    lemma_single_decode_from(s, number, start, start + 1, Seq::empty());
    if let Some(e) = quoted_end(s, start) {
        assert(Seq::<char>::empty() + undoubled(s.subrange(start + 1, e - 1)) =~= undoubled(
            s.subrange(start + 1, e - 1),
        ));
    }
}

/// Four hexadecimal digits hold no quote and no backslash, so the quote scan
/// passes over them.
proof fn lemma_quote_scan_skips_hex(s: Seq<char>, at: int)
    requires
        hex4_value(s, at) is Some,
    ensures
        quoted_end_from(s, '"', at) == quoted_end_from(s, '"', at + 4),
{
    assert(s[at] != '"' && s[at] != '\\');
    assert(s[at + 1] != '"' && s[at + 1] != '\\');
    assert(s[at + 2] != '"' && s[at + 2] != '\\');
    assert(s[at + 3] != '"' && s[at + 3] != '\\');
    assert(quoted_end_from(s, '"', at + 3) == quoted_end_from(s, '"', at + 4));
    assert(quoted_end_from(s, '"', at + 2) == quoted_end_from(s, '"', at + 3));
    assert(quoted_end_from(s, '"', at + 1) == quoted_end_from(s, '"', at + 2));
}

proof fn lemma_unicode_escape_scan(s: Seq<char>, number: int, i: int)
    requires
        0 <= i,
        i + 1 < s.len(),
        unicode_escape(s, number, i) is Ok,
    ensures
        quoted_end_from(s, '"', i + 2) == quoted_end_from(s, '"', unicode_escape(s, number, i)->Ok_0.1),
{
    lemma_quote_scan_skips_hex(s, i + 2);
    let next = unicode_escape(s, number, i)->Ok_0.1;
    if next == i + 12 {
        assert(s[i + 6] == '\\');
        assert(quoted_end_from(s, '"', i + 6) == quoted_end_from(s, '"', i + 8));
        lemma_quote_scan_skips_hex(s, i + 8);
    }
}

proof fn lemma_double_decode_from(s: Seq<char>, number: int, start: int, i: int, out: Seq<char>)
    requires
        0 <= i,
    ensures
        decode_from(s, '"', number, start, i, out) matches Ok((_, e)) ==> quoted_end_from(s, '"', i) == Some(e) && 0
            < e <= s.len() && s[e - 1] == '"',
        decode_from(s, '"', number, start, i, out) matches Err(f) ==> f.line == number && (f.kind
            == ErrorKind::Syntax || f.kind == ErrorKind::UnterminatedQuote),
    decreases s.len() + 1 - i,
{
    if i < s.len() {
        let c = s[i];
        if c == '\\' && i + 1 < s.len() {
            let e = s[i + 1];
            if let Some(d) = simple_escape(e) {
                lemma_double_decode_from(s, number, start, i + 2, out.push(d));
            } else if e == 'u' {
                if let Ok((d, next)) = unicode_escape(s, number, i) {
                    lemma_unicode_escape_scan(s, number, i);
                    lemma_double_decode_from(s, number, start, next, out.push(d));
                }
            }
        } else if c != '\\' && c != '"' {
            lemma_double_decode_from(s, number, start, i + 1, out.push(c));
        }
    }
}

/// A double-quoted scalar that reads ends just past the closing quote that the
/// quote scan finds; one the scan finds no end for fails; and every failure is
/// a syntax or unterminated-quote failure on the scalar's line.
pub proof fn law_double_quoted_scalars_end_where_the_scan_ends(s: Seq<char>, number: int, start: int)
    requires
        0 <= start < s.len(),
        s[start] == '"',
    ensures
        decoded(s, number, start) matches Ok((_, e)) ==> quoted_end(s, start) == Some(e) && s[e - 1] == '"',
        quoted_end(s, start) is None ==> decoded(s, number, start) is Err,
        decoded(s, number, start) matches Err(f) ==> f.line == number && (f.kind == ErrorKind::Syntax || f.kind
            == ErrorKind::UnterminatedQuote),
{
    lemma_double_decode_from(s, number, start, start + 1, Seq::empty());
}

// --- what a significant line holds ------------------------------------------------------------

proof fn lemma_trailing_blanks_stop(s: Seq<char>, end: int, floor: int)
    requires
        0 <= floor,
        end <= s.len(),
    ensures
        ({
            let e = trailing_blanks_from(s, end, floor);
            e > floor ==> s[e - 1] != ' ' && s[e - 1] != '\t'
        }),
    decreases end - floor,
{
    if floor < end && (s[end - 1] == ' ' || s[end - 1] == '\t') {
        lemma_trailing_blanks_stop(s, end - 1, floor);
    }
}

proof fn lemma_leading_spaces_kept(r: Seq<char>, x: Seq<char>, ind: int, i: int)
    requires
        0 <= i <= ind < x.len() <= r.len(),
        x == r.take(x.len() as int),
        forall|j: int| 0 <= j < ind ==> r[j] == ' ',
        r[ind] != ' ',
    ensures
        skip_spaces(x, i) == ind,
    decreases ind - i,
{
    if i < ind {
        assert(x[i] == r[i]);
        lemma_leading_spaces_kept(r, x, ind, i + 1);
    } else {
        assert(x[ind] == r[ind]);
    }
}

/// What the pre-pass keeps of a physical line: its number; its indent, the
/// count of its leading spaces, with content after it that is no `#`; no
/// trailing space or tab; and a prefix of the line itself, once a byte-order
/// mark and a trailing carriage return are removed.
pub open spec fn trimmed_line(l: LineView, raw: Seq<char>) -> bool {
    &&& 0 <= l.indent < l.chars.len()
    &&& skip_spaces(l.chars, 0) == l.indent
    &&& l.chars[l.indent] != '#'
    &&& l.chars.last() != ' ' && l.chars.last() != '\t'
    &&& l.chars.is_prefix_of(cleaned(raw, l.number))
}

proof fn lemma_kept_line_trimmed(raw: Seq<char>, number: int)
    ensures
        scan_line(raw, number) matches LineScan::Keep(l) ==> l.number == number && trimmed_line(l, raw),
{
    if let LineScan::Keep(l) = scan_line(raw, number) {
        let r = cleaned(raw, number);
        let ind = skip_spaces(r, 0);
        lemma_skip_spaces(r, 0);
        let c0 = comment_from(r, ind, ind, true);
        lemma_comment_from(r, ind, ind, true);
        let end = trailing_blanks_from(r, c0, ind);
        lemma_trailing_blanks(r, c0, ind);
        lemma_trailing_blanks_stop(r, c0, ind);
        assert(l.chars == r.take(end));
        lemma_leading_spaces_kept(r, l.chars, ind, 0);
        assert(l.chars[ind] == r[ind]);
        assert(l.chars.last() == r[end - 1]);
        assert(l.chars =~= r.subrange(0, l.chars.len() as int));
    }
}

/// The significant lines of a text that scans: numbered by their physical
/// lines, in rising order and never renumbered, each trimmed as
/// [`trimmed_line`] says and a prefix of its physical line.
pub proof fn law_significant_lines_are_trimmed_prefixes(t: Seq<char>)
    ensures
        scan_text(t) matches Ok(ls) ==> {
            &&& forall|a: int, b: int| 0 <= a < b < ls.len() ==> (#[trigger] ls[a]).number < (#[trigger] ls[b]).number
            &&& forall|k: int|
                0 <= k < ls.len() ==> 1 <= (#[trigger] ls[k]).number <= split_lines(t).len() && trimmed_line(
                    ls[k],
                    split_lines(t)[ls[k].number - 1],
                )
        },
{
    let pieces = split_lines(t);
    lemma_scan_pieces(pieces, 0);
    if let Ok(ls) = scan_text(t) {
        assert forall|k: int| 0 <= k < ls.len() implies 1 <= (#[trigger] ls[k]).number <= pieces.len() && trimmed_line(
            ls[k],
            pieces[ls[k].number - 1],
        ) by {
            lemma_kept_line_trimmed(pieces[ls[k].number - 1], ls[k].number);
        }
    }
}

// --- the key separator --------------------------------------------------------------------------

/// Index `i` of `s` holds a `:` followed by a space or the line's end.
pub open spec fn separator_at(s: Seq<char>, i: int) -> bool {
    0 <= i < s.len() && s[i] == ':' && space_or_end(s, i + 1)
}

proof fn lemma_plain_sep_least(s: Seq<char>, i: int)
    requires
        0 <= i,
    ensures
        plain_sep_from(s, i) is None <==> forall|j: int| i <= j < s.len() ==> !separator_at(s, j),
        plain_sep_from(s, i) matches Some(k) ==> i <= k && separator_at(s, k) && forall|j: int|
            i <= j < k ==> !separator_at(s, j),
    decreases s.len() - i,
{
    if i < s.len() {
        lemma_plain_sep_least(s, i + 1);
        if plain_sep_from(s, i) is None {
            assert forall|j: int| i <= j < s.len() implies !separator_at(s, j) by {
                if j > i {
                    assert(!separator_at(s, j));
                }
            }
        } else if forall|j: int| i <= j < s.len() ==> !separator_at(s, j) {
            assert(!separator_at(s, i));
        }
    }
}

/// Where a mapping key that starts at `from` ends: a `:` followed by a space or
/// the line's end. A plain key ends at the first such `:` (there is none
/// exactly when no such `:` follows); a quoted key ends at the `:` that comes
/// first after its closing quote and any spaces, or is no key.
pub proof fn law_key_separator(s: Seq<char>, from: int)
    requires
        0 <= from,
    ensures
        key_sep(s, from) matches Some(i) ==> from <= i && separator_at(s, i),
        !(from < s.len() && (s[from] == '\'' || s[from] == '"')) ==> {
            &&& (key_sep(s, from) is None <==> forall|j: int| from <= j < s.len() ==> !separator_at(s, j))
            &&& key_sep(s, from) matches Some(i) ==> forall|j: int| from <= j < i ==> !separator_at(s, j)
        },
        from < s.len() && (s[from] == '\'' || s[from] == '"') ==> {
            &&& (key_sep(s, from) is Some <==> (quoted_end(s, from) matches Some(e) && separator_at(
                s,
                skip_spaces(s, e),
            )))
            &&& key_sep(s, from) matches Some(i) ==> i == skip_spaces(s, quoted_end(s, from)->Some_0)
        },
{
    lemma_plain_sep_least(s, from);
    lemma_quoted_end(s, from);
    if let Some(e) = quoted_end(s, from) {
        lemma_skip_spaces(s, e);
    }
}

// --- comments on lines without quotes -------------------------------------------------------------

proof fn lemma_quote_free_closes(s: Seq<char>, start: int, i: int, token_start: bool)
    requires
        forall|j: int| 0 <= j < s.len() ==> s[j] != '\'' && s[j] != '"',
    ensures
        quotes_close_from(s, start, i, token_start),
    decreases s.len() + 1 - i,
{
    if 0 <= i < s.len() {
        lemma_quote_free_closes(s, start, i + 1, token_start);
        lemma_quote_free_closes(s, start, i + 1, true);
        lemma_quote_free_closes(s, start, i + 1, false);
    }
}

/// A comment put after the content of a line that holds no quote character
/// changes nothing: there every quote closes, as the trailing-comment law asks.
pub proof fn law_quote_free_lines_take_comments(raw: Seq<char>, note: Seq<char>, number: int)
    requires
        !all_white(cleaned(raw, number)),
        forall|j: int| 0 <= j < raw.len() ==> raw[j] != '\'' && raw[j] != '"',
    ensures
        quotes_close(cleaned(raw, number)),
        scan_line(with_comment(raw, note), number) == scan_line(raw, number),
{
    let r = cleaned(raw, number);
    assert forall|j: int| 0 <= j < r.len() implies r[j] != '\'' && r[j] != '"' by {
        if number == 1 && raw.len() > 0 && raw[0] == '\u{feff}' {
            assert(r[j] == raw[j + 1]);
        } else {
            assert(r[j] == raw[j]);
        }
    }
    lemma_quote_free_closes(r, skip_spaces(r, 0), skip_spaces(r, 0), true);
    law_trailing_comments_are_ignored(raw, note, number);
}

proof fn lemma_skip_leading_spaces(r: Seq<char>, n: int, i: int)
    requires
        0 <= i <= n < r.len(),
        forall|j: int| 0 <= j < n ==> r[j] == ' ',
        r[n] != ' ',
    ensures
        skip_spaces(r, i) == n,
    decreases n - i,
{
    if i < n {
        lemma_skip_leading_spaces(r, n, i + 1);
    }
}

/// A line of spaces, a `#` and any text is a comment line, wherever it stands:
/// so it may take the place of a blank line (see
/// [`law_comments_change_nothing`]).
pub proof fn law_spaced_hash_lines_are_comments(spaces: Seq<char>, text: Seq<char>, number: int)
    requires
        forall|j: int| 0 <= j < spaces.len() ==> spaces[j] == ' ',
    ensures
        comment_line(spaces + seq!['#'] + text, number),
{
    let raw = spaces + seq!['#'] + text;
    let n = spaces.len() as int;
    assert(raw[n] == '#');
    assert(raw[0] != '\u{feff}') by {
        if n > 0 {
            assert(raw[0] == spaces[0]);
        }
    }
    let r = cleaned(raw, number);
    assert(r.len() > n);
    assert forall|j: int| 0 <= j < n implies r[j] == ' ' by {
        assert(r[j] == raw[j]);
        assert(raw[j] == spaces[j]);
    }
    assert(r[n] == '#');
    lemma_skip_leading_spaces(r, n, 0);
}

// --- progress ---------------------------------------------------------------------------------

proof fn lemma_block_progress(ls: Seq<LineView>, idx: int, col: int)
    requires
        lines_ok(ls),
        0 <= idx < ls.len(),
        0 <= col,
    ensures
        block_at(ls, idx, col, col) matches Ok((_, i, _)) ==> idx < i <= ls.len(),
    decreases ls.len() - idx, usize::MAX - col, 2int,
{
    if unsupported_at(ls, idx, col) is None {
        if dash_at(ls, idx, col) {
            lemma_seq_progress(ls, idx, col, col, Seq::empty());
        } else if key_sep(ls[idx].chars, col) is Some {
            lemma_map_progress(ls, idx, col, col, Seq::empty());
        }
    }
}

proof fn lemma_map_progress(ls: Seq<LineView>, idx: int, col: int, indent: int, entries: Seq<(KeyView, NodeView)>)
    requires
        lines_ok(ls),
        0 <= idx <= ls.len(),
        0 <= col,
    ensures
        map_loop(ls, idx, col, indent, entries) matches Ok((_, i, _)) ==> idx <= i <= ls.len() && (idx < ls.len()
            && col == indent ==> idx < i),
    decreases ls.len() - idx, usize::MAX - col, 1int,
{
    if 0 <= idx < ls.len() && col == indent && unsupported_at(ls, idx, col) is None && !dash_at(ls, idx, col) {
        lemma_key_at(ls, idx, col);
        if let Ok((key, c2)) = key_at(ls, idx, col) {
            if first_named(entries, key.name) is None {
                lemma_value_progress(ls, idx, c2, key, indent);
                if let Ok((v, i3, c3)) = value_at(ls, idx, c2, key, indent) {
                    lemma_map_progress(ls, i3, c3, indent, entries.push((key, v)));
                }
            }
        }
    }
}

proof fn lemma_value_progress(ls: Seq<LineView>, idx: int, col: int, key: KeyView, indent: int)
    requires
        lines_ok(ls),
        0 <= idx < ls.len(),
        0 <= col,
    ensures
        value_at(ls, idx, col, key, indent) matches Ok((_, i, c)) ==> idx < i <= ls.len() && 0 <= c,
    decreases ls.len() - idx, usize::MAX - col, 0int,
{
    let i2 = idx + 1;
    if i2 < ls.len() {
        assert(0 <= ls[i2].indent);
    }
    if col >= ls[idx].chars.len() && i2 < ls.len() {
        lemma_block_progress(ls, i2, indent_at(ls, i2));
        lemma_block_sound_col(ls, i2, indent_at(ls, i2));
    }
}

proof fn lemma_block_sound_col(ls: Seq<LineView>, idx: int, col: int)
    requires
        lines_ok(ls),
        0 <= idx < ls.len(),
        0 <= col,
    ensures
        block_at(ls, idx, col, col) matches Ok((_, _, c)) ==> 0 <= c,
{
    let ls2 = Seq::new(ls.len(), |k: int| LineView { number: 1, indent: ls[k].indent, chars: ls[k].chars });
    assert(numbers_within(ls2, 1));
    assert(lines_ok(ls2)) by {
        assert forall|k: int| 0 <= k < ls2.len() implies (#[trigger] ls2[k]).chars.len() <= usize::MAX by {
            assert(ls2[k].chars == ls[k].chars);
        }
    }
    lemma_block_sound(ls2, 1, idx, col, col);
    assert(renumbered(ls, ls2));
    lemma_block_alike(ls, ls2, idx, col, col);
}

proof fn lemma_seq_progress(ls: Seq<LineView>, idx: int, col: int, indent: int, items: Seq<NodeView>)
    requires
        lines_ok(ls),
        0 <= idx <= ls.len(),
        0 <= col,
    ensures
        seq_loop(ls, idx, col, indent, items) matches Ok((_, i, _)) ==> idx <= i <= ls.len() && (idx < ls.len()
            && col == indent && dash_at(ls, idx, col) && unsupported_at(ls, idx, col) is None ==> idx < i),
    decreases ls.len() - idx, usize::MAX - col, 1int,
{
    if 0 <= idx < ls.len() && col == indent && unsupported_at(ls, idx, col) is None && dash_at(ls, idx, col) {
        lemma_item_progress(ls, idx, col);
        if let Ok((n, i3, c3)) = seq_item(ls, idx, col) {
            lemma_seq_progress(ls, i3, c3, indent, items.push(n));
        }
    }
}

/// Reading the item of the dash at `(idx, col)`: the block after the dash, the
/// block indented under it, or null.
pub open spec fn seq_item(ls: Seq<LineView>, idx: int, col: int) -> Result<(NodeView, int, int), ErrorView>
    recommends
        0 <= idx < ls.len(),
{
    let s = ls[idx].chars;
    let c1 = skip_spaces(s, col + 1);
    if c1 >= s.len() {
        let i2 = idx + 1;
        let c2 = indent_at(ls, i2);
        if 0 <= i2 < ls.len() && c2 > col {
            block_at(ls, i2, c2, c2)
        } else {
            Ok((NodeView { line: ls[idx].number, value: ValueView::Null }, i2, c2))
        }
    } else {
        block_at(ls, idx, c1, c1)
    }
}

proof fn lemma_item_progress(ls: Seq<LineView>, idx: int, col: int)
    requires
        lines_ok(ls),
        0 <= idx < ls.len(),
        0 <= col,
    ensures
        seq_item(ls, idx, col) matches Ok((_, i, c)) ==> idx < i <= ls.len() && 0 <= c,
    decreases ls.len() - idx, usize::MAX - col, 0int,
{
    let s = ls[idx].chars;
    let c1 = skip_spaces(s, col + 1);
    lemma_skip_spaces(s, col + 1);
    let i2 = idx + 1;
    if i2 < ls.len() {
        assert(0 <= ls[i2].indent);
    }
    if c1 >= s.len() {
        if i2 < ls.len() && indent_at(ls, i2) > col {
            lemma_block_progress(ls, i2, indent_at(ls, i2));
            lemma_block_sound_col(ls, i2, indent_at(ls, i2));
        }
    } else {
        lemma_block_progress(ls, idx, c1);
        lemma_block_sound_col(ls, idx, c1);
    }
}

/// Reading a block always moves past the line it starts on, and stays within
/// the lines; so does reading the value of a key, and the item of a dash. So
/// the checks that a mapping or a sequence made progress never fail: every
/// entry and every item moves the reader on.
pub proof fn law_reading_always_moves_on(ls: Seq<LineView>, idx: int, col: int, key: KeyView)
    requires
        lines_ok(ls),
        0 <= idx < ls.len(),
        0 <= col,
    ensures
        block_at(ls, idx, col, col) matches Ok((_, i, _)) ==> idx < i <= ls.len(),
        forall|indent: int|
            #![trigger value_at(ls, idx, col, key, indent)]
            value_at(ls, idx, col, key, indent) matches Ok((_, i, c)) ==> moved_on(ls, idx, col, i, c),
        seq_item(ls, idx, col) matches Ok((_, i, c)) ==> moved_on(ls, idx, col, i, c),
{
    lemma_block_progress(ls, idx, col);
    lemma_item_progress(ls, idx, col);
    assert forall|indent: int| #![trigger value_at(ls, idx, col, key, indent)]
        (value_at(ls, idx, col, key, indent) matches Ok((_, i, c)) ==> moved_on(ls, idx, col, i, c)) by {
        lemma_value_progress(ls, idx, col, key, indent);
    }
}

// --- float forms ----------------------------------------------------------------------------------

/// An optional sign or none.
pub open spec fn sign_or_none(s: Seq<char>) -> bool {
    s == Seq::<char>::empty() || s == seq!['+'] || s == seq!['-']
}

/// The text `sign`, `whole`, then `.` and `frac` if `dot`, then `mark`,
/// `exp_sign` and `exp` if `has_exp`.
pub open spec fn number_text(
    sign: Seq<char>,
    whole: Seq<char>,
    dot: bool,
    frac: Seq<char>,
    has_exp: bool,
    mark: char,
    exp_sign: Seq<char>,
    exp: Seq<char>,
) -> Seq<char> {
    sign + whole + (if dot {
        seq!['.'] + frac
    } else {
        Seq::empty()
    }) + (if has_exp {
        seq![mark] + exp_sign + exp
    } else {
        Seq::empty()
    })
}

/// The parts of a number in decimal or exponent form: an optional sign;
/// digits; a `.` and more digits if `dot`; an exponent mark, an optional sign
/// and at least one digit if `has_exp`; a `.` or an exponent at least; and at
/// least one digit before the exponent.
pub open spec fn number_parts(
    sign: Seq<char>,
    whole: Seq<char>,
    dot: bool,
    frac: Seq<char>,
    has_exp: bool,
    mark: char,
    exp_sign: Seq<char>,
    exp: Seq<char>,
) -> bool {
    &&& sign_or_none(sign)
    &&& whole.len() > 0 || (dot && frac.len() > 0)
    &&& forall|k: int| 0 <= k < whole.len() ==> '0' <= #[trigger] whole[k] <= '9'
    &&& forall|k: int| 0 <= k < frac.len() ==> '0' <= #[trigger] frac[k] <= '9'
    &&& mark == 'e' || mark == 'E'
    &&& sign_or_none(exp_sign)
    &&& forall|k: int| 0 <= k < exp.len() ==> '0' <= #[trigger] exp[k] <= '9'
    &&& has_exp ==> exp.len() > 0
    &&& dot || has_exp
}

proof fn lemma_digit_run_digits(t: Seq<char>, i: int)
    requires
        0 <= i <= t.len(),
    ensures
        i <= digit_run(t, i) <= t.len(),
        forall|k: int| i <= k < digit_run(t, i) ==> is_digit(#[trigger] t[k]),
    decreases t.len() - i,
{
    if i < t.len() && is_digit(t[i]) {
        lemma_digit_run_digits(t, i + 1);
    }
}

proof fn lemma_digit_run_to(t: Seq<char>, i: int, j: int)
    requires
        0 <= i <= j <= t.len(),
        forall|k: int| i <= k < j ==> is_digit(#[trigger] t[k]),
        j == t.len() || !is_digit(t[j]),
    ensures
        digit_run(t, i) == j,
    decreases j - i,
{
    if i < j {
        lemma_digit_run_to(t, i + 1, j);
    }
}

/// A plain scalar in decimal or exponent form is a float, kept as its text,
/// however many digits stand before and after its point: an optional sign,
/// digits, then a `.` and more digits, or an exponent (`e` or `E`, an optional
/// sign and digits), or both, with at least one digit before the exponent.
pub proof fn law_decimal_and_exponent_forms_are_floats(
    sign: Seq<char>,
    whole: Seq<char>,
    dot: bool,
    frac: Seq<char>,
    has_exp: bool,
    mark: char,
    exp_sign: Seq<char>,
    exp: Seq<char>,
)
    requires
        number_parts(sign, whole, dot, frac, has_exp, mark, exp_sign, exp),
    ensures
        typed_scalar(number_text(sign, whole, dot, frac, has_exp, mark, exp_sign, exp)) == ValueView::Float(
            number_text(sign, whole, dot, frac, has_exp, mark, exp_sign, exp),
        ),
{
    let fpart = if dot { seq!['.'] + frac } else { Seq::<char>::empty() };
    let epart = if has_exp { seq![mark] + exp_sign + exp } else { Seq::<char>::empty() };
    let t = number_text(sign, whole, dot, frac, has_exp, mark, exp_sign, exp);
    assert(t == sign + whole + fpart + epart);
    let i0 = sign.len() as int;
    let i1 = i0 + whole.len();
    let i2 = i1 + fpart.len();
    let i3 = i2 + if has_exp { 1 + exp_sign.len() } else { 0 };
    assert(t.len() == i2 + epart.len());
    assert forall|k: int| 0 <= k < i0 implies #[trigger] t[k] == sign[k] by {}
    assert forall|k: int| i0 <= k < i1 implies #[trigger] t[k] == whole[k - i0] by {}
    assert forall|k: int| i1 <= k < i2 implies #[trigger] t[k] == fpart[k - i1] by {}
    assert forall|k: int| i2 <= k < t.len() implies #[trigger] t[k] == epart[k - i2] by {}
    // The sign.
    assert(t.len() > 0);
    assert((t[0] == '+' || t[0] == '-') == (i0 == 1)) by {
        if i0 == 0 {
            if whole.len() > 0 {
                assert(t[0] == whole[0]);
            } else {
                assert(t[0] == fpart[0]);
            }
        }
    }
    // The whole digits.
    assert forall|k: int| i0 <= k < i1 implies is_digit(#[trigger] t[k]) by {
        assert(t[k] == whole[k - i0]);
    }
    assert(i1 == t.len() || !is_digit(t[i1])) by {
        if i1 < t.len() {
            if dot {
                assert(t[i1] == '.');
            } else {
                assert(t[i1] == epart[0]);
                assert(epart[0] == mark);
            }
        }
    }
    lemma_digit_run_to(t, i0, i1);
    // The point and the fraction.
    assert((0 <= i1 < t.len() && t[i1] == '.') == dot) by {
        if dot {
            assert(t[i1] == fpart[0]);
        } else if i1 < t.len() {
            assert(t[i1] == epart[0]);
        }
    }
    if dot {
        assert forall|k: int| i1 + 1 <= k < i2 implies is_digit(#[trigger] t[k]) by {
            assert(t[k] == fpart[k - i1]);
            assert(fpart[k - i1] == frac[k - i1 - 1]);
        }
        assert(i2 == t.len() || !is_digit(t[i2])) by {
            if i2 < t.len() {
                assert(t[i2] == epart[0]);
            }
        }
        lemma_digit_run_to(t, i1 + 1, i2);
    }
    // The exponent.
    assert((0 <= i2 < t.len() && (t[i2] == 'e' || t[i2] == 'E')) == has_exp) by {
        if has_exp {
            assert(t[i2] == epart[0]);
        }
    }
    if has_exp {
        assert((i2 + 1 < t.len() && (t[i2 + 1] == '+' || t[i2 + 1] == '-')) == (exp_sign.len() == 1)) by {
            assert(t[i2 + 1] == epart[1]);
            if exp_sign.len() == 0 {
                assert(epart[1] == exp[0]);
            } else {
                assert(epart[1] == exp_sign[0]);
            }
        }
        assert forall|k: int| i3 <= k < t.len() implies is_digit(#[trigger] t[k]) by {
            assert(t[k] == epart[k - i2]);
            assert(epart[k - i2] == exp[k - i3]);
        }
        lemma_digit_run_to(t, i3, t.len() as int);
    }
    assert(float_syntax(t));
    // Not null, a boolean or an integer.
    reveal_strlit("~");
    reveal_strlit("null");
    reveal_strlit("Null");
    reveal_strlit("NULL");
    reveal_strlit("true");
    reveal_strlit("True");
    reveal_strlit("TRUE");
    reveal_strlit("false");
    reveal_strlit("False");
    reveal_strlit("FALSE");
    assert(t[0] == '+' || t[0] == '-' || t[0] == '.' || is_digit(t[0])) by {
        if i0 == 0 {
            if whole.len() > 0 {
                assert(t[0] == whole[0]);
            } else {
                assert(t[0] == fpart[0]);
            }
        }
    }
    let ds = int_parts(t).1;
    assert(ds == t.skip(i0));
    let p = if dot { i1 } else { i2 };
    assert(!is_digit(t[p])) by {
        if dot {
            assert(t[i1] == '.');
        } else {
            assert(t[i2] == epart[0]);
        }
    }
    assert(ds[p - i0] == t[p]);
    assert(!all_digits(ds));
    assert(int_value(t) is None);
}

// --- hexadecimal digits ---------------------------------------------------------------------------

/// The hexadecimal digits in lower case, in order of value.
pub open spec fn lower_hex() -> Seq<char> {
    seq!['0', '1', '2', '3', '4', '5', '6', '7', '8', '9', 'a', 'b', 'c', 'd', 'e', 'f']
}

/// The hexadecimal digits in upper case, in order of value.
pub open spec fn upper_hex() -> Seq<char> {
    seq!['0', '1', '2', '3', '4', '5', '6', '7', '8', '9', 'A', 'B', 'C', 'D', 'E', 'F']
}

/// Whether `c` is the hexadecimal digit of value `v`, in either case.
pub open spec fn hex_digit_of(c: char, v: int) -> bool {
    0 <= v < 16 && (lower_hex()[v] == c || upper_hex()[v] == c)
}

/// A character has a hexadecimal value exactly when it is one of `0-9`, `a-f`
/// or `A-F`, and the value is its place among the digits: `a` and `A` are both
/// 10, `f` and `F` both 15.
pub proof fn law_hex_digits_of_either_case(c: char, v: int)
    ensures
        hex_value(c) == Some(v) <==> hex_digit_of(c, v),
        hex_value(c) is None <==> forall|w: int| 0 <= w < 16 ==> !hex_digit_of(c, w),
{
    if hex_value(c) is Some {
        let w = hex_value(c)->Some_0;
        assert(hex_digit_of(c, w));
        if hex_digit_of(c, v) {
            assert(v == w);
        }
    } else {
        assert forall|w: int| 0 <= w < 16 implies !hex_digit_of(c, w) by {}
    }
}

/// A `\u` escape of any four hexadecimal digits, in either case, decodes to
/// the character with that code point when it is a scalar value that is not a
/// surrogate: `"\u00C9"` and `"\u00c9"` are both `É`.
pub proof fn law_unicode_escapes_of_either_case(
    h0: char,
    h1: char,
    h2: char,
    h3: char,
    v0: int,
    v1: int,
    v2: int,
    v3: int,
    number: int,
)
    requires
        hex_digit_of(h0, v0),
        hex_digit_of(h1, v1),
        hex_digit_of(h2, v2),
        hex_digit_of(h3, v3),
        is_scalar_value(((v0 * 16 + v1) * 16 + v2) * 16 + v3),
    ensures
        ({
            let s = seq!['"', '\\', 'u', h0, h1, h2, h3, '"'];
            let code = ((v0 * 16 + v1) * 16 + v2) * 16 + v3;
            decoded(s, number, 0) == Ok::<(Seq<char>, int), ErrorView>((seq![code as char], 8))
        }),
{
    let s = seq!['"', '\\', 'u', h0, h1, h2, h3, '"'];
    let code = ((v0 * 16 + v1) * 16 + v2) * 16 + v3;
    law_hex_digits_of_either_case(h0, v0);
    law_hex_digits_of_either_case(h1, v1);
    law_hex_digits_of_either_case(h2, v2);
    law_hex_digits_of_either_case(h3, v3);
    assert(s[3] == h0 && s[4] == h1 && s[5] == h2 && s[6] == h3);
    assert(hex4_value(s, 3) == Some(code));
    assert(unicode_escape(s, number, 1) == Ok::<(char, int), ErrorView>((code as char, 7)));
    assert(simple_escape('u') is None);
    assert(decode_from(s, '"', number, 0, 7, seq![code as char]) == Ok::<(Seq<char>, int), ErrorView>(
        (seq![code as char], 8),
    ));
    assert(Seq::<char>::empty().push(code as char) == seq![code as char]);
}

// --- plain key names ------------------------------------------------------------------------------

proof fn lemma_trim_end_shape(x: Seq<char>)
    ensures
        trim_end(x).len() <= x.len(),
        trim_end(x) == x.take(trim_end(x).len() as int),
        trim_end(x).len() > 0 ==> !is_white(trim_end(x).last()),
        forall|j: int| trim_end(x).len() <= j < x.len() ==> is_white(#[trigger] x[j]),
    decreases x.len(),
{
    if x.len() > 0 && is_white(x.last()) {
        lemma_trim_end_shape(x.drop_last());
        let t = trim_end(x.drop_last());
        assert(x.drop_last().take(t.len() as int) == x.take(t.len() as int));
        assert forall|j: int| t.len() <= j < x.len() implies is_white(#[trigger] x[j]) by {
            if j < x.len() - 1 {
                assert(x[j] == x.drop_last()[j]);
            }
        }
    } else {
        assert(x.take(x.len() as int) == x);
    }
}

/// A plain mapping key is the text from the key's first character up to its
/// separating `:` with trailing whitespace removed: the name is what the line
/// holds from the key's column on, it does not end in whitespace, and only
/// whitespace stands between it and the `:`. The key is on its line, at the
/// column it starts at (1-based), and its value starts after the `:` and any
/// spaces.
pub proof fn law_plain_key_names_are_trimmed(ls: Seq<LineView>, idx: int, col: int)
    requires
        0 <= idx < ls.len(),
        0 <= col < ls[idx].chars.len(),
        ls[idx].chars[col] != '\'',
        ls[idx].chars[col] != '"',
    ensures
        key_at(ls, idx, col) matches Ok((k, c2)) ==> {
            let s = ls[idx].chars;
            let n = k.name.len() as int;
            &&& key_sep(s, col) matches Some(sep) && {
                &&& s[sep] == ':'
                &&& col + n <= sep
                &&& k.name == s.subrange(col, col + n)
                &&& forall|j: int| col + n <= j < sep ==> is_white(#[trigger] s[j])
                &&& c2 == skip_spaces(s, sep + 1)
            }
            &&& n > 0
            &&& !is_white(k.name.last())
            &&& k.line == ls[idx].number
            &&& k.col == col + 1
        },
{
    let s = ls[idx].chars;
    lemma_key_sep(s, col);
    if let Some(sep) = key_sep(s, col) {
        let x = s.subrange(col, sep);
        assert(clamped(s, col, sep) == x);
        lemma_trim_end_shape(x);
        let n = trim_end(x).len() as int;
        assert(trim_end(x) =~= s.subrange(col, col + n));
        assert forall|j: int| col + n <= j < sep implies is_white(#[trigger] s[j]) by {
            assert(s[j] == x[j - col]);
        }
    }
}

/// Only numbers in decimal or exponent form are floats: a plain scalar typed
/// as a float is its own text, and that text is an optional sign, digits, then
/// a `.` and digits or an exponent or both, as [`number_parts`] says. So
/// `1.2.3`, `2026-08-22` or `1e` stay strings.
#[verifier::spinoff_prover]
#[verifier::rlimit(60)]
pub proof fn law_floats_have_the_number_form(t: Seq<char>)
    ensures
        typed_scalar(t) matches ValueView::Float(x) ==> x == t && exists|
            sign: Seq<char>,
            whole: Seq<char>,
            dot: bool,
            frac: Seq<char>,
            has_exp: bool,
            mark: char,
            exp_sign: Seq<char>,
            exp: Seq<char>,
        |
            #![trigger number_text(sign, whole, dot, frac, has_exp, mark, exp_sign, exp)]
            number_parts(sign, whole, dot, frac, has_exp, mark, exp_sign, exp) && t == number_text(
                sign,
                whole,
                dot,
                frac,
                has_exp,
                mark,
                exp_sign,
                exp,
            ),
{
    if float_syntax(t) {
        let i0: int = if t.len() > 0 && (t[0] == '+' || t[0] == '-') { 1 } else { 0 };
        lemma_digit_run_digits(t, i0);
        let i1 = digit_run(t, i0);
        let dot = 0 <= i1 < t.len() && t[i1] == '.';
        if dot {
            lemma_digit_run_digits(t, i1 + 1);
        }
        let i2 = if dot { digit_run(t, i1 + 1) } else { i1 };
        let has_exp = 0 <= i2 < t.len() && (t[i2] == 'e' || t[i2] == 'E');
        let i3 = if has_exp {
            if i2 + 1 < t.len() && (t[i2 + 1] == '+' || t[i2 + 1] == '-') { i2 + 2 } else { i2 + 1 }
        } else {
            i2
        };
        if has_exp {
            lemma_digit_run_digits(t, i3);
        }
        let i4 = if has_exp { digit_run(t, i3) } else { i3 };
        let sign = t.take(i0);
        let whole = t.subrange(i0, i1);
        let frac = if dot { t.subrange(i1 + 1, i2) } else { Seq::<char>::empty() };
        let mark = if has_exp { t[i2] } else { 'e' };
        let exp_sign = if has_exp { t.subrange(i2 + 1, i3) } else { Seq::<char>::empty() };
        let exp = if has_exp { t.subrange(i3, i4) } else { Seq::<char>::empty() };
        assert(sign_or_none(sign)) by {
            if i0 == 1 {
                if t[0] == '+' {
                    assert(sign =~= seq!['+']);
                } else {
                    assert(sign =~= seq!['-']);
                }
            } else {
                assert(sign =~= Seq::<char>::empty());
            }
        }
        assert(sign_or_none(exp_sign)) by {
            if has_exp && i3 == i2 + 2 {
                if t[i2 + 1] == '+' {
                    assert(exp_sign =~= seq!['+']);
                } else {
                    assert(exp_sign =~= seq!['-']);
                }
            } else {
                assert(exp_sign =~= Seq::<char>::empty());
            }
        }
        assert forall|k: int| 0 <= k < whole.len() implies '0' <= #[trigger] whole[k] <= '9' by {
            assert(whole[k] == t[i0 + k]);
        }
        assert forall|k: int| 0 <= k < frac.len() implies '0' <= #[trigger] frac[k] <= '9' by {
            assert(frac[k] == t[i1 + 1 + k]);
        }
        assert forall|k: int| 0 <= k < exp.len() implies '0' <= #[trigger] exp[k] <= '9' by {
            assert(exp[k] == t[i3 + k]);
        }
        assert(number_parts(sign, whole, dot, frac, has_exp, mark, exp_sign, exp));
        let fpart = if dot { seq!['.'] + frac } else { Seq::<char>::empty() };
        let epart = if has_exp { seq![mark] + exp_sign + exp } else { Seq::<char>::empty() };
        assert(t =~= sign + whole + fpart + epart) by {
            assert(t.len() == i4);
            assert forall|k: int| 0 <= k < t.len() implies t[k] == (sign + whole + fpart + epart)[k] by {
                if k < i0 {
                } else if k < i1 {
                } else if k < i2 {
                    if k == i1 {
                        assert(fpart[0] == '.');
                    } else {
                        assert(fpart[k - i1] == frac[k - i1 - 1]);
                    }
                } else {
                    if k == i2 {
                        assert(epart[0] == mark);
                    } else if k < i3 {
                        assert(epart[k - i2] == exp_sign[k - i2 - 1]);
                    } else {
                        assert(epart[k - i2] == exp[k - i3]);
                    }
                }
            }
        }
        assert(t == number_text(sign, whole, dot, frac, has_exp, mark, exp_sign, exp));
    }
}

} // verus!
