use std::path::{Path, PathBuf};

use mc::yaml::{
    check_unsupported, decode_quoted, decode_unicode, eof, err, find_key_sep, hex4, parse_int, parse_str,
    scan_lines, scan_quoted_end, slice, strip_comment, ErrorKind, Node, Parser, Value,
};

fn chars(s: &str) -> Vec<char> {
    s.chars().collect()
}

fn walk_lines(node: &Node, out: &mut Vec<usize>) {
    out.push(node.line);
    match &node.value {
        Value::Sequence(items) => {
            for item in items {
                walk_lines(item, out);
            }
        }
        Value::Mapping(entries) => {
            for (key, value) in entries {
                assert!(key.col >= 1);
                out.push(key.line);
                walk_lines(value, out);
            }
        }
        _ => {}
    }
}

#[test]
fn every_node_and_key_carries_a_line_of_the_text() {
    let text = "# header\nlayer: dwh\n\ncolumns:\n  - name: a\n    tags:\n      - x\n  -\n    name: b\n";
    let doc = parse_str(text, Path::new("t.yml")).unwrap();
    let mut lines = Vec::new();
    walk_lines(&doc, &mut lines);
    let physical = text.split('\n').count();
    assert!(lines.iter().all(|l| *l >= 1 && *l <= physical), "{lines:?}");
    assert_eq!(doc.get("columns").and_then(|c| c.as_seq()).map(|s| s[1].line), Some(9));
}

#[test]
fn a_duplicate_deep_in_the_tree_is_refused() {
    let e = parse_str("a:\n  - b:\n      c: 1\n      c: 2\n", Path::new("t.yml")).unwrap_err();
    assert_eq!(e.kind, ErrorKind::DuplicateKey);
    assert_eq!((e.line, e.col), (4, 7));
    assert_eq!(e.message, "duplicate mapping key 'c': first defined on line 3");
}

#[test]
fn every_failure_names_a_line_and_a_column() {
    for src in [
        "a: 1\n\tb: 2\n",
        "a:\n  b: 'x\n",
        "k: [1]\n",
        "a: 1\na: 2\n",
        "x\ny: 1\n",
        "a:\n  - 1\n - 2\n",
        "- a\nb: 1\n",
        "a: \"\\x\"\n",
    ] {
        let e = parse_str(src, Path::new("t.yml")).unwrap_err();
        let physical = src.split('\n').count();
        assert!(e.line >= 1 && e.line <= physical, "{src:?}: {}", e.to_string());
        assert!(e.col >= 1, "{src:?}");
        assert_ne!(e.kind, ErrorKind::Io);
    }
}

#[test]
fn significant_lines_keep_their_physical_numbers() {
    let lines = scan_lines("a: 1\n\n  # c\n  b: 2   # d\n", Path::new("t.yml")).unwrap();
    assert_eq!(lines.len(), 2);
    assert_eq!((lines[0].number, lines[0].indent), (1, 0));
    assert_eq!((lines[1].number, lines[1].indent), (4, 2));
    assert_eq!(lines[1].chars, chars("  b: 2"));
    let e = scan_lines("ok: 1\n  \tx: 2\n", Path::new("t.yml")).err().unwrap();
    assert_eq!((e.kind, e.line, e.col), (ErrorKind::Indentation, 2, 3));
}

#[test]
fn blank_and_comment_documents_are_null_at_line_one() {
    for src in ["  \n\t\n", "# a\n   # b\n", "\u{feff}\r\n"] {
        let doc = parse_str(src, Path::new("t.yml")).unwrap();
        assert_eq!((doc.value, doc.line), (Value::Null, 1), "{src:?}");
    }
}

#[test]
fn lookup_finds_the_entry_with_the_key() {
    let doc = parse_str("a: 1\nb: 2\nc: 3\n", Path::new("t.yml")).unwrap();
    assert_eq!(doc.get("b").map(|n| n.value.clone()), Some(Value::Int(2)));
    assert_eq!(doc.get_key("c").map(|k| (k.line, k.col)), Some((3, 1)));
    assert!(doc.get("d").is_none() && doc.get_key("d").is_none());
    let entries = doc.as_map().unwrap();
    assert_eq!(entries.len(), 3);
    assert_eq!(entries[2].0.name, "c");
}

#[test]
fn only_the_six_spellings_are_booleans() {
    for (text, expected) in [("tRUE", None), ("yes", None), ("Off", None), ("FALSE", Some(false)), ("True", Some(true))] {
        let doc = parse_str(&format!("k: {text}\n"), Path::new("t.yml")).unwrap();
        assert_eq!(doc.get("k").and_then(|n| n.as_bool()), expected, "{text}");
    }
}

#[test]
fn integers_read_back_and_out_of_range_ones_stay_strings() {
    for v in [i64::MIN, -1, 0, 7, i64::MAX] {
        let doc = parse_str(&format!("k: {v}\n"), Path::new("t.yml")).unwrap();
        assert_eq!(doc.get("k").and_then(|n| n.as_int()), Some(v));
    }
    for text in ["9223372036854775808", "-9223372036854775809", "-01", "+00", "0x10", "1_000"] {
        let doc = parse_str(&format!("k: {text}\n"), Path::new("t.yml")).unwrap();
        assert_eq!(doc.get("k").and_then(|n| n.as_str()), Some(text), "{text}");
    }
    assert_eq!(parse_int("+7"), Some(7));
    assert_eq!(parse_int("-0"), Some(0));
    assert_eq!(parse_int("007"), None);
    assert_eq!(parse_int("-"), None);
    assert_eq!(parse_int("-9223372036854775808"), Some(i64::MIN));
}

#[test]
fn float_texts_are_kept_exactly() {
    let doc = parse_str("a: 5.\nb: .5\nc: +1.5E+2\nd: 1e\ne: .\n", Path::new("t.yml")).unwrap();
    assert_eq!(doc.get("a").and_then(|n| n.as_float()), Some("5."));
    assert_eq!(doc.get("b").and_then(|n| n.as_float()), Some(".5"));
    assert_eq!(doc.get("c").and_then(|n| n.as_float()), Some("+1.5E+2"));
    assert_eq!(doc.get("c").and_then(|n| n.as_float()).and_then(|t| t.parse::<f64>().ok()), Some(150.0));
    assert_eq!(doc.get("d").and_then(|n| n.as_str()), Some("1e"));
    assert_eq!(doc.get("e").and_then(|n| n.as_str()), Some("."));
}

#[test]
fn quoted_scalars_read_back_as_written() {
    let doc = parse_str("a: 'null'\nb: 'x''y''z'\nc: ''''\n", Path::new("t.yml")).unwrap();
    assert_eq!(doc.get("a").and_then(|n| n.as_str()), Some("null"));
    assert_eq!(doc.get("b").and_then(|n| n.as_str()), Some("x'y'z"));
    assert_eq!(doc.get("c").and_then(|n| n.as_str()), Some("'"));
}

#[test]
fn a_trailing_comment_changes_nothing() {
    let plain = parse_str("owner: data-platform\ncount: 3\n", Path::new("t.yml")).unwrap();
    let commented = parse_str("owner: data-platform # team\ncount: 3 #\n", Path::new("t.yml")).unwrap();
    assert_eq!(plain, commented);
}

#[test]
fn errors_render_with_and_without_a_line() {
    let e = err(Path::new("dir/x.yml"), ErrorKind::Io, 0, 0, "could not read file: gone".to_string());
    assert_eq!(e.to_string(), "dir/x.yml: error: could not read file: gone");
    assert_eq!(e.file, PathBuf::from("dir/x.yml"));
    let copy = e.clone();
    assert_eq!(copy, e);
    let e = eof(Path::new("y.yml"));
    assert_eq!((e.kind, e.line, e.col), (ErrorKind::Syntax, 0, 0));
    assert_eq!(e.to_string(), "y.yml: error: unexpected end of file");
    let e = err(Path::new("z.yml"), ErrorKind::Syntax, 12, 3, "bad".to_string());
    assert_eq!(e.to_string(), "z.yml:12: error: bad");
}

#[test]
fn character_scans_find_the_right_places() {
    let line = chars("k: 'it''s' # note");
    assert_eq!(scan_quoted_end(&line, 3), Some(10));
    assert_eq!(scan_quoted_end(&chars("\"a\\\"b\" x"), 0), Some(6));
    assert_eq!(scan_quoted_end(&chars("'open"), 0), None);
    assert_eq!(strip_comment(&line, 0), 11);
    assert_eq!(strip_comment(&chars("a#b # c"), 0), 4);
    assert_eq!(strip_comment(&chars("- # c"), 0), 2);
    assert_eq!(find_key_sep(&chars("a: b: c"), 0), Some(1));
    assert_eq!(find_key_sep(&chars("'a: b' : c"), 0), Some(7));
    assert_eq!(find_key_sep(&chars("http://x"), 0), None);
    assert_eq!(slice(&chars("hello"), 1, 3), "el");
    assert_eq!(slice(&chars("hello"), 4, 99), "o");
    assert_eq!(slice(&chars("hello"), 9, 2), "");
}

#[test]
fn unsupported_constructs_are_named_where_they_start() {
    let e = check_unsupported(Path::new("t.yml"), 5, &chars("a: *x"), 3).unwrap_err();
    assert_eq!((e.kind, e.line, e.col), (ErrorKind::UnsupportedFeature, 5, 4));
    assert_eq!(e.message, "unsupported YAML feature: aliases (*name)");
    assert!(check_unsupported(Path::new("t.yml"), 1, &chars("a: ?x"), 3).is_ok());
    assert!(check_unsupported(Path::new("t.yml"), 1, &chars("  %x"), 2).is_ok());
    assert!(check_unsupported(Path::new("t.yml"), 1, &chars("---x"), 0).is_ok());
    assert!(check_unsupported(Path::new("t.yml"), 1, &chars("... end"), 0).is_err());
}

#[test]
fn escapes_decode_to_their_characters() {
    let file = Path::new("t.yml");
    assert_eq!(hex4(&chars("00e9"), 0), Some(0xe9));
    assert_eq!(hex4(&chars("12G4"), 0), None);
    assert_eq!(hex4(&chars("123"), 0), None);
    assert_eq!(decode_unicode(file, 1, &chars("\\u0041"), 0).ok(), Some(('A', 6)));
    assert_eq!(decode_unicode(file, 1, &chars("\\ud83d\\ude00!"), 0).ok(), Some(('\u{1f600}', 12)));
    let e = decode_unicode(file, 2, &chars("x\\udc00"), 1).unwrap_err();
    assert_eq!((e.line, e.col), (2, 2));
    assert_eq!(e.message, "invalid \\u escape: unpaired surrogate");
    assert_eq!(
        decode_quoted(file, 1, &chars("\"a\\tb\\0\" rest"), 0).ok(),
        Some(("a\tb\0".to_string(), 8))
    );
    let e = decode_quoted(file, 3, &chars("  \"abc"), 2).unwrap_err();
    assert_eq!((e.kind, e.line, e.col), (ErrorKind::UnterminatedQuote, 3, 3));
    assert_eq!(
        e.message,
        "unterminated double-quoted scalar: quoted scalars must close on the line they open"
    );
    let e = decode_quoted(file, 1, &chars("'abc"), 9).unwrap_err();
    assert_eq!(e.message, "unexpected end of file");
}

#[test]
fn the_parser_cursor_moves_as_described() {
    let file = Path::new("t.yml");
    let lines = scan_lines("- a\nkey: value\n", file).unwrap();
    let mut p = Parser { file, lines, idx: 0, col: 0 };
    assert_eq!(p.line_number(), 1);
    assert!(p.at_dash());
    assert!(p.reject_unsupported().is_ok());
    p.advance_line();
    assert_eq!((p.idx, p.col, p.line_number()), (1, 0, 2));
    assert!(!p.at_dash());
    let key = p.parse_key().unwrap();
    assert_eq!((key.name.as_str(), key.line, key.col), ("key", 2, 1));
    assert_eq!(p.col, 5);
    let e = p.indentation_error(2, 0);
    assert_eq!(e.kind, ErrorKind::Indentation);
    assert_eq!(e.col, 6);
    assert_eq!(
        e.message,
        "inconsistent indentation: this line is indented 5 spaces, but its block is indented 0"
    );
    p.advance_line();
    assert_eq!(p.line_number(), 0);
}

#[test]
fn a_stray_line_after_the_document_is_refused() {
    let e = parse_str("a:\n    b: 1\n  c: 2\n", Path::new("t.yml")).unwrap_err();
    assert_eq!((e.kind, e.line), (ErrorKind::Indentation, 3));
    let e = parse_str("  a: 1\nb: 2\n", Path::new("t.yml")).unwrap_err();
    assert_eq!(
        e.message,
        "inconsistent indentation: this line is indented 0 spaces, which lines up with no open block"
    );
}

/// Writes `s` as a double-quoted scalar, escaping what must be escaped.
fn double_quoted(s: &str) -> String {
    let mut out = String::from("\"");
    for c in s.chars() {
        match c {
            '"' => out.push_str("\\\""),
            '\\' => out.push_str("\\\\"),
            '\n' => out.push_str("\\n"),
            '\t' => out.push_str("\\t"),
            '\r' => out.push_str("\\r"),
            '\0' => out.push_str("\\0"),
            _ => out.push(c),
        }
    }
    out.push('"');
    out
}

#[test]
fn double_quoted_strings_read_back() {
    for s in ["", "plain", "say \"hi\"", "back\\slash", "two\nlines\tand\r\0", "# not a comment", "ünï"] {
        let doc = parse_str(&format!("k: {}\n", double_quoted(s)), Path::new("t.yml")).unwrap();
        assert_eq!(doc.get("k").and_then(|n| n.as_str()), Some(s), "{s:?}");
    }
}

#[test]
fn unsupported_constructs_are_refused_at_any_depth() {
    for src in ["a:\n  - &x 1\n", "a:\n  b:\n    c: !t x\n", "- - [1]\n", "a:\n  - |\n    t\n"] {
        let e = parse_str(src, Path::new("t.yml")).unwrap_err();
        assert_eq!(e.kind, ErrorKind::UnsupportedFeature, "{src:?}");
    }
}

#[test]
fn a_comment_after_any_content_line_changes_nothing() {
    let plain = "a: 'x # y'\r\nb: c#d\r\n   \nlist:\n  - \"q\"\n";
    let commented = "a: 'x # y' # one\r\nb: c#d # two\r\n  # three\nlist: #four\n  - \"q\" # five\n";
    let p = parse_str(plain, Path::new("t.yml")).unwrap();
    let c = parse_str(commented, Path::new("t.yml")).unwrap();
    assert_eq!(p, c);
    assert_eq!(c.get("a").and_then(|n| n.as_str()), Some("x # y"));
    assert_eq!(c.get("b").and_then(|n| n.as_str()), Some("c#d"));
    assert_eq!(c.get_key("list").map(|k| k.line), Some(4));
}

#[test]
fn a_failed_key_leaves_the_cursor_where_it_was() {
    let file = Path::new("t.yml");
    for text in ["  no separator here\n", "  '': 1\n"] {
        let lines = scan_lines(text, file).unwrap();
        let mut p = Parser { file, lines, idx: 0, col: 2 };
        let e = p.parse_key().unwrap_err();
        assert_eq!(e.kind, ErrorKind::Syntax);
        assert_eq!(e.col, 3);
        assert_eq!((p.idx, p.col), (0, 2));
    }
}

#[test]
fn mapping_keys_stand_in_line_order_at_the_mapping_column() {
    let doc = parse_str("a: 1\n\nb:\n  c: 2\n  e: 4\nd: 3\n", Path::new("t.yml")).unwrap();
    let top: Vec<(usize, usize)> = ["a", "b", "d"]
        .iter()
        .map(|k| doc.get_key(k).map(|key| (key.line, key.col)).unwrap())
        .collect();
    assert_eq!(top, vec![(1, 1), (3, 1), (6, 1)]);
    let inner = doc.get("b").unwrap();
    assert_eq!(inner.line, 4);
    assert_eq!(inner.get_key("c").map(|k| (k.line, k.col)), Some((4, 3)));
    assert_eq!(inner.get_key("e").map(|k| (k.line, k.col)), Some((5, 3)));
}

fn alike(a: &Node, b: &Node) -> bool {
    match (&a.value, &b.value) {
        (Value::Mapping(x), Value::Mapping(y)) => {
            x.len() == y.len()
                && x.iter().zip(y.iter()).all(|((ka, va), (kb, vb))| {
                    ka.name == kb.name && ka.col == kb.col && alike(va, vb)
                })
        }
        (Value::Sequence(x), Value::Sequence(y)) => {
            x.len() == y.len() && x.iter().zip(y.iter()).all(|(m, n)| alike(m, n))
        }
        (x, y) => x == y,
    }
}

#[test]
fn an_inserted_comment_line_only_renumbers() {
    let plain = parse_str("a: 1\nb:\n  - x\n  - 'y'\n", Path::new("t.yml")).unwrap();
    let longer = parse_str("a: 1\n  # note\nb:\n\n  - x\n  - 'y'\n", Path::new("t.yml")).unwrap();
    assert!(alike(&plain, &longer));
    assert_ne!(plain, longer);
    assert_eq!(plain.get_key("b").map(|k| k.line), Some(2));
    assert_eq!(longer.get_key("b").map(|k| k.line), Some(3));
    assert_eq!(longer.get("b").and_then(|n| n.as_seq()).map(|s| s[1].line), Some(6));
}

#[test]
fn a_byte_order_mark_counts_only_on_the_first_line() {
    let first = parse_str("\u{feff}a: 1\n", Path::new("t.yml")).unwrap();
    assert!(first.get("a").is_some());
    let second = parse_str("# c\n\u{feff}a: 1\n", Path::new("t.yml")).unwrap();
    assert!(second.get("a").is_none());
    assert!(second.get("\u{feff}a").is_some());
}

#[test]
fn significant_lines_are_trimmed_prefixes_of_their_lines() {
    let lines = scan_lines("\n  a: b  # c\t\r\n- x\t\n", Path::new("t.yml")).unwrap();
    assert_eq!(lines.len(), 2);
    assert_eq!((lines[0].number, lines[0].indent), (2, 2));
    assert_eq!(lines[0].chars, chars("  a: b"));
    assert_eq!((lines[1].number, lines[1].indent), (3, 0));
    assert_eq!(lines[1].chars, chars("- x"));
}

#[test]
fn single_quoted_text_is_the_slice_with_doubled_quotes_read_once() {
    let s = chars("'it''s' rest");
    let (text, end) = decode_quoted(Path::new("t.yml"), 4, &s, 0).unwrap();
    assert_eq!((text.as_str(), end), ("it's", 7));
    assert_eq!(scan_quoted_end(&s, 0), Some(7));
    let e = decode_quoted(Path::new("t.yml"), 4, &chars("'open"), 0).unwrap_err();
    assert_eq!((e.kind, e.line, e.col), (ErrorKind::UnterminatedQuote, 4, 1));
}

#[test]
fn double_quoted_scalars_end_where_the_quote_scan_ends() {
    let s = chars("\"a\\u0041\\\"b\" tail");
    let (text, end) = decode_quoted(Path::new("t.yml"), 2, &s, 0).unwrap();
    assert_eq!((text.as_str(), end), ("aA\"b", 12));
    assert_eq!(scan_quoted_end(&s, 0), Some(end));
    let e = decode_quoted(Path::new("t.yml"), 2, &chars("\"\\q\""), 0).unwrap_err();
    assert_eq!((e.kind, e.line), (ErrorKind::Syntax, 2));
}

#[test]
fn a_key_ends_at_the_first_separating_colon() {
    assert_eq!(find_key_sep(&chars("a:b: c"), 0), Some(3));
    assert_eq!(find_key_sep(&chars("url: http://x"), 0), Some(3));
    assert_eq!(find_key_sep(&chars("no colon"), 0), None);
    assert_eq!(find_key_sep(&chars("'a: b'  : c"), 0), Some(8));
    assert_eq!(find_key_sep(&chars("'a: b' x: c"), 0), None);
}
