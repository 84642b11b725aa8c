use std::path::Path;

use mc::yaml::{parse_bytes, parse_str, read_error, ErrorKind, Node, ParseError, Value};

/// The catalog's `dim_customer.yml` example, verbatim.
const FIXTURE: &str = "\
# catalog/warehouse/dim_customer.yml
layer: dwh
namespace: core
table: DimCustomer
description: Conformed customer dimension
owner: data-platform
columns:
  - name: CustomerKey
    type: int
    description: Surrogate key
  - name: FullName
    type: nvarchar(200)
";

fn parse(text: &str) -> Result<Node, ParseError> {
    parse_str(text, Path::new("test.yml"))
}

fn ok(text: &str) -> Node {
    match parse(text) {
        Ok(node) => node,
        Err(e) => panic!("expected {text:?} to parse, got: {}", e.to_string()),
    }
}

fn bad(text: &str) -> ParseError {
    match parse(text) {
        Ok(node) => panic!("expected {text:?} to fail, got: {node:?}"),
        Err(e) => e,
    }
}

/// Compare two trees ignoring every line and column, so that a commented
/// document can be checked against an uncommented one.
fn same_shape(a: &Node, b: &Node) -> bool {
    match (&a.value, &b.value) {
        (Value::Mapping(x), Value::Mapping(y)) => {
            x.len() == y.len()
                && x.iter()
                    .zip(y.iter())
                    .all(|((ka, va), (kb, vb))| ka.name == kb.name && same_shape(va, vb))
        }
        (Value::Sequence(x), Value::Sequence(y)) => {
            x.len() == y.len() && x.iter().zip(y.iter()).all(|(m, n)| same_shape(m, n))
        }
        (x, y) => x == y,
    }
}

/// The binary value of a float node's text.
fn float_of(value: &Value) -> Option<f64> {
    match value {
        Value::Float(text) => text.parse::<f64>().ok(),
        _ => None,
    }
}

#[test]
fn fixture_parses_with_the_source_line_on_every_node() {
    let doc = ok(FIXTURE);
    assert_eq!(doc.type_label(), "mapping");
    assert_eq!(doc.line, 2);

    for (key, text, line, col) in [
        ("layer", "dwh", 2, 1),
        ("namespace", "core", 3, 1),
        ("table", "DimCustomer", 4, 1),
        ("description", "Conformed customer dimension", 5, 1),
        ("owner", "data-platform", 6, 1),
    ] {
        let node = match doc.get(key) {
            Some(node) => node,
            None => panic!("missing key {key}"),
        };
        assert_eq!(node.as_str(), Some(text), "{key}");
        assert_eq!(node.line, line, "{key} value line");
        assert_eq!(
            doc.get_key(key).map(|k| (k.line, k.col)),
            Some((line, col)),
            "{key} key"
        );
    }

    assert_eq!(
        doc.get_key("columns").map(|k| (k.line, k.col)),
        Some((7, 1))
    );
    let columns = match doc.get("columns") {
        Some(node) => {
            assert_eq!(node.line, 8, "the sequence starts on its first item's line");
            match node.as_seq() {
                Some(items) => items,
                None => panic!("columns is not a sequence"),
            }
        }
        None => panic!("missing columns"),
    };
    assert_eq!(columns.len(), 2);

    assert_eq!(columns[0].line, 8);
    assert_eq!(
        columns[0].get("name").map(|n| (n.as_str(), n.line)),
        Some((Some("CustomerKey"), 8))
    );
    assert_eq!(
        columns[0].get("type").map(|n| (n.as_str(), n.line)),
        Some((Some("int"), 9))
    );
    assert_eq!(
        columns[0].get("description").map(|n| (n.as_str(), n.line)),
        Some((Some("Surrogate key"), 10))
    );
    assert_eq!(
        columns[0].get_key("name").map(|k| (k.line, k.col)),
        Some((8, 5))
    );
    assert_eq!(
        columns[0].get_key("type").map(|k| (k.line, k.col)),
        Some((9, 5))
    );
    assert_eq!(
        columns[0].get_key("description").map(|k| (k.line, k.col)),
        Some((10, 5))
    );

    assert_eq!(columns[1].line, 11);
    assert_eq!(
        columns[1].get("name").map(|n| (n.as_str(), n.line)),
        Some((Some("FullName"), 11))
    );
    assert_eq!(
        columns[1].get("type").map(|n| (n.as_str(), n.line)),
        Some((Some("nvarchar(200)"), 12))
    );
    assert_eq!(columns[1].get("description"), None);
}

/// The fixture again, with a header block, an inline comment on a key, an
/// indented comment inside the sequence, and blank lines.
const COMMENTED: &str = "\
# catalog/warehouse/dim_customer.yml
#
# The conformed customer dimension.

layer: dwh              # the storage layer
namespace: core
table: DimCustomer
description: Conformed customer dimension
owner: data-platform

# The columns follow.
columns:
    # the surrogate key
  - name: CustomerKey
    type: int
    description: Surrogate key
  - name: FullName    # the display name
    type: nvarchar(200)
";

#[test]
fn comments_and_blank_lines_change_neither_the_tree_nor_the_numbering() {
    let doc = ok(COMMENTED);
    assert!(same_shape(&doc, &ok(FIXTURE)), "comments changed the tree");

    assert_eq!(
        doc.get("layer").map(|n| (n.as_str(), n.line)),
        Some((Some("dwh"), 5))
    );
    assert_eq!(doc.get("owner").map(|n| n.line), Some(9));
    assert_eq!(doc.get_key("columns").map(|k| k.line), Some(12));
    let columns = match doc.get("columns").and_then(|n| n.as_seq()) {
        Some(items) => items,
        None => panic!("columns is not a sequence"),
    };
    assert_eq!(columns[0].line, 14);
    assert_eq!(columns[0].get("type").map(|n| n.line), Some(15));
    assert_eq!(columns[0].get("description").map(|n| n.line), Some(16));
    assert_eq!(columns[1].line, 17);
    assert_eq!(
        columns[1].get("name").and_then(|n| n.as_str()),
        Some("FullName")
    );
    assert_eq!(columns[1].get("type").map(|n| n.line), Some(18));
}

#[test]
fn a_hash_only_opens_a_comment_where_yaml_says_it_does() {
    for (src, expected) in [
        ("k: a # note\n", "a"),
        ("k: a#b\n", "a#b"),
        ("k: don't # note\n", "don't"),
        ("k: \"a # b\"\n", "a # b"),
        ("k: 'a # b' # note\n", "a # b"),
    ] {
        assert_eq!(
            ok(src).get("k").and_then(|n| n.as_str()),
            Some(expected),
            "{src:?}"
        );
    }
}

#[test]
fn unsupported_constructs_are_rejected_by_name() {
    for (src, feature) in [
        ("a: {b: 1}\n", "flow mapping"),
        ("a: [1, 2]\n", "flow sequence"),
        ("{a: 1}\n", "flow mapping"),
        ("- [1]\n", "flow sequence"),
        ("a: &anchor 1\n", "anchor"),
        ("a: *anchor\n", "alias"),
        ("a: !!str 1\n", "tag"),
        ("---\na: 1\n", "multi-document"),
        ("a: 1\n...\n", "multi-document"),
        ("a: |\n  text\n", "block scalar"),
        ("a: >\n  text\n", "block scalar"),
        ("? a\n: 1\n", "explicit key"),
        ("%YAML 1.2\na: 1\n", "directive"),
    ] {
        let e = bad(src);
        assert_eq!(e.kind, ErrorKind::UnsupportedFeature, "{src:?}");
        assert!(e.message.contains(feature), "{src:?} said: {}", e.message);
        assert!(
            e.message.contains("unsupported YAML feature"),
            "{src:?}: {}",
            e.message
        );
    }
}

#[test]
fn an_unsupported_construct_names_its_line() {
    let e = bad("a: 1\nb: 2\nc: [3]\n");
    assert_eq!(e.kind, ErrorKind::UnsupportedFeature);
    assert_eq!(e.line, 3);
    assert_eq!(
        e.to_string(),
        "test.yml:3: error: unsupported YAML feature: flow sequences ([...])"
    );
}

#[test]
fn a_quoted_scalar_that_only_looks_like_flow_style_is_fine() {
    assert_eq!(
        ok("a: \"{b: 1}\"\n").get("a").and_then(|n| n.as_str()),
        Some("{b: 1}")
    );
}

#[test]
fn a_tab_in_indentation_is_rejected() {
    let e = bad("a:\n\tb: 1\n");
    assert_eq!(e.kind, ErrorKind::Indentation);
    assert_eq!(e.line, 2);
    assert!(e.message.contains("tab"), "{}", e.message);
    // A tab *after* the indentation is just a character.
    assert_eq!(
        ok("a: x\ty\n").get("a").and_then(|n| n.as_str()),
        Some("x\ty")
    );
}

#[test]
fn siblings_at_inconsistent_indentation_are_rejected() {
    for (src, line) in [
        ("a:\n  b: 1\n   c: 2\n", 3),
        ("a:\n    b: 1\n  c: 2\n", 3),
        ("a: 1\n  b: 2\n", 2),
        ("- 1\n  - 2\n", 2),
    ] {
        let e = bad(src);
        assert_eq!(
            e.kind,
            ErrorKind::Indentation,
            "{src:?} said: {}",
            e.message
        );
        assert_eq!(e.line, line, "{src:?} said: {}", e.message);
    }
}

#[test]
fn unterminated_quotes_are_rejected() {
    for src in [
        "a: 'oops\n",
        "a: \"oops\n",
        "a: 'multi\n  line'\n",
        "'key: 1\n",
    ] {
        let e = bad(src);
        assert_eq!(
            e.kind,
            ErrorKind::UnterminatedQuote,
            "{src:?} said: {}",
            e.message
        );
        assert_eq!(e.line, 1, "{src:?}");
    }
}

#[test]
fn duplicate_keys_name_the_file_and_both_lines() {
    let e = bad("name: a\ntype: int\nname: b\n");
    assert_eq!(e.kind, ErrorKind::DuplicateKey);
    assert_eq!(e.line, 3);
    assert_eq!(
        e.to_string(),
        "test.yml:3: error: duplicate mapping key 'name': first defined on line 1"
    );

    // A column declared twice in one file.
    let e = bad("columns:\n  - name: a\n    type: int\n    name: b\n");
    assert_eq!(e.kind, ErrorKind::DuplicateKey);
    assert_eq!(e.line, 4);
    assert!(e.message.contains("line 2"), "{}", e.message);

    // Duplicates are per mapping, not per file.
    assert!(parse("columns:\n  - name: a\n  - name: b\n").is_ok());
}

#[test]
fn other_malformed_input_is_rejected_clearly() {
    for (src, kind, line) in [
        ("a: 1\nb\n", ErrorKind::Syntax, 2),
        (": 1\n", ErrorKind::Syntax, 1),
        ("a: 'x' junk\n", ErrorKind::Syntax, 1),
        ("a: \"\\q\"\n", ErrorKind::Syntax, 1),
        ("a: \"\\uZZZZ\"\n", ErrorKind::Syntax, 1),
        ("a: \"\\ud800\"\n", ErrorKind::Syntax, 1),
        ("a: - 1\n", ErrorKind::Syntax, 1),
        ("a: 1\n- 2\n", ErrorKind::Syntax, 2),
    ] {
        let e = bad(src);
        assert_eq!(e.kind, kind, "{src:?} said: {}", e.message);
        assert_eq!(e.line, line, "{src:?} said: {}", e.message);
        assert!(
            e.to_string()
                .starts_with(&format!("test.yml:{line}: error: ")),
            "{}",
            e.to_string()
        );
    }
}

#[test]
fn malformed_input_never_panics() {
    // Every prefix of the fixture, which lands mid-token in every position.
    let chars: Vec<char> = FIXTURE.chars().collect();
    for n in 0..chars.len() {
        let text: String = chars[..n].iter().collect();
        let _ = parse(&text);
    }
    for src in [
        "\"",
        "'",
        ":",
        "-",
        "- -",
        "a:\n\n  \n",
        "\u{feff}",
        "\\",
        "a: \"\\u\"",
        "a: \"\\ud800\\u0041\"",
        "  \n\ta: 1\n",
        "a: '''",
        "- : -",
        "??",
        "k: \u{1f600} # e",
        "\u{1f600}: 1",
    ] {
        let _ = parse(src);
    }
}

#[test]
fn plain_scalars_are_typed() {
    let cases: &[(&str, Value)] = &[
        // The values that must survive as strings.
        ("nvarchar(200)", Value::Str("nvarchar(200)".to_string())),
        ("2026-08-22", Value::Str("2026-08-22".to_string())),
        ("1.2.3", Value::Str("1.2.3".to_string())),
        ("007", Value::Str("007".to_string())),
        ("data-platform", Value::Str("data-platform".to_string())),
        (
            "99999999999999999999",
            Value::Str("99999999999999999999".to_string()),
        ),
        // Deliberately not booleans: the Norway problem.
        ("no", Value::Str("no".to_string())),
        ("yes", Value::Str("yes".to_string())),
        ("on", Value::Str("on".to_string())),
        ("off", Value::Str("off".to_string())),
        // Booleans.
        ("true", Value::Bool(true)),
        ("True", Value::Bool(true)),
        ("TRUE", Value::Bool(true)),
        ("false", Value::Bool(false)),
        ("False", Value::Bool(false)),
        ("FALSE", Value::Bool(false)),
        // Integers.
        ("0", Value::Int(0)),
        ("42", Value::Int(42)),
        ("-5", Value::Int(-5)),
        ("+7", Value::Int(7)),
        // Null.
        ("~", Value::Null),
        ("null", Value::Null),
        ("Null", Value::Null),
        ("NULL", Value::Null),
    ];
    for (text, expected) in cases {
        let doc = ok(&format!("k: {text}\n"));
        assert_eq!(doc.get("k").map(|n| &n.value), Some(expected), "{text}");
    }
    // Floats: the node holds the text, which converts to the expected value.
    let floats: &[(&str, f64)] = &[("2.75", 2.75), ("-0.5", -0.5), ("1e9", 1e9), ("-2.5e-3", -2.5e-3)];
    for (text, expected) in floats {
        let doc = ok(&format!("k: {text}\n"));
        assert_eq!(doc.get("k").and_then(|n| float_of(&n.value)), Some(*expected), "{text}");
    }
}

#[test]
fn quoted_scalars_are_always_strings() {
    for (src, expected) in [
        ("k: 'true'\n", "true"),
        ("k: \"42\"\n", "42"),
        ("k: '007'\n", "007"),
        ("k: \"~\"\n", "~"),
        ("k: \"\"\n", ""),
        ("k: ''\n", ""),
        ("k: 'it''s'\n", "it's"),
    ] {
        assert_eq!(
            ok(src).get("k").and_then(|n| n.as_str()),
            Some(expected),
            "{src:?}"
        );
    }
}

#[test]
fn double_quoted_escapes_are_decoded() {
    let doc = ok("k: \"a\\nb\\tc\\\"d\\\\e\\/f\\u00e9\\u0041\"\n");
    assert_eq!(
        doc.get("k").and_then(|n| n.as_str()),
        Some("a\nb\tc\"d\\e/féA")
    );
    let doc = ok("k: \"\\ud83d\\ude00\"\n");
    assert_eq!(doc.get("k").and_then(|n| n.as_str()), Some("\u{1f600}"));
}

#[test]
fn empty_and_comment_only_documents_are_null() {
    for src in [
        "",
        "\n",
        "\n\n   \n",
        "# just a comment\n",
        "# one\n\n  # two\n",
    ] {
        let doc = ok(src);
        assert_eq!(doc.value, Value::Null, "{src:?}");
        assert_eq!(doc.line, 1, "{src:?}");
    }
}

#[test]
fn a_key_with_no_value_is_null_at_its_own_line() {
    let doc = ok("layer: dwh\ntable:\ncolumns:\n");
    assert_eq!(
        doc.get("table").map(|n| (&n.value, n.line)),
        Some((&Value::Null, 2))
    );
    assert_eq!(
        doc.get("columns").map(|n| (&n.value, n.line)),
        Some((&Value::Null, 3))
    );
    // Present-with-no-value is not the same as missing.
    assert!(doc.get_key("table").is_some());
    assert!(doc.get_key("namespace").is_none());
    assert!(doc.get("namespace").is_none());
}

#[test]
fn crlf_bom_and_trailing_whitespace_are_handled() {
    let doc = ok("\u{feff}layer: dwh\r\ncount: 1   \r\ntable: DimCustomer\r\n");
    assert_eq!(doc.get("layer").and_then(|n| n.as_str()), Some("dwh"));
    assert_eq!(doc.get("count").map(|n| &n.value), Some(&Value::Int(1)));
    assert_eq!(doc.get("table").map(|n| n.line), Some(3));
    // The BOM must not shift the first key's column.
    assert_eq!(doc.get_key("layer").map(|k| (k.line, k.col)), Some((1, 1)));
}

#[test]
fn quoted_keys_are_decoded() {
    let doc = ok("'a b': 1\n\"c:d\": 2\n'it''s' : 3\n");
    assert_eq!(doc.get("a b").map(|n| &n.value), Some(&Value::Int(1)));
    assert_eq!(doc.get("c:d").map(|n| &n.value), Some(&Value::Int(2)));
    assert_eq!(doc.get("it's").map(|n| &n.value), Some(&Value::Int(3)));
    assert_eq!(doc.get_key("a b").map(|k| (k.line, k.col)), Some((1, 1)));
}

#[test]
fn a_block_sequence_may_sit_at_its_key_indent() {
    let doc = ok("columns:\n- name: a\n- name: b\nowner: x\n");
    let columns = match doc.get("columns").and_then(|n| n.as_seq()) {
        Some(items) => items,
        None => panic!("columns is not a sequence"),
    };
    assert_eq!(columns.len(), 2);
    assert_eq!(columns[1].get("name").and_then(|n| n.as_str()), Some("b"));
    assert_eq!(columns[1].line, 3);
    assert_eq!(doc.get("owner").and_then(|n| n.as_str()), Some("x"));
    assert_eq!(doc.get_key("owner").map(|k| k.line), Some(4));
}

#[test]
fn sequences_of_mappings_of_sequences_nest() {
    let doc = ok("a:\n  - b:\n      - 1\n      - 2\n  - c: x\n");
    let outer = match doc.get("a").and_then(|n| n.as_seq()) {
        Some(items) => items,
        None => panic!("a is not a sequence"),
    };
    assert_eq!(outer.len(), 2);
    let inner = match outer[0].get("b").and_then(|n| n.as_seq()) {
        Some(items) => items,
        None => panic!("b is not a sequence"),
    };
    assert_eq!(
        inner
            .iter()
            .map(|n| (n.value.clone(), n.line))
            .collect::<Vec<_>>(),
        vec![(Value::Int(1), 3), (Value::Int(2), 4)]
    );
    assert_eq!(outer[1].get("c").and_then(|n| n.as_str()), Some("x"));
    assert_eq!(outer[1].line, 5);
}

#[test]
fn nested_and_empty_sequence_items() {
    let doc = ok("- - 1\n  - 2\n");
    let outer = match doc.as_seq() {
        Some(items) => items,
        None => panic!("not a sequence"),
    };
    assert_eq!(outer.len(), 1);
    assert_eq!(outer[0].as_seq().map(|s| s.len()), Some(2));

    let doc = ok("-\n- a\n");
    let items = match doc.as_seq() {
        Some(items) => items,
        None => panic!("not a sequence"),
    };
    assert_eq!(items[0].value, Value::Null);
    assert_eq!(items[0].line, 1);
    assert_eq!(items[1].as_str(), Some("a"));

    let doc = ok("-\n    a: 1\n");
    let items = match doc.as_seq() {
        Some(items) => items,
        None => panic!("not a sequence"),
    };
    assert_eq!(items[0].get("a").map(|n| &n.value), Some(&Value::Int(1)));
}

#[test]
fn accessors_report_the_node_type() {
    let doc = ok("m:\n  a: 1\ns:\n  - 1\nn: ~\nb: true\ni: 1\nf: 1.5\nt: text\n");
    for (key, name) in [
        ("m", "mapping"),
        ("s", "sequence"),
        ("n", "null"),
        ("b", "boolean"),
        ("i", "integer"),
        ("f", "float"),
        ("t", "string"),
    ] {
        assert_eq!(doc.get(key).map(|n| n.type_label()), Some(name), "{key}");
    }
    assert_eq!(doc.get("b").and_then(|n| n.as_bool()), Some(true));
    assert_eq!(doc.get("i").and_then(|n| n.as_int()), Some(1));
    assert_eq!(
        doc.get("f").and_then(|n| n.as_float()).and_then(|t| t.parse::<f64>().ok()),
        Some(1.5)
    );
    assert_eq!(doc.get("t").and_then(|n| n.as_str()), Some("text"));
    assert_eq!(
        doc.get("m").and_then(|n| n.as_map()).map(|m| m.len()),
        Some(1)
    );
    assert!(doc.get("n").map(|n| n.is_null()).unwrap_or(false));
    // Wrong-type accessors return None rather than panicking.
    assert_eq!(doc.get("m").and_then(|n| n.as_str()), None);
    assert_eq!(doc.get("t").and_then(|n| n.as_seq()), None);
    assert_eq!(doc.get("t").and_then(|n| n.get("x")), None);
}

#[test]
fn a_document_may_be_a_bare_scalar_or_sequence() {
    assert_eq!(ok("just text\n").as_str(), Some("just text"));
    assert_eq!(ok("- 1\n- 2\n").as_seq().map(|s| s.len()), Some(2));
    // A value on the line after its key is still that key's value.
    assert_eq!(
        ok("a:\n  text\n").get("a").and_then(|n| n.as_str()),
        Some("text")
    );
}

#[test]
fn parse_file_reads_the_fixture_from_disk() {
    let path = Path::new("tests/fixtures/catalog/dim_customer.yml");
    let from_disk = match parse_bytes(FIXTURE.as_bytes().to_vec(), path) {
        Ok(node) => node,
        Err(e) => panic!("fixture did not parse: {}", e.to_string()),
    };
    assert!(same_shape(&from_disk, &ok(FIXTURE)));
    assert_eq!(
        from_disk
            .get("columns")
            .and_then(|n| n.as_seq())
            .map(|s| s.len()),
        Some(2)
    );
}

#[test]
fn parse_file_reports_a_missing_file_without_panicking() {
    let e = read_error(Path::new("no/such/file.yml"), "No such file or directory (os error 2)");
    assert_eq!(e.kind, ErrorKind::Io);
    assert!(
        e.to_string()
            .starts_with("no/such/file.yml: error: could not read file"),
        "{}",
        e.to_string()
    );
}

#[test]
fn bytes_that_are_not_utf8_are_an_io_failure() {
    let e = match parse_bytes(vec![b'a', b':', b' ', 0xff, b'\n'], Path::new("bad.yml")) {
        Ok(node) => panic!("expected a failure, got {node:?}"),
        Err(e) => e,
    };
    assert_eq!(e.kind, ErrorKind::Io);
    assert_eq!((e.line, e.col), (0, 0));
    assert_eq!(e.to_string(), "bad.yml: error: file is not valid UTF-8");
}

#[test]
fn utf8_bytes_read_as_their_text() {
    let text = "name: Zo\u{eb}\ncity: \u{5317}\u{4eac}\n";
    let doc = match parse_bytes(text.as_bytes().to_vec(), Path::new("t.yml")) {
        Ok(node) => node,
        Err(e) => panic!("did not parse: {}", e.to_string()),
    };
    assert_eq!(doc.get("name").and_then(|n| n.as_str()), Some("Zo\u{eb}"));
    assert_eq!(doc.get("city").map(|n| n.line), Some(2));
    assert_eq!(doc.get("city").and_then(|n| n.as_str()), Some("\u{5317}\u{4eac}"));
}
