use std::path::Path;

use mc::dump::{dump_rows, tree_height};
use mc::yaml::{parse_str, Node, Value};

fn doc(text: &str) -> Node {
    parse_str(text, Path::new("t.yml")).unwrap()
}

fn layout(node: &Node) -> Vec<(usize, usize, String, Option<Value>)> {
    dump_rows(node, 0)
        .into_iter()
        .map(|r| (r.line, r.depth, r.head, r.leaf.map(|n| n.value)))
        .collect()
}

#[test]
fn a_mapping_dumps_one_row_per_key_and_item() {
    let d = doc("layer: dwh\ncolumns:\n  - name: Key\n    type: int\n  - plain\nempty:\n");
    let rows = layout(&d);
    assert_eq!(
        rows,
        vec![
            (1, 0, "layer: ".to_string(), Some(Value::Str("dwh".to_string()))),
            (2, 0, "columns:".to_string(), None),
            (3, 1, "-".to_string(), None),
            (3, 2, "name: ".to_string(), Some(Value::Str("Key".to_string()))),
            (4, 2, "type: ".to_string(), Some(Value::Str("int".to_string()))),
            (5, 1, "- ".to_string(), Some(Value::Str("plain".to_string()))),
            (6, 0, "empty: ".to_string(), Some(Value::Null)),
        ]
    );
}

#[test]
fn a_scalar_document_dumps_one_bare_row() {
    let d = doc("\n\n42\n");
    assert_eq!(layout(&d), vec![(3, 0, String::new(), Some(Value::Int(42)))]);
    let rows = dump_rows(&d, 2);
    assert_eq!(rows[0].depth, 2);
}

#[test]
fn tree_height_counts_nested_collections() {
    assert_eq!(tree_height(&doc("x\n")), Some(0));
    assert_eq!(tree_height(&doc("a: 1\n")), Some(1));
    assert_eq!(tree_height(&doc("a:\n  - b: 1\n")), Some(3));
}
