//! The layout of a tree dump: one row per key or item, each with the source
//! line it came from, how deep it is indented, and the text that leads it. How
//! a scalar at the end of a row is shown is left to the caller.

use vstd::prelude::*;

use crate::yaml::text::{chars_of, push_str, string_of, text_of};
use crate::yaml::tree::{
    copy_node, lemma_view_entries_len, lemma_view_items_len, view_entries, view_items, KeyView, Node, NodeView, Value,
    ValueView,
};

verus! {

/// One row of a dump: the source line shown in the left column, the depth the
/// row is indented to, the text that leads it (`name:`, `name: `, `-`, `- ` or
/// nothing), and the scalar that ends it, if any.
pub struct Row {
    pub line: usize,
    pub depth: usize,
    pub head: String,
    pub leaf: Option<Node>,
}

pub struct RowView {
    pub line: int,
    pub depth: int,
    pub head: Seq<char>,
    pub leaf: Option<NodeView>,
}

impl View for Row {
    type V = RowView;

    open spec fn view(&self) -> RowView {
        RowView {
            line: self.line as int,
            depth: self.depth as int,
            head: self.head@,
            leaf: match self.leaf {
                Some(n) => Some(n@),
                None => None,
            },
        }
    }
}

/// The views of a list of rows.
pub open spec fn rows_view(v: Seq<Row>) -> Seq<RowView> {
    v.map_values(|r: Row| r@)
}

/// A mapping or a sequence: a value shown on rows of its own.
pub open spec fn is_container(v: ValueView) -> bool {
    v is Sequence || v is Mapping
}

/// The rows of the tree `n` dumped at `depth`: a mapping or a sequence gives
/// the rows of its entries or items, a scalar one row of its own.
pub open spec fn tree_rows(n: NodeView, depth: int) -> Seq<RowView>
    decreases n,
{
    match n.value {
        ValueView::Mapping(es) => entries_rows(es, depth),
        ValueView::Sequence(items) => items_rows(items, depth),
        _ => seq![RowView { line: n.line, depth, head: Seq::empty(), leaf: Some(n) }],
    }
}

/// The rows of a mapping's entries at `depth`: a key whose value is a mapping
/// or a sequence gets a row `name:` and its value's rows one level deeper;
/// any other key one row `name: ` ending in its value.
pub open spec fn entries_rows(es: Seq<(KeyView, NodeView)>, depth: int) -> Seq<RowView>
    decreases es,
{
    if es.len() == 0 {
        Seq::empty()
    } else {
        let k = es.last().0;
        let v = es.last().1;
        entries_rows(es.drop_last(), depth) + if is_container(v.value) {
            seq![RowView { line: k.line, depth, head: k.name + ":"@, leaf: None }] + tree_rows(v, depth + 1)
        } else {
            seq![RowView { line: k.line, depth, head: k.name + ": "@, leaf: Some(v) }]
        }
    }
}

/// The rows of a sequence's items at `depth`: an item that is a mapping or a
/// sequence gets a row `-` and its own rows one level deeper; any other item
/// one row `- ` ending in it.
pub open spec fn items_rows(items: Seq<NodeView>, depth: int) -> Seq<RowView>
    decreases items,
{
    if items.len() == 0 {
        Seq::empty()
    } else {
        let v = items.last();
        items_rows(items.drop_last(), depth) + if is_container(v.value) {
            seq![RowView { line: v.line, depth, head: "-"@, leaf: None }] + tree_rows(v, depth + 1)
        } else {
            seq![RowView { line: v.line, depth, head: "- "@, leaf: Some(v) }]
        }
    }
}

/// How many levels of mappings and sequences the tree `n` has.
pub open spec fn height(n: NodeView) -> nat
    decreases n,
{
    match n.value {
        ValueView::Mapping(es) => 1 + entries_height(es),
        ValueView::Sequence(items) => 1 + items_height(items),
        _ => 0,
    }
}

/// The greatest height among a mapping's values.
pub open spec fn entries_height(es: Seq<(KeyView, NodeView)>) -> nat
    decreases es,
{
    if es.len() == 0 {
        0
    } else {
        let h = height(es.last().1);
        let r = entries_height(es.drop_last());
        if h > r {
            h
        } else {
            r
        }
    }
}

/// The greatest height among a sequence's items.
pub open spec fn items_height(items: Seq<NodeView>) -> nat
    decreases items,
{
    if items.len() == 0 {
        0
    } else {
        let h = height(items.last());
        let r = items_height(items.drop_last());
        if h > r {
            h
        } else {
            r
        }
    }
}


proof fn lemma_entries_height(es: Seq<(KeyView, NodeView)>)
    ensures
        forall|i: int| 0 <= i < es.len() ==> height(#[trigger] es[i].1) <= entries_height(es),
    decreases es.len(),
{
    if es.len() > 0 {
        lemma_entries_height(es.drop_last());
        assert forall|i: int| 0 <= i < es.len() implies height(#[trigger] es[i].1) <= entries_height(es) by {
            if i < es.len() - 1 {
                assert(es[i] == es.drop_last()[i]);
            }
        }
    }
}

proof fn lemma_items_height(items: Seq<NodeView>)
    ensures
        forall|i: int| 0 <= i < items.len() ==> height(#[trigger] items[i]) <= items_height(items),
    decreases items.len(),
{
    if items.len() > 0 {
        lemma_items_height(items.drop_last());
        assert forall|i: int| 0 <= i < items.len() implies height(#[trigger] items[i]) <= items_height(items) by {
            if i < items.len() - 1 {
                assert(items[i] == items.drop_last()[i]);
            }
        }
    }
}

proof fn lemma_rows_push(a: Seq<Row>, r: Row)
    ensures
        rows_view(a.push(r)) == rows_view(a).push(r@),
{
    assert(rows_view(a.push(r)) =~= rows_view(a).push(r@));
}

fn is_container_value(v: &Value) -> (r: bool)
    ensures
        r == (*v is Sequence || *v is Mapping),
{
    match v {
        Value::Sequence(_) => true,
        Value::Mapping(_) => true,
        _ => false,
    }
}

/// The text `name` followed by `tail`.
fn head_of(name: &str, tail: &str) -> (r: String)
    ensures
        r@ == name@ + tail@,
{
    let mut head = chars_of(name);
    push_str(&mut head, tail);
    string_of(head.as_slice())
}

/// The rows of `node` dumped at `depth`, in order.
pub fn dump_rows(node: &Node, depth: usize) -> (r: Vec<Row>)
    requires
        depth + height(node@) <= usize::MAX,
    ensures
        rows_view(r@) == tree_rows(node@, depth as int),
{
    let mut out: Vec<Row> = Vec::new();
    push_tree_rows(node, depth, &mut out);
    assert(rows_view(Seq::<Row>::empty()) =~= Seq::<RowView>::empty());
    assert(Seq::<RowView>::empty() + tree_rows(node@, depth as int) =~= tree_rows(node@, depth as int));
    out
}

fn push_tree_rows(n: &Node, depth: usize, out: &mut Vec<Row>)
    requires
        depth + height(n@) <= usize::MAX,
    ensures
        rows_view(final(out)@) == rows_view(old(out)@) + tree_rows(n@, depth as int),
    decreases n,
{
    let ghost start = rows_view(out@);
    match &n.value {
        Value::Mapping(entries) => {
            let ghost es = view_entries(*entries, entries@.len() as int);
            proof {
                lemma_view_entries_len(*entries, entries@.len() as int);
                lemma_entries_height(es);
                assert(n@.value == ValueView::Mapping(es));
            }
            let mut j: usize = 0;
            while j < entries.len()
                invariant
                    j <= entries@.len(),
                    n.value == Value::Mapping(*entries),
                    es == view_entries(*entries, entries@.len() as int),
                    es.len() == entries@.len(),
                    forall|i: int| 0 <= i < es.len() ==> #[trigger] es[i] == (entries@[i].0@, entries@[i].1@),
                    forall|i: int| 0 <= i < es.len() ==> height(#[trigger] es[i].1) <= entries_height(es),
                    depth + 1 + entries_height(es) <= usize::MAX,
                    rows_view(out@) == start + entries_rows(es.take(j as int), depth as int),
                decreases entries@.len() - j,
            {
                assert(decreases_to!(*n => n.value));
                assert(decreases_to!(n.value => (n.value)->Mapping_0));
                assert(decreases_to!(*entries => entries@));
                assert(decreases_to!(entries@ => entries@[j as int]));
                assert(decreases_to!(entries@[j as int] => entries@[j as int].1));
                let key = &entries[j].0;
                let v = &entries[j].1;
                let ghost e = es[j as int];
                assert(e == (key@, v@));
                assert(es.take(j + 1).drop_last() =~= es.take(j as int));
                assert(es.take(j + 1).last() == e);
                let ghost before = out@;
                if is_container_value(&v.value) {
                    assert(es[j as int].1 == v@);
                    assert(height(es[j as int].1) <= entries_height(es));
                    let row = Row { line: key.line, depth, head: head_of(key.name.as_str(), ":"), leaf: None };
                    out.push(row);
                    proof {
                        lemma_rows_push(before, row);
                    }
                    push_tree_rows(v, depth + 1, out);
                } else {
                    let row = Row { line: key.line, depth, head: head_of(key.name.as_str(), ": "), leaf: Some(copy_node(v)) };
                    out.push(row);
                    proof {
                        lemma_rows_push(before, row);
                    }
                }
                j = j + 1;
            }
            assert(es.take(j as int) =~= es);
        },
        Value::Sequence(items) => {
            let ghost xs = view_items(*items, items@.len() as int);
            proof {
                lemma_view_items_len(*items, items@.len() as int);
                lemma_items_height(xs);
                assert(n@.value == ValueView::Sequence(xs));
            }
            let mut j: usize = 0;
            while j < items.len()
                invariant
                    j <= items@.len(),
                    n.value == Value::Sequence(*items),
                    xs == view_items(*items, items@.len() as int),
                    xs.len() == items@.len(),
                    forall|i: int| 0 <= i < xs.len() ==> #[trigger] xs[i] == items@[i]@,
                    forall|i: int| 0 <= i < xs.len() ==> height(#[trigger] xs[i]) <= items_height(xs),
                    depth + 1 + items_height(xs) <= usize::MAX,
                    rows_view(out@) == start + items_rows(xs.take(j as int), depth as int),
                decreases items@.len() - j,
            {
                assert(decreases_to!(*n => n.value));
                assert(decreases_to!(n.value => (n.value)->Sequence_0));
                assert(decreases_to!(*items => items@));
                assert(decreases_to!(items@ => items@[j as int]));
                let v = &items[j];
                assert(xs[j as int] == v@);
                assert(xs.take(j + 1).drop_last() =~= xs.take(j as int));
                assert(xs.take(j + 1).last() == v@);
                let ghost before = out@;
                if is_container_value(&v.value) {
                    assert(height(xs[j as int]) <= items_height(xs));
                    let row = Row { line: v.line, depth, head: text_of("-"), leaf: None };
                    out.push(row);
                    proof {
                        lemma_rows_push(before, row);
                    }
                    push_tree_rows(v, depth + 1, out);
                } else {
                    let row = Row { line: v.line, depth, head: text_of("- "), leaf: Some(copy_node(v)) };
                    out.push(row);
                    proof {
                        lemma_rows_push(before, row);
                    }
                }
                j = j + 1;
            }
            assert(xs.take(j as int) =~= xs);
        },
        _ => {
            let none: Vec<char> = Vec::new();
            let row = Row { line: n.line, depth, head: string_of(none.as_slice()), leaf: Some(copy_node(n)) };
            let ghost before = out@;
            out.push(row);
            proof {
                lemma_rows_push(before, row);
            }
        },
    }
}


/// The height of `n`, or `None` if it does not fit in a `usize`.
pub fn tree_height(n: &Node) -> (r: Option<usize>)
    ensures
        r matches Some(h) ==> h == height(n@),
        r is None ==> height(n@) > usize::MAX,
    decreases n,
{
    match &n.value {
        Value::Mapping(entries) => {
            let ghost es = view_entries(*entries, entries@.len() as int);
            proof {
                lemma_view_entries_len(*entries, entries@.len() as int);
                lemma_entries_height(es);
                assert(n@.value == ValueView::Mapping(es));
            }
            let mut best: usize = 0;
            let mut j: usize = 0;
            while j < entries.len()
                invariant
                    j <= entries@.len(),
                    n.value == Value::Mapping(*entries),
                    es == view_entries(*entries, entries@.len() as int),
                    es.len() == entries@.len(),
                    forall|i: int| 0 <= i < es.len() ==> #[trigger] es[i] == (entries@[i].0@, entries@[i].1@),
                    forall|i: int| 0 <= i < es.len() ==> height(#[trigger] es[i].1) <= entries_height(es),
                    best == entries_height(es.take(j as int)),
                decreases entries@.len() - j,
            {
                assert(decreases_to!(*n => n.value));
                assert(decreases_to!(n.value => (n.value)->Mapping_0));
                assert(decreases_to!(*entries => entries@));
                assert(decreases_to!(entries@ => entries@[j as int]));
                assert(decreases_to!(entries@[j as int] => entries@[j as int].1));
                assert(es[j as int].1 == entries@[j as int].1@);
                assert(height(es[j as int].1) <= entries_height(es));
                assert(es.take(j + 1).drop_last() =~= es.take(j as int));
                assert(es.take(j + 1).last() == es[j as int]);
                let h = match tree_height(&entries[j].1) {
                    Some(h) => h,
                    None => {
                        return None;
                    },
                };
                if h > best {
                    best = h;
                }
                j = j + 1;
            }
            assert(es.take(j as int) =~= es);
            if best == usize::MAX {
                None
            } else {
                Some(best + 1)
            }
        },
        Value::Sequence(items) => {
            let ghost xs = view_items(*items, items@.len() as int);
            proof {
                lemma_view_items_len(*items, items@.len() as int);
                lemma_items_height(xs);
                assert(n@.value == ValueView::Sequence(xs));
            }
            let mut best: usize = 0;
            let mut j: usize = 0;
            while j < items.len()
                invariant
                    j <= items@.len(),
                    n.value == Value::Sequence(*items),
                    xs == view_items(*items, items@.len() as int),
                    xs.len() == items@.len(),
                    forall|i: int| 0 <= i < xs.len() ==> #[trigger] xs[i] == items@[i]@,
                    forall|i: int| 0 <= i < xs.len() ==> height(#[trigger] xs[i]) <= items_height(xs),
                    best == items_height(xs.take(j as int)),
                decreases items@.len() - j,
            {
                assert(decreases_to!(*n => n.value));
                assert(decreases_to!(n.value => (n.value)->Sequence_0));
                assert(decreases_to!(*items => items@));
                assert(decreases_to!(items@ => items@[j as int]));
                assert(height(xs[j as int]) <= items_height(xs));
                assert(xs.take(j + 1).drop_last() =~= xs.take(j as int));
                assert(xs.take(j + 1).last() == xs[j as int]);
                let h = match tree_height(&items[j]) {
                    Some(h) => h,
                    None => {
                        return None;
                    },
                };
                if h > best {
                    best = h;
                }
                j = j + 1;
            }
            assert(xs.take(j as int) =~= xs);
            if best == usize::MAX {
                None
            } else {
                Some(best + 1)
            }
        },
        _ => Some(0),
    }
}

/// How many keys and items the tree `n` holds, at every depth.
pub open spec fn keys_and_items(n: NodeView) -> nat
    decreases n,
{
    match n.value {
        ValueView::Mapping(es) => entries_count(es),
        ValueView::Sequence(items) => items_count(items),
        _ => 0,
    }
}

/// How many keys and items a mapping's entries hold: one per key, and those of
/// its value.
pub open spec fn entries_count(es: Seq<(KeyView, NodeView)>) -> nat
    decreases es,
{
    if es.len() == 0 {
        0
    } else {
        entries_count(es.drop_last()) + 1 + keys_and_items(es.last().1)
    }
}

/// How many keys and items a sequence's items hold: one per item, and those
/// inside it.
pub open spec fn items_count(items: Seq<NodeView>) -> nat
    decreases items,
{
    if items.len() == 0 {
        0
    } else {
        items_count(items.drop_last()) + 1 + keys_and_items(items.last())
    }
}

/// Every row ends, if in anything, in a scalar: never in a mapping or a
/// sequence, and it is indented at least `depth`.
pub open spec fn rows_end_in_scalars(rows: Seq<RowView>, depth: int) -> bool {
    forall|k: int|
        0 <= k < rows.len() ==> (#[trigger] rows[k]).depth >= depth && (rows[k].leaf matches Some(x) ==> !(
        x.value is Sequence) && !(x.value is Mapping))
}

proof fn lemma_rows_concat(a: Seq<RowView>, b: Seq<RowView>, depth: int)
    requires
        rows_end_in_scalars(a, depth),
        rows_end_in_scalars(b, depth),
    ensures
        rows_end_in_scalars(a + b, depth),
{
    assert forall|k: int| 0 <= k < (a + b).len() implies (#[trigger] (a + b)[k]).depth >= depth && ((a + b)[k].leaf matches Some(x)
        ==> !(x.value is Sequence) && !(x.value is Mapping)) by {
        if k < a.len() {
            assert((a + b)[k] == a[k]);
        } else {
            assert((a + b)[k] == b[k - a.len()]);
        }
    }
}

proof fn lemma_tree_rows_shape(n: NodeView, depth: int)
    ensures
        tree_rows(n, depth).len() == keys_and_items(n) + if n.value is Sequence || n.value is Mapping {
            0int
        } else {
            1int
        },
        rows_end_in_scalars(tree_rows(n, depth), depth),
    decreases n,
{
    match n.value {
        ValueView::Mapping(es) => {
            lemma_entries_rows_shape(es, depth);
        },
        ValueView::Sequence(items) => {
            lemma_items_rows_shape(items, depth);
        },
        _ => {},
    }
}

proof fn lemma_entries_rows_shape(es: Seq<(KeyView, NodeView)>, depth: int)
    ensures
        entries_rows(es, depth).len() == entries_count(es),
        rows_end_in_scalars(entries_rows(es, depth), depth),
    decreases es,
{
    if es.len() > 0 {
        let k = es.last().0;
        let v = es.last().1;
        lemma_entries_rows_shape(es.drop_last(), depth);
        if is_container(v.value) {
            lemma_tree_rows_shape(v, depth + 1);
            let head = seq![RowView { line: k.line, depth, head: k.name + ":"@, leaf: None }];
            assert(rows_end_in_scalars(tree_rows(v, depth + 1), depth));
            lemma_rows_concat(head, tree_rows(v, depth + 1), depth);
            lemma_rows_concat(entries_rows(es.drop_last(), depth), head + tree_rows(v, depth + 1), depth);
        } else {
            let row = seq![RowView { line: k.line, depth, head: k.name + ": "@, leaf: Some(v) }];
            lemma_rows_concat(entries_rows(es.drop_last(), depth), row, depth);
        }
    }
}

proof fn lemma_items_rows_shape(items: Seq<NodeView>, depth: int)
    ensures
        items_rows(items, depth).len() == items_count(items),
        rows_end_in_scalars(items_rows(items, depth), depth),
    decreases items,
{
    if items.len() > 0 {
        let v = items.last();
        lemma_items_rows_shape(items.drop_last(), depth);
        if is_container(v.value) {
            lemma_tree_rows_shape(v, depth + 1);
            let head = seq![RowView { line: v.line, depth, head: "-"@, leaf: None }];
            lemma_rows_concat(head, tree_rows(v, depth + 1), depth);
            lemma_rows_concat(items_rows(items.drop_last(), depth), head + tree_rows(v, depth + 1), depth);
        } else {
            let row = seq![RowView { line: v.line, depth, head: "- "@, leaf: Some(v) }];
            lemma_rows_concat(items_rows(items.drop_last(), depth), row, depth);
        }
    }
}

/// A dump shows every key and every item of the tree, at every depth, one row
/// each, and a scalar document as one row of its own; no row ends in a mapping
/// or a sequence (those are shown by the rows after theirs), and no row is
/// indented less than the dump's depth.
pub proof fn law_every_key_and_item_has_a_row(n: NodeView, depth: int)
    ensures
        tree_rows(n, depth).len() == keys_and_items(n) + if n.value is Sequence || n.value is Mapping {
            0int
        } else {
            1int
        },
        forall|k: int|
            0 <= k < tree_rows(n, depth).len() ==> (#[trigger] tree_rows(n, depth)[k]).depth >= depth && (tree_rows(
                n,
                depth,
            )[k].leaf matches Some(x) ==> !(x.value is Sequence) && !(x.value is Mapping)),
{
    lemma_tree_rows_shape(n, depth);
}

} // verus!
