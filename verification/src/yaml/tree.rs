//! The tree a document is read into: every node carries its source line.

use vstd::prelude::*;

verus! {

/// A parsed value together with the 1-based source line it appeared on.
#[derive(Debug, PartialEq)]
pub struct Node {
    /// 1-based line in the source file.
    pub line: usize,
    /// The value itself.
    pub value: Value,
}

/// The value of a [`Node`].
#[derive(Debug, PartialEq)]
pub enum Value {
    /// `~`, `null`, or an empty value.
    Null,
    /// `true` or `false` only (and their `True`/`TRUE` casings): `yes`, `no`,
    /// `on` and `off` stay strings.
    Bool(bool),
    Int(i64),
    /// A decimal or exponent-form number, held as the text it was written as
    /// (for example `2.75` or `-2.5e-3`); it is always valid input to
    /// `str::parse::<f64>`, which turns it into a binary float.
    Float(String),
    Str(String),
    /// A block sequence.
    Sequence(Vec<Node>),
    /// A block mapping. A `Vec` rather than a map: it preserves source order
    /// and lets duplicate keys be detected and reported with both lines.
    Mapping(Vec<(Key, Node)>),
}

/// A mapping key, with the position it was written at.
#[derive(Debug, Clone, PartialEq, Eq)]
pub struct Key {
    /// The key text, with quotes removed and escapes decoded.
    pub name: String,
    /// 1-based line in the source file.
    pub line: usize,
    /// 1-based column of the key's first character.
    pub col: usize,
}

pub struct KeyView {
    pub name: Seq<char>,
    pub line: int,
    pub col: int,
}

pub enum ValueView {
    Null,
    Bool(bool),
    Int(i64),
    Float(Seq<char>),
    Str(Seq<char>),
    Sequence(Seq<NodeView>),
    Mapping(Seq<(KeyView, NodeView)>),
}

pub struct NodeView {
    pub line: int,
    pub value: ValueView,
}

impl View for Key {
    type V = KeyView;

    open spec fn view(&self) -> KeyView {
        KeyView { name: self.name@, line: self.line as int, col: self.col as int }
    }
}

/// The views of the first `k` items of a sequence.
pub open spec fn view_items(v: Vec<Node>, k: int) -> Seq<NodeView>
    decreases v, k,
{
    if k <= 0 || k > v@.len() {
        Seq::empty()
    } else {
        view_items(v, k - 1).push(view_node(v@[k - 1]))
    }
}

/// The views of the first `k` entries of a mapping.
pub open spec fn view_entries(v: Vec<(Key, Node)>, k: int) -> Seq<(KeyView, NodeView)>
    decreases v, k,
{
    if k <= 0 || k > v@.len() {
        Seq::empty()
    } else {
        view_entries(v, k - 1).push((v@[k - 1].0@, view_node(v@[k - 1].1)))
    }
}

/// The view of a node: the same tree with mathematical strings and sequences.
pub open spec fn view_node(n: Node) -> NodeView
    decreases n, 0int,
{
    NodeView {
        line: n.line as int,
        value: match n.value {
            Value::Null => ValueView::Null,
            Value::Bool(b) => ValueView::Bool(b),
            Value::Int(i) => ValueView::Int(i),
            Value::Float(t) => ValueView::Float(t@),
            Value::Str(s) => ValueView::Str(s@),
            Value::Sequence(items) => ValueView::Sequence(view_items(items, items@.len() as int)),
            Value::Mapping(entries) => ValueView::Mapping(view_entries(entries, entries@.len() as int)),
        },
    }
}

impl View for Node {
    type V = NodeView;

    open spec fn view(&self) -> NodeView {
        view_node(*self)
    }
}

/// The first entry of `entries` from `k` on whose key is `name`.
pub open spec fn named_from(entries: Seq<(KeyView, NodeView)>, name: Seq<char>, k: int) -> Option<int>
    decreases entries.len() - k,
{
    if k < 0 || k >= entries.len() {
        None
    } else if entries[k].0.name == name {
        Some(k)
    } else {
        named_from(entries, name, k + 1)
    }
}

/// The first entry of `entries` whose key is `name`.
pub open spec fn first_named(entries: Seq<(KeyView, NodeView)>, name: Seq<char>) -> Option<int> {
    named_from(entries, name, 0)
}

/// The view of a sequence's items.
pub open spec fn items_view(v: Vec<Node>) -> Seq<NodeView> {
    view_items(v, v@.len() as int)
}

/// The view of a mapping's entries.
pub open spec fn entries_view(v: Vec<(Key, Node)>) -> Seq<(KeyView, NodeView)> {
    view_entries(v, v@.len() as int)
}

pub proof fn lemma_view_items_prefix(a: Vec<Node>, b: Vec<Node>, k: int)
    requires
        0 <= k <= a@.len(),
        k <= b@.len(),
        a@.take(k) == b@.take(k),
    ensures
        view_items(a, k) == view_items(b, k),
    decreases k,
{
    if k > 0 {
        assert(a@.take(k - 1) == a@.take(k).take(k - 1));
        assert(b@.take(k - 1) == b@.take(k).take(k - 1));
        assert(a@[k - 1] == a@.take(k)[k - 1]);
        assert(b@[k - 1] == b@.take(k)[k - 1]);
        lemma_view_items_prefix(a, b, k - 1);
    }
}

pub proof fn lemma_view_entries_prefix(a: Vec<(Key, Node)>, b: Vec<(Key, Node)>, k: int)
    requires
        0 <= k <= a@.len(),
        k <= b@.len(),
        a@.take(k) == b@.take(k),
    ensures
        view_entries(a, k) == view_entries(b, k),
    decreases k,
{
    if k > 0 {
        assert(a@.take(k - 1) == a@.take(k).take(k - 1));
        assert(b@.take(k - 1) == b@.take(k).take(k - 1));
        assert(a@[k - 1] == a@.take(k)[k - 1]);
        assert(b@[k - 1] == b@.take(k)[k - 1]);
        lemma_view_entries_prefix(a, b, k - 1);
    }
}

pub proof fn lemma_view_items_len(v: Vec<Node>, k: int)
    requires
        0 <= k <= v@.len(),
    ensures
        view_items(v, k).len() == k,
        forall|j: int| 0 <= j < k ==> #[trigger] view_items(v, k)[j] == view_node(v@[j]),
    decreases k,
{
    if k > 0 {
        lemma_view_items_len(v, k - 1);
    }
}

pub proof fn lemma_view_entries_len(v: Vec<(Key, Node)>, k: int)
    requires
        0 <= k <= v@.len(),
    ensures
        view_entries(v, k).len() == k,
        forall|j: int| 0 <= j < k ==> #[trigger] view_entries(v, k)[j] == (v@[j].0@, view_node(v@[j].1)),
    decreases k,
{
    if k > 0 {
        lemma_view_entries_len(v, k - 1);
    }
}

/// Pushing a node onto a sequence extends its view by that node's view.
pub proof fn lemma_items_push(old_v: Vec<Node>, new_v: Vec<Node>, n: Node)
    requires
        new_v@ == old_v@.push(n),
    ensures
        items_view(new_v) == items_view(old_v).push(n@),
{
    assert(new_v@.take(old_v@.len() as int) == old_v@.take(old_v@.len() as int));
    lemma_view_items_prefix(new_v, old_v, old_v@.len() as int);
}

/// Pushing an entry onto a mapping extends its view by that entry's view.
pub proof fn lemma_entries_push(old_v: Vec<(Key, Node)>, new_v: Vec<(Key, Node)>, k: Key, n: Node)
    requires
        new_v@ == old_v@.push((k, n)),
    ensures
        entries_view(new_v) == entries_view(old_v).push((k@, n@)),
{
    assert(new_v@.take(old_v@.len() as int) == old_v@.take(old_v@.len() as int));
    lemma_view_entries_prefix(new_v, old_v, old_v@.len() as int);
}

/// A copy of a key.
pub fn copy_key(k: &Key) -> (r: Key)
    ensures
        r@ == k@,
{
    Key { name: k.name.clone(), line: k.line, col: k.col }
}

/// The view of a value on its own.
pub open spec fn value_view(v: Value) -> ValueView {
    view_node(Node { line: 0, value: v }).value
}

/// A deep copy of a node.
pub fn copy_node(n: &Node) -> (r: Node)
    ensures
        r@ == n@,
    decreases n, 1int,
{
    let value = copy_value(&n.value);
    Node { line: n.line, value }
}

/// A deep copy of a value.
pub fn copy_value(v: &Value) -> (r: Value)
    ensures
        value_view(r) == value_view(*v),
    decreases v, 0int,
{
    match v {
        Value::Null => Value::Null,
        Value::Bool(b) => Value::Bool(*b),
        Value::Int(i) => Value::Int(*i),
        Value::Float(t) => Value::Float(t.clone()),
        Value::Str(s) => Value::Str(s.clone()),
        Value::Sequence(items) => {
            let mut out: Vec<Node> = Vec::new();
            let mut j: usize = 0;
            while j < items.len()
                invariant
                    j <= items@.len(),
                    *v == Value::Sequence(*items),
                    out@.len() == j,
                    items_view(out) == view_items(*items, j as int),
                decreases items@.len() - j,
            {
                assert(decreases_to!(*v => (*v)->Sequence_0));
                assert(decreases_to!(*items => items@));
                assert(decreases_to!(items@ => items@[j as int]));
                let c = copy_node(&items[j]);
                let ghost before = out;
                out.push(c);
                proof {
                    lemma_items_push(before, out, c);
                }
                j = j + 1;
            }
            Value::Sequence(out)
        },
        Value::Mapping(entries) => {
            let mut out: Vec<(Key, Node)> = Vec::new();
            let mut j: usize = 0;
            while j < entries.len()
                invariant
                    j <= entries@.len(),
                    *v == Value::Mapping(*entries),
                    out@.len() == j,
                    entries_view(out) == view_entries(*entries, j as int),
                decreases entries@.len() - j,
            {
                assert(decreases_to!(*v => (*v)->Mapping_0));
                assert(decreases_to!(*entries => entries@));
                assert(decreases_to!(entries@ => entries@[j as int]));
                assert(decreases_to!(entries@[j as int] => entries@[j as int].1));
                let k = copy_key(&entries[j].0);
                let c = copy_node(&entries[j].1);
                let ghost before = out;
                out.push((k, c));
                proof {
                    lemma_entries_push(before, out, k, c);
                }
                j = j + 1;
            }
            Value::Mapping(out)
        },
    }
}

impl Clone for Node {
    fn clone(&self) -> (r: Self)
        ensures
            r@ == self@,
    {
        copy_node(self)
    }
}

impl Clone for Value {
    fn clone(&self) -> (r: Self)
        ensures
            value_view(r) == value_view(*self),
    {
        copy_value(self)
    }
}

/// The name a value's type is given in messages, e.g. "expected a mapping,
/// found a string".
pub open spec fn type_label_of(v: ValueView) -> Seq<char> {
    match v {
        ValueView::Null => "null"@,
        ValueView::Bool(_) => "boolean"@,
        ValueView::Int(_) => "integer"@,
        ValueView::Float(_) => "float"@,
        ValueView::Str(_) => "string"@,
        ValueView::Sequence(_) => "sequence"@,
        ValueView::Mapping(_) => "mapping"@,
    }
}

/// The index of the first entry of a mapping whose key is `key`.
pub fn entry_index(entries: &Vec<(Key, Node)>, key: &str) -> (r: Option<usize>)
    ensures
        r matches Some(j) ==> j < entries@.len() && first_named(entries_view(*entries), key@) == Some(j as int),
        r is None ==> first_named(entries_view(*entries), key@) is None,
{
    let name = super::text::text_of(key);
    let ghost ev = entries_view(*entries);
    proof {
        lemma_view_entries_len(*entries, entries@.len() as int);
    }
    let mut j: usize = 0;
    while j < entries.len()
        invariant
            j <= entries@.len(),
            name@ == key@,
            ev == entries_view(*entries),
            ev.len() == entries@.len(),
            forall|k: int| 0 <= k < entries@.len() ==> #[trigger] ev[k] == (entries@[k].0@, entries@[k].1@),
            named_from(ev, key@, j as int) == first_named(ev, key@),
        decreases entries@.len() - j,
    {
        if entries[j].0.name == name {
            return Some(j);
        }
        j = j + 1;
    }
    None
}

impl Node {
    /// The value of `key` in this mapping, or `None` if this is not a mapping
    /// or the key is absent.
    pub fn get(&self, key: &str) -> (r: Option<&Node>)
        ensures
            match self@.value {
                ValueView::Mapping(es) => match first_named(es, key@) {
                    Some(j) => r matches Some(n) && n@ == es[j].1,
                    None => r is None,
                },
                _ => r is None,
            },
    {
        match &self.value {
            Value::Mapping(entries) => {
                proof {
                    lemma_view_entries_len(*entries, entries@.len() as int);
                }
                match entry_index(entries, key) {
                    Some(j) => Some(&entries[j].1),
                    None => None,
                }
            },
            _ => None,
        }
    }

    /// The [`Key`] of `key` in this mapping: the line of the key itself, which
    /// is what a "this field is wrong" message points at. `None` distinguishes
    /// a missing key from one that is present with an empty value.
    pub fn get_key(&self, key: &str) -> (r: Option<&Key>)
        ensures
            match self@.value {
                ValueView::Mapping(es) => match first_named(es, key@) {
                    Some(j) => r matches Some(k) && k@ == es[j].0,
                    None => r is None,
                },
                _ => r is None,
            },
    {
        match &self.value {
            Value::Mapping(entries) => {
                proof {
                    lemma_view_entries_len(*entries, entries@.len() as int);
                }
                match entry_index(entries, key) {
                    Some(j) => Some(&entries[j].0),
                    None => None,
                }
            },
            _ => None,
        }
    }

    /// The text of a string node.
    pub fn as_str(&self) -> (r: Option<&str>)
        ensures
            match self@.value {
                ValueView::Str(s) => r matches Some(x) && x@ == s,
                _ => r is None,
            },
    {
        match &self.value {
            Value::Str(s) => Some(s.as_str()),
            _ => None,
        }
    }

    /// The value of a boolean node.
    pub fn as_bool(&self) -> (r: Option<bool>)
        ensures
            match self@.value {
                ValueView::Bool(b) => r == Some(b),
                _ => r is None,
            },
    {
        match &self.value {
            Value::Bool(b) => Some(*b),
            _ => None,
        }
    }

    /// The value of an integer node.
    pub fn as_int(&self) -> (r: Option<i64>)
        ensures
            match self@.value {
                ValueView::Int(i) => r == Some(i),
                _ => r is None,
            },
    {
        match &self.value {
            Value::Int(i) => Some(*i),
            _ => None,
        }
    }

    /// The decimal text of a float node, exactly as written; `str::parse::<f64>`
    /// accepts it.
    pub fn as_float(&self) -> (r: Option<&str>)
        ensures
            match self@.value {
                ValueView::Float(t) => r matches Some(x) && x@ == t,
                _ => r is None,
            },
    {
        match &self.value {
            Value::Float(t) => Some(t.as_str()),
            _ => None,
        }
    }

    /// The items of a sequence node.
    pub fn as_seq(&self) -> (r: Option<&[Node]>)
        ensures
            match self@.value {
                ValueView::Sequence(items) => r matches Some(x) && x@.len() == items.len() && forall|i: int|
                    0 <= i < items.len() ==> (#[trigger] x@[i])@ == items[i],
                _ => r is None,
            },
    {
        match &self.value {
            Value::Sequence(items) => {
                proof {
                    lemma_view_items_len(*items, items@.len() as int);
                }
                Some(items.as_slice())
            },
            _ => None,
        }
    }

    /// The entries of a mapping node, in source order.
    pub fn as_map(&self) -> (r: Option<&[(Key, Node)]>)
        ensures
            match self@.value {
                ValueView::Mapping(es) => r matches Some(x) && x@.len() == es.len() && forall|i: int|
                    0 <= i < es.len() ==> (#[trigger] x@[i]).0@ == es[i].0 && x@[i].1@ == es[i].1,
                _ => r is None,
            },
    {
        match &self.value {
            Value::Mapping(entries) => {
                proof {
                    lemma_view_entries_len(*entries, entries@.len() as int);
                }
                Some(entries.as_slice())
            },
            _ => None,
        }
    }

    /// Whether this is a null node.
    pub fn is_null(&self) -> (r: bool)
        ensures
            r == (self@.value is Null),
    {
        match &self.value {
            Value::Null => true,
            _ => false,
        }
    }

    /// The node's type as it should appear in a message, e.g. "expected a
    /// mapping, found a string".
    pub fn type_label(&self) -> (r: &'static str)
        ensures
            r@ == type_label_of(self@.value),
    {
        match &self.value {
            Value::Null => "null",
            Value::Bool(_) => "boolean",
            Value::Int(_) => "integer",
            Value::Float(_) => "float",
            Value::Str(_) => "string",
            Value::Sequence(_) => "sequence",
            Value::Mapping(_) => "mapping",
        }
    }
}

} // verus!
