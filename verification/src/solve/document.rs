//! TOML documents, as `toml_edit` holds them.
//!
//! A document is seen as the nodes that a path of keys leads to, and as the order of
//! the keys within each of its tables.
use toml_edit::{Array, DocumentMut, InlineTable, Item, Table, Value};
use vstd::prelude::*;

verus! {

/// `toml_edit::DocumentMut`, an editable document.
#[verifier::external_type_specification]
#[verifier::external_body]
pub struct ExDocumentMut(toml_edit::DocumentMut);

/// What a path of keys leads to: whether it is a table with a header or of
/// dotted keys, whether it is an inline table, which truth value it is, its text where
/// it is a string, what follows it on its line where it is a value, and its elements
/// where it is an array, each with its text where it is a string.
#[derive(Debug)]
pub struct TomlNode {
    pub is_table: bool,
    pub is_inline: bool,
    pub truth: Option<bool>,
    pub value: Option<String>,
    pub suffix: Option<String>,
    pub elements: Option<Vec<Option<String>>>,
}

/// What a `TomlNode` says.
#[verifier::ext_equal]
pub struct NodeView {
    pub is_table: bool,
    pub is_inline: bool,
    pub truth: Option<bool>,
    pub value: Option<Seq<char>>,
    pub suffix: Option<Seq<char>>,
    pub elements: Option<Seq<Option<Seq<char>>>>,
}

impl DeepView for TomlNode {
    type V = NodeView;

    open spec fn deep_view(&self) -> NodeView {
        NodeView {
            is_table: self.is_table,
            is_inline: self.is_inline,
            truth: self.truth,
            value: self.value.deep_view(),
            suffix: self.suffix.deep_view(),
            elements: self.elements.deep_view(),
        }
    }
}

/// A path of keys from the root of a document.
pub type KeyPath = Seq<Seq<char>>;

/// The nodes of a document, by the paths that lead to them.
pub type Nodes = Map<Seq<Seq<char>>, NodeView>;

/// The nodes that a document holds, by the paths that lead to them. The empty
/// path leads to the root.
pub uninterp spec fn doc_nodes(doc: toml_edit::DocumentMut) -> Map<Seq<Seq<char>>, NodeView>;

/// The keys of the table at a path, in the order of the document.
pub uninterp spec fn doc_keys(doc: toml_edit::DocumentMut, path: Seq<Seq<char>>) -> Seq<Seq<char>>;

/// The text that a document is written out as.
pub uninterp spec fn doc_text(doc: toml_edit::DocumentMut) -> Seq<char>;

/// The nodes of the document that `text` writes, or what is wrong with it.
pub uninterp spec fn toml_read(text: Seq<char>) -> Result<
    Map<Seq<Seq<char>>, NodeView>,
    Seq<char>,
>;

/// The keys of the table at a path, in the order in which `text` gives them.
pub uninterp spec fn toml_keys(text: Seq<char>, path: Seq<Seq<char>>) -> Seq<Seq<char>>;

/// A table without entries.
pub open spec fn table_node() -> NodeView {
    NodeView {
        is_table: true,
        is_inline: false,
        truth: None,
        value: None,
        suffix: None,
        elements: None,
    }
}

/// An inline table without entries.
pub open spec fn inline_node() -> NodeView {
    NodeView {
        is_table: false,
        is_inline: true,
        truth: None,
        value: None,
        suffix: None,
        elements: None,
    }
}

/// An array without elements.
pub open spec fn empty_array_node() -> NodeView {
    NodeView {
        is_table: false,
        is_inline: false,
        truth: None,
        value: None,
        suffix: None,
        elements: Some(Seq::empty()),
    }
}

/// A truth value.
pub open spec fn truth_node(value: bool) -> NodeView {
    NodeView {
        is_table: false,
        is_inline: false,
        truth: Some(value),
        value: None,
        suffix: None,
        elements: None,
    }
}

/// A string with what follows it on its line.
pub open spec fn string_node(value: Seq<char>, suffix: Seq<char>) -> NodeView {
    NodeView {
        is_table: false,
        is_inline: false,
        truth: None,
        value: Some(value),
        suffix: Some(suffix),
        elements: None,
    }
}

/// Whether a path leads to a table.
pub open spec fn table_at(nodes: Nodes, path: KeyPath) -> bool {
    nodes.dom().contains(path) && nodes[path].is_table
}

/// Whether a path leads to a table of any kind.
pub open spec fn keyed_at(nodes: Nodes, path: KeyPath) -> bool {
    nodes.dom().contains(path) && (nodes[path].is_table || nodes[path].is_inline)
}

/// Whether the way to every node leads through nodes.
pub open spec fn is_rooted(nodes: Nodes) -> bool {
    forall|path: Seq<Seq<char>>, i: int|
        nodes.dom().contains(path) && 0 <= i <= path.len() ==> #[trigger] nodes.dom().contains(
            path.take(i),
        )
}

/// Whether the nodes are those of a document: the root is a table, the way to every
/// node leads through nodes, and the way to every table leads through tables.
pub open spec fn is_sound(nodes: Nodes) -> bool {
    &&& table_at(nodes, Seq::empty())
    &&& is_rooted(nodes)
    &&& forall|path: Seq<Seq<char>>, i: int|
        table_at(nodes, path) && 0 <= i <= path.len() ==> #[trigger] table_at(nodes, path.take(i))
}

/// The nodes without those that a path leads to or through.
pub open spec fn without(nodes: Nodes, path: KeyPath) -> Nodes {
    Map::new(
        |p: Seq<Seq<char>>| nodes.dom().contains(p) && !path.is_prefix_of(p),
        |p: Seq<Seq<char>>| nodes[p],
    )
}

/// The order of the keys within each table, by the paths that lead to the tables.
pub type Orders = Map<Seq<Seq<char>>, Seq<Seq<char>>>;

/// The order of the keys within each table of a document.
pub open spec fn doc_orders(doc: toml_edit::DocumentMut) -> Orders {
    Map::new(
        |p: Seq<Seq<char>>| keyed_at(doc_nodes(doc), p),
        |p: Seq<Seq<char>>| doc_keys(doc, p),
    )
}

/// The keys with one more, which comes last where it is new.
pub open spec fn with_key(keys: Seq<Seq<char>>, key: Seq<char>) -> Seq<Seq<char>> {
    if keys.contains(key) {
        keys
    } else {
        keys.push(key)
    }
}

/// The order of the keys without the tables that a path leads to or through.
pub open spec fn orders_off(orders: Orders, path: KeyPath) -> Orders {
    Map::new(
        |p: Seq<Seq<char>>| orders.dom().contains(p) && !path.is_prefix_of(p),
        |p: Seq<Seq<char>>| orders[p],
    )
}

/// The order of the keys where a value is put under a key of the table at a path: a
/// key that is there keeps its place, and a new one comes last.
pub open spec fn orders_with_value(orders: Orders, path: KeyPath, key: Seq<char>) -> Orders {
    orders_off(orders, path.push(key)).insert(path, with_key(orders[path], key))
}

/// The order of the keys where a table without entries is put under a key of the
/// table at a path.
pub open spec fn orders_with_table(orders: Orders, path: KeyPath, key: Seq<char>) -> Orders {
    orders_with_value(orders, path, key).insert(path.push(key), Seq::empty())
}

/// The order of the keys where a key of the table at a path is taken out: the others
/// keep theirs.
pub open spec fn orders_without(orders: Orders, path: KeyPath, key: Seq<char>) -> Orders {
    orders_off(orders, path.push(key)).insert(path, orders[path].remove_value(key))
}

/// `str::parse` into a `toml_edit::DocumentMut`: the document, or the text of the
/// error. The root of a document is a table. A path leads to a node only where each
/// of its beginnings does, and to a table only where each of them leads to a table:
/// an inline table and an array hold values alone. The text gives the order of the
/// keys.
#[verifier::external_body]
pub(crate) fn parse_document(text: &str) -> (r: Result<DocumentMut, String>)
    ensures
        match r {
            Ok(doc) => toml_read(text@) == Ok::<Nodes, Seq<char>>(doc_nodes(doc)) && is_sound(
                doc_nodes(doc),
            ) && forall|path: Seq<Seq<char>>|
                keyed_at(doc_nodes(doc), path) ==> #[trigger] doc_keys(doc, path) == toml_keys(
                    text@,
                    path,
                ),
            Err(e) => toml_read(text@) == Err::<Nodes, Seq<char>>(e@),
        },
{
    text.parse::<DocumentMut>().map_err(|e| e.to_string())
}

/// `to_string` on a `toml_edit::DocumentMut`.
#[verifier::external_body]
pub(crate) fn render_document(doc: &DocumentMut) -> (r: String)
    ensures
        r@ == doc_text(*doc),
{
    doc.to_string()
}

/// `toml_edit::Item::get`, key by key from the root, and the text, decoration
/// and elements of what it leads to.
#[verifier::external_body]
pub(crate) fn node_at(doc: &DocumentMut, path: &Vec<String>) -> (r: Option<TomlNode>)
    ensures
        r.deep_view() == if doc_nodes(*doc).dom().contains(path.deep_view()) {
            Some(doc_nodes(*doc)[path.deep_view()])
        } else {
            None
        },
{
    let item: &Item = path.iter().try_fold(doc.as_item(), |item, key| item.get(key.as_str()))?;
    let value = item.as_value();
    let text = |v: &Value| v.as_str().map(str::to_string);
    Some(TomlNode {
        is_table: item.is_table(),
        is_inline: item.is_inline_table(),
        truth: item.as_bool(),
        value: value.and_then(text),
        suffix: value.and_then(|v| v.decor().suffix()?.as_str()).map(str::to_string),
        elements: value.and_then(Value::as_array).map(|a| a.iter().map(text).collect()),
    })
}

/// The keys that `toml_edit::TableLike::iter` gives for the table at a path. There
/// are no two the same, and they are the keys that lead from the table to a node.
#[verifier::external_body]
pub(crate) fn keys_at(doc: &DocumentMut, path: &Vec<String>) -> (r: Vec<String>)
    requires
        keyed_at(doc_nodes(*doc), path.deep_view()),
    ensures
        r.deep_view() == doc_keys(*doc, path.deep_view()),
        r.deep_view().no_duplicates(),
        forall|k: Seq<char>| #[trigger]
            r.deep_view().contains(k) <==> doc_nodes(*doc).dom().contains(
                path.deep_view().push(k),
            ),
{
    let item = path.iter().try_fold(doc.as_item(), |item, key| item.get(key.as_str()));
    let table = item.and_then(Item::as_table_like).expect("a table");
    table.iter().map(|(key, _)| key.to_string()).collect()
}

/// `toml_edit::Table::insert` of a new table under a key of the table at a path.
/// What the key led to before is gone. A key that is there keeps its place among the
/// others, and a new one comes last.
#[verifier::external_body]
pub(crate) fn put_table(doc: &mut DocumentMut, path: &Vec<String>, key: &str)
    requires
        table_at(doc_nodes(*old(doc)), path.deep_view()),
    ensures
        doc_nodes(*final(doc)) == without(doc_nodes(*old(doc)), path.deep_view().push(key@)).insert(
            path.deep_view().push(key@),
            table_node(),
        ),
        doc_orders(*final(doc)) == orders_with_table(
            doc_orders(*old(doc)),
            path.deep_view(),
            key@,
        ),
{
    let item = path.iter().try_fold(doc.as_item_mut(), |item, key| item.get_mut(key.as_str()));
    let table = item.and_then(Item::as_table_mut).expect("a table");
    table.insert(key, Item::Table(Table::new()));
}

/// Assignment through `toml_edit::Table`'s `IndexMut`: a string under a key of
/// the table at a path, with a suffix as its decoration. What the key led to
/// before is gone. A key that is there keeps its place among the others, and a new
/// one comes last.
#[verifier::external_body]
pub(crate) fn put_string(
    doc: &mut DocumentMut,
    path: &Vec<String>,
    key: &str,
    value: &str,
    suffix: &str,
)
    requires
        table_at(doc_nodes(*old(doc)), path.deep_view()),
    ensures
        doc_nodes(*final(doc)) == without(doc_nodes(*old(doc)), path.deep_view().push(key@)).insert(
            path.deep_view().push(key@),
            string_node(value@, suffix@),
        ),
        doc_orders(*final(doc)) == orders_with_value(
            doc_orders(*old(doc)),
            path.deep_view(),
            key@,
        ),
{
    let item = path.iter().try_fold(doc.as_item_mut(), |item, key| item.get_mut(key.as_str()));
    let table = item.and_then(Item::as_table_mut).expect("a table");
    let mut value = Value::from(value.to_string());
    value.decor_mut().set_suffix(suffix);
    table[key] = Item::Value(value);
}

/// `toml_edit::TableLike::remove` of a key of the table at a path. The other keys
/// keep their order.
#[verifier::external_body]
pub(crate) fn remove_key(doc: &mut DocumentMut, path: &Vec<String>, key: &str)
    requires
        keyed_at(doc_nodes(*old(doc)), path.deep_view()),
    ensures
        doc_nodes(*final(doc)) == without(doc_nodes(*old(doc)), path.deep_view().push(key@)),
        doc_orders(*final(doc)) == orders_without(
            doc_orders(*old(doc)),
            path.deep_view(),
            key@,
        ),
{
    let item = path.iter().try_fold(doc.as_item_mut(), |item, key| item.get_mut(key.as_str()));
    let table = item.and_then(Item::as_table_like_mut).expect("a table");
    table.remove(key);
}

/// `toml_edit::TableLike::insert` of a new inline table under a key of the table at a
/// path. What the key led to before is gone. A key that is there keeps its place among
/// the others, and a new one comes last.
#[verifier::external_body]
pub(crate) fn put_inline_table(doc: &mut DocumentMut, path: &Vec<String>, key: &str)
    requires
        keyed_at(doc_nodes(*old(doc)), path.deep_view()),
    ensures
        doc_nodes(*final(doc)) == without(doc_nodes(*old(doc)), path.deep_view().push(key@)).insert(
            path.deep_view().push(key@),
            inline_node(),
        ),
        doc_orders(*final(doc)) == orders_with_table(
            doc_orders(*old(doc)),
            path.deep_view(),
            key@,
        ),
{
    let item = path.iter().try_fold(doc.as_item_mut(), |item, key| item.get_mut(key.as_str()));
    let table = item.and_then(Item::as_table_like_mut).expect("a table");
    table.insert(key, Item::Value(Value::InlineTable(InlineTable::new())));
}

/// `toml_edit::TableLike::insert` of a new array under a key of the table at a path.
/// What the key led to before is gone. A key that is there keeps its place among the
/// others, and a new one comes last.
#[verifier::external_body]
pub(crate) fn put_empty_array(doc: &mut DocumentMut, path: &Vec<String>, key: &str)
    requires
        keyed_at(doc_nodes(*old(doc)), path.deep_view()),
    ensures
        doc_nodes(*final(doc)) == without(doc_nodes(*old(doc)), path.deep_view().push(key@)).insert(
            path.deep_view().push(key@),
            empty_array_node(),
        ),
        doc_orders(*final(doc)) == orders_with_value(
            doc_orders(*old(doc)),
            path.deep_view(),
            key@,
        ),
{
    let item = path.iter().try_fold(doc.as_item_mut(), |item, key| item.get_mut(key.as_str()));
    let table = item.and_then(Item::as_table_like_mut).expect("a table");
    table.insert(key, Item::Value(Value::Array(Array::new())));
}

/// `toml_edit::TableLike::insert` of a truth value under a key of the table at a
/// path. What the key led to before is gone. A key that is there keeps its place among
/// the others, and a new one comes last.
#[verifier::external_body]
pub(crate) fn put_truth(doc: &mut DocumentMut, path: &Vec<String>, key: &str, value: bool)
    requires
        keyed_at(doc_nodes(*old(doc)), path.deep_view()),
    ensures
        doc_nodes(*final(doc)) == without(doc_nodes(*old(doc)), path.deep_view().push(key@)).insert(
            path.deep_view().push(key@),
            truth_node(value),
        ),
        doc_orders(*final(doc)) == orders_with_value(
            doc_orders(*old(doc)),
            path.deep_view(),
            key@,
        ),
{
    let item = path.iter().try_fold(doc.as_item_mut(), |item, key| item.get_mut(key.as_str()));
    let table = item.and_then(Item::as_table_like_mut).expect("a table");
    table.insert(key, Item::Value(Value::from(value)));
}

} // verus!
