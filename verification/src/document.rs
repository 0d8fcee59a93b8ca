//! A manifest as the `toml` crate holds it, and what the rewriting of a
//! manifest needs of it: the tables and texts of a document, its parsing
//! and its rendering. Everything here is stated of the `toml` crate and
//! believed, not proved.

use vstd::prelude::*;

verus! {

/// A value of the `toml` crate. Nothing is seen of what it holds but
/// through the functions below.
#[verifier::external_type_specification]
#[verifier::external_body]
pub struct ExTomlValue(toml::Value);

/// A table of the `toml` crate. Nothing is seen of what it holds but
/// through the functions below.
#[verifier::external_type_specification]
#[verifier::external_body]
#[verifier::reject_recursive_types(K)]
#[verifier::reject_recursive_types(V)]
pub struct ExTomlMap<K, V>(toml::map::Map<K, V>);

/// What a value of a manifest stands for, as far as the rewriting looks
/// into it: a text, a table from keys to values, or another value (a
/// number, a boolean, a date, an array), which stands for itself.
pub ghost enum Node {
    Text(Seq<char>),
    Table(Map<Seq<char>, Node>),
    Other(toml::Value),
}

/// What the value `v` stands for.
pub uninterp spec fn toml_node(v: toml::Value) -> Node;

/// What the table `t` holds: for each of its keys, what its value stands for.
pub uninterp spec fn table_view(t: toml::map::Map<String, toml::Value>) -> Map<Seq<char>, Node>;

/// What the `toml` crate parses `text` to: the document that it stands
/// for, or nothing where `text` is no document.
pub uninterp spec fn parsed_toml(text: Seq<char>) -> Option<Node>;

/// The text that the `toml` crate writes for a document, or nothing where
/// it cannot be written as a document. The crate keeps the keys of a table
/// in their order as texts (it is built without its `preserve_order`
/// feature), so that what a document holds decides its text.
pub uninterp spec fn rendered_toml(document: Node) -> Option<Seq<char>>;

/// Trusted: builds `toml::Value::String`, a value that stands for its text.
#[verifier::external_body]
pub(crate) fn text_value(text: String) -> (v: toml::Value)
    ensures
        toml_node(v) == Node::Text(text@),
{
    toml::Value::String(text)
}

/// Trusted: calls `toml::Value::as_str`, which gives the text of a
/// `toml::Value::String` and nothing for any other value.
#[verifier::external_body]
pub(crate) fn value_text(v: &toml::Value) -> (text: Option<String>)
    ensures
        match text {
            Some(s) => toml_node(*v) == Node::Text(s@),
            None => !(toml_node(*v) is Text),
        },
{
    v.as_str().map(|s| s.to_owned())
}

/// Trusted: tells `toml::Value::Table` from the other variants: gives the
/// table of a value that is one, and any other value back as it came.
#[verifier::external_body]
pub(crate) fn into_table(v: toml::Value) -> (r: Result<
    toml::map::Map<String, toml::Value>,
    toml::Value,
>)
    ensures
        match r {
            Ok(t) => toml_node(v) == Node::Table(table_view(t)),
            Err(other) => other == v && !(toml_node(v) is Table),
        },
{
    match v {
        toml::Value::Table(t) => Ok(t),
        other => Err(other),
    }
}

/// Trusted: builds `toml::Value::Table`, a value that stands for what its table holds.
#[verifier::external_body]
pub(crate) fn table_value(t: toml::map::Map<String, toml::Value>) -> (v: toml::Value)
    ensures
        toml_node(v) == Node::Table(table_view(t)),
{
    toml::Value::Table(t)
}

/// Trusted: calls `toml::map::Map::new`, which makes an empty table.
#[verifier::external_body]
pub(crate) fn new_table() -> (table: toml::map::Map<String, toml::Value>)
    ensures
        forall|k: Seq<char>| !(#[trigger] table_view(table).contains_key(k)),
{
    toml::map::Map::new()
}

/// Trusted: calls `toml::map::Map::insert`, which sets the value of `key`,
/// in place of the value that the table had for it, if any.
#[verifier::external_body]
pub(crate) fn table_insert(
    t: &mut toml::map::Map<String, toml::Value>,
    key: String,
    value: toml::Value,
)
    ensures
        table_view(*final(t)) == table_view(*old(t)).insert(key@, toml_node(value)),
{
    t.insert(key, value);
}

/// Trusted: calls `toml::map::Map::remove`, which takes `key` out of the
/// table and returns the value that the table had for it, if any.
#[verifier::external_body]
pub(crate) fn table_remove(t: &mut toml::map::Map<String, toml::Value>, key: &str) -> (gone: Option<
    toml::Value,
>)
    ensures
        table_view(*final(t)) == table_view(*old(t)).remove(key@),
        match gone {
            Some(v) => table_view(*old(t)).contains_key(key@) && table_view(*old(t))[key@]
                == toml_node(v),
            None => !table_view(*old(t)).contains_key(key@),
        },
{
    t.remove(key)
}

/// Trusted: calls `toml::map::Map::keys`, which walks the keys of the
/// table, and collects a copy of each.
#[verifier::external_body]
pub(crate) fn table_keys(t: &toml::map::Map<String, toml::Value>) -> (keys: Vec<String>)
    ensures
        forall|k: Seq<char>|
            table_view(*t).contains_key(k) <==> exists|i: int|
                0 <= i < keys@.len() && (#[trigger] keys@[i])@ == k,
{
    t.keys().cloned().collect()
}

/// Trusted: parses `text` with the `FromStr` impl of `toml::Value`, which
/// gives the document or an error; the contract only gives what the
/// document stands for its name, `parsed_toml`. The parser descends once
/// for each level of nested arrays and inline tables and sets no limit to
/// their depth: like any call, this one needs the stack that its input asks for.
#[verifier::external_body]
pub(crate) fn parse_toml(text: &str) -> (document: Option<toml::Value>)
    ensures
        match document {
            Some(v) => parsed_toml(text@) == Some(toml_node(v)),
            None => parsed_toml(text@) is None,
        },
{
    text.parse::<toml::Value>().ok()
}

/// Trusted: calls `toml::to_string`, which gives the text of a document or
/// an error; the contract only gives that text its name, `rendered_toml`.
#[verifier::external_body]
pub(crate) fn render_toml(document: &toml::Value) -> (text: Option<String>)
    ensures
        match text {
            Some(s) => rendered_toml(toml_node(*document)) == Some(s@),
            None => rendered_toml(toml_node(*document)) is None,
        },
{
    toml::to_string(document).ok()
}

} // verus!
