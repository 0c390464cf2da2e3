//! JSON objects and their text, by way of the serde_json crate.
use vstd::prelude::*;

verus! {

/// A JSON value of the serde_json crate.
#[verifier::external_type_specification]
#[verifier::external_body]
pub struct ExValue(serde_json::Value);

/// A JSON object of the serde_json crate: values under keys.
#[verifier::external_type_specification]
#[verifier::external_body]
#[verifier::reject_recursive_types(K)]
#[verifier::reject_recursive_types(V)]
pub struct ExObject<K, V>(serde_json::Map<K, V>);

/// Why the serde_json crate could not write a value down.
#[verifier::external_type_specification]
#[verifier::external_body]
pub struct ExError(serde_json::Error);

/// A JSON object.
pub type Object = serde_json::Map<String, serde_json::Value>;

/// A JSON value without parts.
#[derive(Debug, Clone)]
pub enum Scalar {
    Null,
    Number(u64),
    Text(String),
}

/// What a JSON value holds.
pub enum ValueView {
    Null,
    Number(u64),
    Text(Seq<char>),
    /// What no [`Scalar`] holds (a truth value, a negative number, a value with
    /// parts), by its own JSON text.
    Other(Seq<char>),
}

impl View for Scalar {
    type V = ValueView;

    open spec fn view(&self) -> ValueView {
        match self {
            Scalar::Null => ValueView::Null,
            Scalar::Number(n) => ValueView::Number(*n),
            Scalar::Text(s) => ValueView::Text(s@),
        }
    }
}

/// What an object holds under its keys.
pub uninterp spec fn entries(object: serde_json::Map<String, serde_json::Value>) -> Map<
    Seq<char>,
    ValueView,
>;

/// What an object without keys holds.
pub open spec fn no_entries() -> Map<Seq<char>, ValueView> {
    Map::empty()
}

/// What the objects of `v` hold.
pub open spec fn entry_maps(v: Seq<Object>) -> Seq<Map<Seq<char>, ValueView>> {
    Seq::new(v.len(), |i: int| entries(v[i]))
}

/// The text of an array of objects that hold `objects`, as `serde_json::to_string`
/// writes it.
pub uninterp spec fn compact_text(objects: Seq<Map<Seq<char>, ValueView>>) -> Seq<char>;

/// The text of an array of objects that hold `objects`, as
/// `serde_json::to_string_pretty` writes it.
pub uninterp spec fn pretty_text(objects: Seq<Map<Seq<char>, ValueView>>) -> Seq<char>;

/// The text that came out of writing, if it did.
pub open spec fn written(r: Result<String, serde_json::Error>) -> Option<Seq<char>> {
    match r {
        Ok(text) => Some(text@),
        Err(_) => None,
    }
}

/// Whether a text stands on one line.
pub open spec fn is_one_line(text: Seq<char>) -> bool {
    forall|i: int| 0 <= i < text.len() ==> #[trigger] text[i] != '\n'
}

/// Whether a text stands in the brackets of an array.
pub open spec fn is_bracketed(text: Seq<char>) -> bool {
    text.len() >= 2 && text[0] == '[' && text.last() == ']'
}

/// `serde_json::Map::new`: an object without keys.
#[verifier::external_body]
pub(crate) fn new_object() -> (r: Object)
    ensures
        entries(r) == no_entries(),
{
    serde_json::Map::new()
}

/// `serde_json::Map::insert`: the object then holds `value` under `key`, in place
/// of what it held there, and what it holds under other keys stays.
#[verifier::external_body]
pub(crate) fn insert(object: &mut Object, key: &str, value: Scalar)
    ensures
        entries(*final(object)) == entries(*old(object)).insert(key@, value@),
{
    let value = match value {
        Scalar::Null => serde_json::Value::Null,
        Scalar::Number(n) => serde_json::Value::from(n),
        Scalar::Text(s) => serde_json::Value::String(s),
    };
    object.insert(key.to_string(), value);
}

/// `serde_json::to_string`: it writes an array of objects, whose keys are texts and
/// whose values can all be written, into memory, so it succeeds. What it writes
/// depends on nothing but what the objects hold, since an object keeps its keys in
/// their own order; it stands in brackets, and holds no line feed, since one within
/// a string is escaped. What stands in the brackets is left unsaid.
#[verifier::external_body]
pub(crate) fn write_compact(objects: &Vec<Object>) -> (r: Result<String, serde_json::Error>)
    ensures
        written(r) == Some(compact_text(entry_maps(objects@))),
        r is Ok && is_bracketed(r->Ok_0@) && is_one_line(r->Ok_0@),
{
    serde_json::to_string(objects)
}

/// `serde_json::to_string_pretty`: it succeeds as `serde_json::to_string` does, and
/// what it writes depends on nothing but what the objects hold and stands in
/// brackets. What stands in them is left unsaid.
#[verifier::external_body]
pub(crate) fn write_pretty(objects: &Vec<Object>) -> (r: Result<String, serde_json::Error>)
    ensures
        written(r) == Some(pretty_text(entry_maps(objects@))),
        r is Ok && is_bracketed(r->Ok_0@),
{
    serde_json::to_string_pretty(objects)
}

} // verus!
