//! The document model. Rows, schemas and query results are `bson` documents:
//! ordered maps from a name to a typed element. This module gives documents and
//! elements a mathematical view and states, over that view, what each `bson`
//! operation used by the store does.

use vstd::prelude::*;

verus! {

/// `bson::Document`: an ordered map from names to elements.
#[verifier::external_type_specification]
#[verifier::external_body]
pub struct ExDocument(bson::Document);

/// `bson::Bson`: an element of a document.
#[verifier::external_type_specification]
#[verifier::external_body]
pub struct ExBson(bson::Bson);

/// `bson::ser::Error`: why a document was not encoded.
#[verifier::external_type_specification]
#[verifier::external_body]
pub struct ExEncodeError(bson::ser::Error);

/// `bson::de::Error`: why bytes were not decoded.
#[verifier::external_type_specification]
#[verifier::external_body]
pub struct ExDecodeError(bson::de::Error);

/// What an element is, as a mathematical value.
pub enum Value {
    /// A 64-bit binary floating-point number, held as its IEEE 754 bit pattern.
    Double(u64),
    /// A string.
    Text(Seq<char>),
    /// An ordered sequence of elements.
    Array(Seq<Value>),
    /// An embedded document: its entries in insertion order.
    Embedded(Seq<(Seq<char>, Value)>),
    /// A boolean.
    Boolean(bool),
    /// A 32-bit signed integer.
    Int32(i32),
    /// A 64-bit signed integer.
    Int64(i64),
    /// The null element.
    Null,
    /// An element of a kind that the store never builds nor reads.
    Other,
}

/// The entries of a document, in insertion order.
pub type Entries = Seq<(Seq<char>, Value)>;

/// The kinds of element that the store tells apart.
#[derive(Clone, Copy, Debug, PartialEq, Eq, Structural)]
pub enum ElementKind {
    Double,
    Text,
    Array,
    Embedded,
    Boolean,
    Int32,
    Int64,
    Null,
    Other,
}

/// The entries of a document, in insertion order.
pub uninterp spec fn doc_view(d: bson::Document) -> Seq<(Seq<char>, Value)>;

/// The mathematical value of an element.
pub uninterp spec fn bson_view(b: bson::Bson) -> Value;

/// The bit pattern of the double that a text denotes; `None` where the text
/// denotes no number.
pub uninterp spec fn number_bits(text: Seq<char>) -> Option<u64>;

/// The text that stands for the double with the given bit pattern.
pub uninterp spec fn double_text(bits: u64) -> Seq<char>;

/// The bytes that encode a document, where it can be encoded.
pub uninterp spec fn encoded(d: bson::Document) -> Option<Seq<u8>>;

/// The entries of the document that a byte sequence encodes, where it encodes
/// one.
pub uninterp spec fn decoded(bytes: Seq<u8>) -> Option<Seq<(Seq<char>, Value)>>;

/// The kind of a value.
pub open spec fn kind_of(v: Value) -> ElementKind {
    match v {
        Value::Double(_) => ElementKind::Double,
        Value::Text(_) => ElementKind::Text,
        Value::Array(_) => ElementKind::Array,
        Value::Embedded(_) => ElementKind::Embedded,
        Value::Boolean(_) => ElementKind::Boolean,
        Value::Int32(_) => ElementKind::Int32,
        Value::Int64(_) => ElementKind::Int64,
        Value::Null => ElementKind::Null,
        Value::Other => ElementKind::Other,
    }
}

/// The position of the first entry named `key`, or -1 where there is none.
pub open spec fn key_index(entries: Entries, key: Seq<char>) -> int
    decreases entries.len(),
{
    if entries.len() == 0 {
        -1
    } else {
        let before = key_index(entries.drop_last(), key);
        if before >= 0 {
            before
        } else if entries.last().0 == key {
            entries.len() - 1
        } else {
            -1
        }
    }
}

/// What pins `key_index` down: the entry at it is named `key` and none before
/// it is; where it is -1, no entry is named `key`.
pub proof fn lemma_key_index(entries: Entries, key: Seq<char>)
    ensures
        -1 <= key_index(entries, key) < entries.len(),
        key_index(entries, key) >= 0 ==> entries[key_index(entries, key)].0 == key,
        forall|j: int|
            0 <= j < entries.len() && (key_index(entries, key) < 0 || j < key_index(entries, key))
                ==> (#[trigger] entries[j]).0 != key,
    decreases entries.len(),
{
    if entries.len() > 0 {
        let init = entries.drop_last();
        lemma_key_index(init, key);
        assert forall|j: int|
            0 <= j < entries.len() && (key_index(entries, key) < 0 || j < key_index(
                entries,
                key,
            )) implies (#[trigger] entries[j]).0 != key by {
            if j < init.len() {
                assert(init[j] == entries[j]);
            }
        }
    }
}

/// Whether some entry is named `key`.
pub open spec fn has_key(entries: Entries, key: Seq<char>) -> bool {
    key_index(entries, key) >= 0
}

/// The value of the first entry named `key`.
pub open spec fn entry_value(entries: Entries, key: Seq<char>) -> Option<Value> {
    if has_key(entries, key) {
        Some(entries[key_index(entries, key)].1)
    } else {
        None
    }
}

/// The entries after `key` is set to `value`: an entry of that name keeps its
/// place and takes the new value, a new name goes to the end.
pub open spec fn upsert(entries: Entries, key: Seq<char>, value: Value) -> Entries {
    let i = key_index(entries, key);
    if i >= 0 {
        entries.update(i, (key, value))
    } else {
        entries.push((key, value))
    }
}

/// The values of a sequence of elements.
pub open spec fn element_views(items: Seq<bson::Bson>) -> Seq<Value> {
    items.map_values(|b: bson::Bson| bson_view(b))
}

/// The entries that a list of named elements stands for.
pub open spec fn entry_views(items: Seq<(String, bson::Bson)>) -> Entries {
    items.map_values(|e: (String, bson::Bson)| (e.0@, bson_view(e.1)))
}

/// `bson::Document::new`: a document without entries.
#[verifier::external_body]
pub(crate) fn new_document() -> (d: bson::Document)
    ensures
        doc_view(d).len() == 0,
{
    bson::Document::new()
}

/// `bson::Document::insert`: sets `key` to `value`. An entry of that name
/// keeps its place and takes the new value; a new name is appended.
#[verifier::external_body]
pub(crate) fn doc_insert(d: &mut bson::Document, key: String, value: bson::Bson)
    ensures
        doc_view(*final(d)) == upsert(doc_view(*old(d)), key@, bson_view(value)),
{
    d.insert(key, value);
}

/// `bson::Document::get`: the element of the first entry named `key`.
#[verifier::external_body]
pub(crate) fn doc_get<'a>(d: &'a bson::Document, key: &str) -> (r: Option<&'a bson::Bson>)
    ensures
        match r {
            Some(b) => entry_value(doc_view(*d), key@) == Some(bson_view(*b)),
            None => entry_value(doc_view(*d), key@) is None,
        },
{
    d.get(key)
}

/// Whether some entry is named `key`.
pub fn doc_contains_key(d: &bson::Document, key: &str) -> (r: bool)
    ensures
        r == has_key(doc_view(*d), key@),
{
    doc_get(d, key).is_some()
}

/// The number of entries.
pub fn doc_len(d: &bson::Document) -> (r: usize)
    ensures
        r == doc_view(*d).len(),
{
    doc_keys(d).len()
}

/// `bson::Document::keys`: the names of the entries, in insertion order.
#[verifier::external_body]
pub(crate) fn doc_keys(d: &bson::Document) -> (r: Vec<String>)
    ensures
        r@.len() == doc_view(*d).len(),
        forall|i: int| 0 <= i < r@.len() ==> (#[trigger] r@[i])@ == doc_view(*d)[i].0,
{
    d.keys().cloned().collect()
}

/// `bson::Document::into_iter`: the entries, in insertion order.
#[verifier::external_body]
pub(crate) fn doc_into_entries(d: bson::Document) -> (r: Vec<(String, bson::Bson)>)
    ensures
        entry_views(r@) == doc_view(d),
{
    d.into_iter().collect()
}

/// `Clone` for `bson::Document`: a document with the same entries.
#[verifier::external_body]
pub(crate) fn clone_document(d: &bson::Document) -> (r: bson::Document)
    ensures
        doc_view(r) == doc_view(*d),
{
    d.clone()
}

/// `Clone` for `bson::Bson`: an element with the same value.
#[verifier::external_body]
pub(crate) fn clone_element(b: &bson::Bson) -> (r: bson::Bson)
    ensures
        bson_view(r) == bson_view(*b),
{
    b.clone()
}

/// What a new element is made of.
pub enum Part {
    Text(String),
    Embedded(bson::Document),
    Array(Vec<bson::Bson>),
    Int64(i64),
    Boolean(bool),
}

/// The value of the element that a part makes.
pub open spec fn part_value(p: Part) -> Value {
    match p {
        Part::Text(s) => Value::Text(s@),
        Part::Embedded(d) => Value::Embedded(doc_view(d)),
        Part::Array(items) => Value::Array(element_views(items@)),
        Part::Int64(i) => Value::Int64(i),
        Part::Boolean(b) => Value::Boolean(b),
    }
}

/// The variants `String`, `Document`, `Array`, `Int64` and `Boolean` of
/// `bson::Bson`: the element that holds what the part holds.
#[verifier::external_body]
pub(crate) fn make_element(p: Part) -> (r: bson::Bson)
    ensures
        bson_view(r) == part_value(p),
{
    match p {
        Part::Text(s) => bson::Bson::String(s),
        Part::Embedded(d) => bson::Bson::Document(d),
        Part::Array(items) => bson::Bson::Array(items),
        Part::Int64(i) => bson::Bson::Int64(i),
        Part::Boolean(b) => bson::Bson::Boolean(b),
    }
}

/// The element that holds a string.
pub fn text_element(s: String) -> (r: bson::Bson)
    ensures
        bson_view(r) == Value::Text(s@),
{
    make_element(Part::Text(s))
}

/// The element that holds an embedded document.
pub fn document_element(d: bson::Document) -> (r: bson::Bson)
    ensures
        bson_view(r) == Value::Embedded(doc_view(d)),
{
    make_element(Part::Embedded(d))
}

/// The element that holds a sequence of elements.
pub fn array_element(items: Vec<bson::Bson>) -> (r: bson::Bson)
    ensures
        bson_view(r) == Value::Array(element_views(items@)),
{
    make_element(Part::Array(items))
}

/// The element that holds a 64-bit integer.
pub fn int64_element(i: i64) -> (r: bson::Bson)
    ensures
        bson_view(r) == Value::Int64(i),
{
    make_element(Part::Int64(i))
}

/// The element that holds a boolean.
pub fn boolean_element(b: bool) -> (r: bson::Bson)
    ensures
        bson_view(r) == Value::Boolean(b),
{
    make_element(Part::Boolean(b))
}

/// `str::parse` to a double, held in `bson::Bson::Double`: the number that
/// the text denotes, `None` where it denotes none.
#[verifier::external_body]
pub(crate) fn parse_number(text: &str) -> (r: Option<bson::Bson>)
    ensures
        match r {
            Some(b) => number_bits(text@) == Some(bson_view(b)->Double_0) && bson_view(b) is Double,
            None => number_bits(text@) is None,
        },
{
    text.parse().ok().map(bson::Bson::Double)
}

/// `bson::Bson::Double` of the default double: positive zero, whose bit
/// pattern is zero.
#[verifier::external_body]
pub(crate) fn zero_number() -> (r: bson::Bson)
    ensures
        bson_view(r) == Value::Double(0),
{
    bson::Bson::Double(Default::default())
}

/// What an element holds, as far as the store reads it: the kind, and with
/// the kind a string, an array, a document, a boolean or an integer.
pub enum Shape<'a> {
    Double,
    Text(&'a str),
    Array(&'a Vec<bson::Bson>),
    Embedded(&'a bson::Document),
    Boolean(bool),
    Int32(i32),
    Int64(i64),
    Null,
    Other,
}

/// Whether a shape is that of a value.
pub open spec fn shape_fits(s: Shape<'_>, v: Value) -> bool {
    match s {
        Shape::Double => v is Double,
        Shape::Text(t) => v == Value::Text(t@),
        Shape::Array(items) => v == Value::Array(element_views(items@)),
        Shape::Embedded(d) => v == Value::Embedded(doc_view(*d)),
        Shape::Boolean(b) => v == Value::Boolean(b),
        Shape::Int32(i) => v == Value::Int32(i),
        Shape::Int64(i) => v == Value::Int64(i),
        Shape::Null => v == Value::Null,
        Shape::Other => v == Value::Other,
    }
}

/// The variants of `bson::Bson`: what an element holds. Every variant that
/// the store does not read counts as `Other`.
#[verifier::external_body]
pub(crate) fn element_shape<'a>(b: &'a bson::Bson) -> (s: Shape<'a>)
    ensures
        shape_fits(s, bson_view(*b)),
{
    match b {
        bson::Bson::Double(_) => Shape::Double,
        bson::Bson::String(t) => Shape::Text(t),
        bson::Bson::Array(items) => Shape::Array(items),
        bson::Bson::Document(d) => Shape::Embedded(d),
        bson::Bson::Boolean(v) => Shape::Boolean(*v),
        bson::Bson::Int32(i) => Shape::Int32(*i),
        bson::Bson::Int64(i) => Shape::Int64(*i),
        bson::Bson::Null => Shape::Null,
        _ => Shape::Other,
    }
}

/// The kind of an element.
pub fn element_kind(b: &bson::Bson) -> (r: ElementKind)
    ensures
        r == kind_of(bson_view(*b)),
{
    match element_shape(b) {
        Shape::Double => ElementKind::Double,
        Shape::Text(_) => ElementKind::Text,
        Shape::Array(_) => ElementKind::Array,
        Shape::Embedded(_) => ElementKind::Embedded,
        Shape::Boolean(_) => ElementKind::Boolean,
        Shape::Int32(_) => ElementKind::Int32,
        Shape::Int64(_) => ElementKind::Int64,
        Shape::Null => ElementKind::Null,
        Shape::Other => ElementKind::Other,
    }
}

/// The string that a string element holds.
pub fn element_text<'a>(b: &'a bson::Bson) -> (r: Option<&'a str>)
    ensures
        match r {
            Some(s) => bson_view(*b) == Value::Text(s@),
            None => !(bson_view(*b) is Text),
        },
{
    match element_shape(b) {
        Shape::Text(t) => Some(t),
        _ => None,
    }
}

/// The document that a document element holds.
pub fn element_document<'a>(b: &'a bson::Bson) -> (r: Option<&'a bson::Document>)
    ensures
        match r {
            Some(d) => bson_view(*b) == Value::Embedded(doc_view(*d)),
            None => !(bson_view(*b) is Embedded),
        },
{
    match element_shape(b) {
        Shape::Embedded(d) => Some(d),
        _ => None,
    }
}

/// The elements that an array element holds.
pub fn element_array<'a>(b: &'a bson::Bson) -> (r: Option<&'a Vec<bson::Bson>>)
    ensures
        match r {
            Some(items) => bson_view(*b) == Value::Array(element_views(items@)),
            None => !(bson_view(*b) is Array),
        },
{
    match element_shape(b) {
        Shape::Array(items) => Some(items),
        _ => None,
    }
}

/// The boolean that a boolean element holds.
pub fn element_bool(b: &bson::Bson) -> (r: Option<bool>)
    ensures
        match r {
            Some(v) => bson_view(*b) == Value::Boolean(v),
            None => !(bson_view(*b) is Boolean),
        },
{
    match element_shape(b) {
        Shape::Boolean(v) => Some(v),
        _ => None,
    }
}

/// The integer that a 32-bit integer element holds.
pub fn element_i32(b: &bson::Bson) -> (r: Option<i32>)
    ensures
        match r {
            Some(v) => bson_view(*b) == Value::Int32(v),
            None => !(bson_view(*b) is Int32),
        },
{
    match element_shape(b) {
        Shape::Int32(v) => Some(v),
        _ => None,
    }
}

/// The integer that a 64-bit integer element holds.
pub fn element_i64(b: &bson::Bson) -> (r: Option<i64>)
    ensures
        match r {
            Some(v) => bson_view(*b) == Value::Int64(v),
            None => !(bson_view(*b) is Int64),
        },
{
    match element_shape(b) {
        Shape::Int64(v) => Some(v),
        _ => None,
    }
}

/// `Display` for `bson::Bson`, on a double: the text that the element prints
/// as. `None` for an element of another kind.
#[verifier::external_body]
pub(crate) fn element_double_text(b: &bson::Bson) -> (r: Option<String>)
    ensures
        match r {
            Some(s) => bson_view(*b) is Double && s@ == double_text(bson_view(*b)->Double_0),
            None => !(bson_view(*b) is Double),
        },
{
    match b {
        bson::Bson::Double(_) => Some(b.to_string()),
        _ => None,
    }
}

/// `bson::Document::to_writer` into a byte vector: the bytes that encode the
/// document, or the encoder's error.
#[verifier::external_body]
pub(crate) fn encode_document(d: &bson::Document) -> (r: Result<Vec<u8>, bson::ser::Error>)
    ensures
        match r {
            Ok(bytes) => encoded(*d) == Some(bytes@),
            Err(_) => encoded(*d) is None,
        },
{
    let mut bytes: Vec<u8> = Vec::new();
    d.to_writer(&mut bytes).map(|_| bytes)
}

/// `bson::Document::from_reader` on a byte slice: the document that the bytes
/// encode, or the decoder's error.
#[verifier::external_body]
pub(crate) fn decode_document(bytes: &[u8]) -> (r: Result<bson::Document, bson::de::Error>)
    ensures
        match r {
            Ok(d) => decoded(bytes@) == Some(doc_view(d)),
            Err(_) => decoded(bytes@) is None,
        },
{
    bson::Document::from_reader(bytes)
}

} // verus!
