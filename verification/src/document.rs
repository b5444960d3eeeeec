//! BSON documents: decoding, lookup by dotted paths, and the text of what is found.

use crate::double::{exponent, is_nan};
use crate::field_type::FieldType;
use crate::frame::is_framed;
use crate::text::{
    decimal, is_digit, is_number, law_decimal_is_read_back, law_only_signed_digits_are_parsed,
    law_parts_of_both_sides, law_signed_digits_are_parsed, law_text_without_separator_is_one_part,
    number, parse_index, parse_integer, split, split_text, to_chars,
};
use crate::value::{
    coerce_value, is_coerced, value_text, value_to_string, TypedValue, Value, ValueView,
};
use vstd::prelude::*;

verus! {

/// `bson::Bson`, one BSON value.
#[verifier::external_type_specification]
#[verifier::external_body]
pub struct ExBson(bson::Bson);

/// `bson::Document`, a BSON document: values by the names of the fields.
#[verifier::external_type_specification]
#[verifier::external_body]
pub struct ExDocument(bson::Document);

/// `bson::de::Error`, the reason why bytes are no BSON document.
#[verifier::external_type_specification]
#[verifier::external_body]
pub struct ExDecodeError(bson::de::Error);

/// `bson::ser::Error`, the reason why a document has no encoding.
#[verifier::external_type_specification]
#[verifier::external_body]
pub struct ExEncodeError(bson::ser::Error);

/// The two texts of a container.
pub struct ContainerTexts {
    /// The text that `Display` writes.
    pub display: Seq<char>,
    /// The text in extended JSON.
    pub json: Seq<char>,
}

/// A BSON value as a tree. A container holds its parts and its texts.
pub enum Node {
    Leaf(ValueView),
    Array(Seq<Node>, ContainerTexts),
    Document(Map<Seq<char>, Node>, ContainerTexts),
}

/// Whether a text stands for itself between the double quotes of a JSON string: it has no
/// double quote, no backslash and no control character.
pub open spec fn is_unescaped(s: Seq<char>) -> bool {
    forall|i: int| 0 <= i < s.len() ==> is_unescaped_char(#[trigger] s[i])
}

/// Whether a character stands for itself in a JSON string.
pub open spec fn is_unescaped_char(c: char) -> bool {
    c >= ' ' && c != '"' && c != '\\'
}

/// Whether `Display` writes a value in a container as JSON: finite numbers, truth values,
/// null, and texts that need no escapes. Other kinds are written in a notation of their
/// own.
pub open spec fn scalar_prints_as_json(v: ValueView) -> bool {
    match v {
        ValueView::Double(bits) => exponent(bits) != 0x7ff,
        ValueView::String(s) => is_unescaped(s),
        ValueView::Boolean(_) => true,
        ValueView::Null => true,
        ValueView::Int32(_) => true,
        ValueView::Int64(_) => true,
        ValueView::Decimal128(text) => text.len() > 0 && is_digit(text.last()),
        _ => false,
    }
}

impl Node {
    /// Whether the text that `Display` writes is a JSON form of the value: the names of
    /// fields need no escapes, and each part prints as JSON.
    pub open spec fn prints_as_json(self) -> bool
        decreases self,
    {
        match self {
            Node::Leaf(v) => scalar_prints_as_json(v),
            Node::Array(items, _) => forall|i: int|
                0 <= i < items.len() ==> (#[trigger] items[i]).prints_as_json(),
            Node::Document(fields, _) => forall|name: Seq<char>| #[trigger]
                fields.dom().contains(name) ==> is_unescaped(name)
                    && fields[name].prints_as_json(),
        }
    }

    /// The JSON form of a container with the given texts: what `Display` writes, where that
    /// is JSON.
    pub open spec fn json_form(self, texts: ContainerTexts) -> Seq<char> {
        if self.prints_as_json() {
            texts.display
        } else {
            texts.json
        }
    }

    /// What is read off the value when it is selected.
    pub open spec fn value(self) -> ValueView {
        match self {
            Node::Leaf(v) => v,
            Node::Array(_, texts) => ValueView::Array(self.json_form(texts)),
            Node::Document(_, texts) => ValueView::Document(self.json_form(texts)),
        }
    }

    /// The part of a container that one segment of a path names: a field of a document,
    /// or the element of an array with that index.
    pub open spec fn child(self, segment: Seq<char>) -> Option<Node> {
        match self {
            Node::Leaf(_) => None,
            Node::Array(items, _) => match parse_integer(segment, 0, usize::MAX as int) {
                Some(i) => if i < items.len() {
                    Some(items[i])
                } else {
                    None
                },
                None => None,
            },
            Node::Document(fields, _) => if fields.dom().contains(segment) {
                Some(fields[segment])
            } else {
                None
            },
        }
    }
}

/// What a BSON value holds.
pub uninterp spec fn bson_node(b: bson::Bson) -> Node;

/// What a BSON document holds: the values of its fields by their names.
pub uninterp spec fn document_fields(d: bson::Document) -> Map<Seq<char>, Node>;

/// The fields of the document that the bytes encode, if they encode one.
pub uninterp spec fn decoded(bytes: Seq<u8>) -> Option<Map<Seq<char>, Node>>;

/// `bson::Document::from_reader` on bytes in memory: the document that they encode, or
/// an error. Which of the two, and what the document holds, depends on the bytes alone.
#[verifier::external_body]
fn document_from_bytes(bytes: &[u8]) -> (r: Result<bson::Document, bson::de::Error>)
    ensures
        match r {
            Ok(d) => decoded(bytes@) == Some(document_fields(d)),
            Err(_) => decoded(bytes@) is None,
        },
{
    bson::Document::from_reader(bytes)
}

/// `bson::Document::get`: the value of the field with that name, if there is one.
#[verifier::external_body]
fn document_get<'a>(d: &'a bson::Document, name: &str) -> (r: Option<&'a bson::Bson>)
    ensures
        match r {
            Some(b) => document_fields(*d).dom().contains(name@) && document_fields(*d)[name@]
                == bson_node(*b),
            None => !document_fields(*d).dom().contains(name@),
        },
{
    d.get(name)
}

/// `bson::Document::iter`: the fields with their values, each field of the document.
#[verifier::external_body]
fn document_entries(d: &bson::Document) -> (r: Vec<(&String, &bson::Bson)>)
    ensures
        forall|i: int|
            0 <= i < r@.len() ==> document_fields(*d).dom().contains((#[trigger] r@[i]).0@)
                && document_fields(*d)[r@[i].0@] == bson_node(*r@[i].1),
        forall|name: Seq<char>| #[trigger]
            document_fields(*d).dom().contains(name) ==> exists|i: int|
                0 <= i < r@.len() && (#[trigger] r@[i]).0@ == name,
{
    d.iter().collect()
}

/// `bson::Bson::as_document`: the document, where the value is one.
#[verifier::external_body]
fn as_document(b: &bson::Bson) -> (r: Option<&bson::Document>)
    ensures
        match r {
            Some(d) => bson_node(*b) matches Node::Document(fields, _) && fields
                == document_fields(*d),
            None => !(bson_node(*b) is Document),
        },
{
    b.as_document()
}

/// `bson::Bson::as_array`: the elements, where the value is an array.
#[verifier::external_body]
fn as_array(b: &bson::Bson) -> (r: Option<&Vec<bson::Bson>>)
    ensures
        match r {
            Some(v) => bson_node(*b) matches Node::Array(items, _) && items == v@.map_values(
                |x: bson::Bson| bson_node(x),
            ),
            None => !(bson_node(*b) is Array),
        },
{
    b.as_array()
}

/// Whether a value is of one of the kinds that `read_plain` reads.
pub open spec fn is_plain(v: ValueView) -> bool {
    v is Double || v is String || v is Boolean || v is Null || v is Int32 || v is Int64
        || v is ObjectId || v is DateTime
}

/// Whether a value is of one of the kinds that `read_symbolic` reads.
pub open spec fn is_symbolic(v: ValueView) -> bool {
    v is Timestamp || v is Symbol || v is RegularExpression || v is JavaScriptCode
        || v is JavaScriptCodeWithScope || v is Undefined || v is MinKey || v is MaxKey
}

/// The data of the variants of `bson::Bson` for numbers, texts, truth values, object ids
/// and points in time; a double by its bits.
#[verifier::external_body]
fn read_plain(b: &bson::Bson) -> (r: Option<Value>)
    ensures
        match r {
            Some(v) => v@ == bson_node(*b).value() && is_plain(v@),
            None => !is_plain(bson_node(*b).value()),
        },
{
    match b {
        bson::Bson::Double(v) => Some(Value::Double(v.to_bits())),
        bson::Bson::String(v) => Some(Value::String(v.clone())),
        bson::Bson::Boolean(v) => Some(Value::Boolean(*v)),
        bson::Bson::Null => Some(Value::Null),
        bson::Bson::Int32(v) => Some(Value::Int32(*v)),
        bson::Bson::Int64(v) => Some(Value::Int64(*v)),
        bson::Bson::ObjectId(v) => Some(Value::ObjectId(v.bytes())),
        bson::Bson::DateTime(v) => Some(Value::DateTime(v.timestamp_millis())),
        _ => None,
    }
}

/// The data of the variants of `bson::Bson` for timestamps, symbols, regular
/// expressions, code, and the kinds with a single value.
#[verifier::external_body]
fn read_symbolic(b: &bson::Bson) -> (r: Option<Value>)
    ensures
        match r {
            Some(v) => v@ == bson_node(*b).value() && is_symbolic(v@),
            None => !is_symbolic(bson_node(*b).value()),
        },
{
    match b {
        bson::Bson::Timestamp(v) => Some(Value::Timestamp { time: v.time, increment: v.increment }),
        bson::Bson::Symbol(v) => Some(Value::Symbol(v.clone())),
        bson::Bson::RegularExpression(v) => Some(
            Value::RegularExpression { pattern: v.pattern.clone(), options: v.options.clone() },
        ),
        bson::Bson::JavaScriptCode(v) => Some(Value::JavaScriptCode(v.clone())),
        bson::Bson::JavaScriptCodeWithScope(v) => {
            Some(Value::JavaScriptCodeWithScope(v.code.clone()))
        },
        bson::Bson::Undefined => Some(Value::Undefined),
        bson::Bson::MinKey => Some(Value::MinKey),
        bson::Bson::MaxKey => Some(Value::MaxKey),
        _ => None,
    }
}

/// The kinds of scalars of which the text is read.
enum Rendered {
    Decimal128,
    Binary,
    DbPointer,
}

/// Tells the variants of `bson::Bson` for decimals, bytes and pointers apart. Any other
/// value is a container, or of a kind that `read_plain` or `read_symbolic` reads.
#[verifier::external_body]
fn rendered_kind(b: &bson::Bson) -> (r: Option<Rendered>)
    ensures
        match r {
            Some(Rendered::Decimal128) => bson_node(*b).value() is Decimal128,
            Some(Rendered::Binary) => bson_node(*b).value() is Binary,
            Some(Rendered::DbPointer) => bson_node(*b).value() is DbPointer,
            None => !(bson_node(*b) is Leaf) || is_plain(bson_node(*b).value()) || is_symbolic(
                bson_node(*b).value(),
            ),
        },
{
    match b {
        bson::Bson::Decimal128(_) => Some(Rendered::Decimal128),
        bson::Bson::Binary(_) => Some(Rendered::Binary),
        bson::Bson::DbPointer(_) => Some(Rendered::DbPointer),
        _ => None,
    }
}

/// `Display` of `bson::Bson`, which gives the texts of decimals and of bytes, and one of
/// the texts of arrays and documents.
#[verifier::external_body]
fn display_text(b: &bson::Bson) -> (r: String)
    ensures
        match bson_node(*b) {
            Node::Leaf(ValueView::Decimal128(text)) => r@ == text,
            Node::Leaf(ValueView::Binary(text)) => r@ == text,
            Node::Leaf(_) => true,
            Node::Array(_, texts) => r@ == texts.display,
            Node::Document(_, texts) => r@ == texts.display,
        },
{
    b.to_string()
}

/// `bson::Bson::into_relaxed_extjson`, printed on one line, which gives the JSON texts of
/// arrays and documents.
#[verifier::external_body]
fn json_text(b: &bson::Bson) -> (r: String)
    ensures
        match bson_node(*b) {
            Node::Leaf(_) => true,
            Node::Array(_, texts) => r@ == texts.json,
            Node::Document(_, texts) => r@ == texts.json,
        },
{
    b.clone().into_relaxed_extjson().to_string()
}

/// `Debug` of `bson::Bson`, which gives the text of a pointer.
#[verifier::external_body]
fn debug_text(b: &bson::Bson) -> (r: String)
    ensures
        bson_node(*b).value() matches ValueView::DbPointer(text) ==> r@ == text,
{
    format!("{b:?}")
}

fn read_scalar(b: &bson::Bson) -> (r: Value)
    requires
        bson_node(*b) is Leaf,
    ensures
        r@ == bson_node(*b).value(),
{
    match rendered_kind(b) {
        Some(Rendered::Decimal128) => Value::Decimal128(display_text(b)),
        Some(Rendered::Binary) => Value::Binary(display_text(b)),
        Some(Rendered::DbPointer) => Value::DbPointer(debug_text(b)),
        None => match read_plain(b) {
            Some(v) => v,
            None => match read_symbolic(b) {
                Some(v) => v,
                None => unreached(),
            },
        },
    }
}

fn unescaped(s: &str) -> (r: bool)
    ensures
        r == is_unescaped(s@),
{
    let chars = to_chars(s);
    let mut i: usize = 0;
    while i < chars.len()
        invariant
            i <= chars.len(),
            chars@ == s@,
            forall|j: int| 0 <= j < i ==> is_unescaped_char(#[trigger] chars@[j]),
        decreases chars.len() - i,
    {
        let c: char = chars[i];
        if !(c >= ' ' && c != '"' && c != '\\') {
            assert(!is_unescaped_char(s@[i as int]));
            return false;
        }
        i += 1;
    }
    true
}

fn ends_in_digit(s: &str) -> (r: bool)
    ensures
        r == (s@.len() > 0 && is_digit(s@.last())),
{
    let chars = to_chars(s);
    if chars.len() == 0 {
        return false;
    }
    let c: char = chars[chars.len() - 1];
    '0' <= c && c <= '9'
}

fn prints_as_json(b: &bson::Bson) -> (r: bool)
    ensures
        r == bson_node(*b).prints_as_json(),
    decreases bson_node(*b),
{
    if let Some(items) = as_array(b) {
        let ghost nodes = bson_node(*b)->Array_0;
        let mut i: usize = 0;
        while i < items.len()
            invariant
                i <= items.len(),
                bson_node(*b) is Array,
                nodes == bson_node(*b)->Array_0,
                nodes == items@.map_values(|x: bson::Bson| bson_node(x)),
                forall|j: int| 0 <= j < i ==> (#[trigger] nodes[j]).prints_as_json(),
            decreases items.len() - i,
        {
            assert(nodes[i as int] == bson_node(items@[i as int]));
            if !prints_as_json(&items[i]) {
                return false;
            }
            i += 1;
        }
        return true;
    }
    if let Some(d) = as_document(b) {
        let ghost fields = bson_node(*b)->Document_0;
        let entries = document_entries(d);
        let mut i: usize = 0;
        while i < entries.len()
            invariant
                i <= entries.len(),
                bson_node(*b) is Document,
                fields == bson_node(*b)->Document_0,
                forall|j: int|
                    0 <= j < entries@.len() ==> fields.dom().contains((#[trigger] entries@[j]).0@)
                        && fields[entries@[j].0@] == bson_node(*entries@[j].1),
                forall|j: int|
                    0 <= j < i ==> is_unescaped((#[trigger] entries@[j]).0@)
                        && fields[entries@[j].0@].prints_as_json(),
            decreases entries.len() - i,
        {
            let (name, value) = entries[i];
            assert(fields.dom().contains(entries@[i as int].0@));
            if !unescaped(name.as_str()) {
                return false;
            }
            if !prints_as_json(value) {
                return false;
            }
            i += 1;
        }
        return true;
    }
    match read_scalar(b) {
        Value::Double(bits) => (bits / 0x10_0000_0000_0000) % 2048 != 0x7ff,
        Value::String(s) => unescaped(s.as_str()),
        Value::Boolean(_) => true,
        Value::Null => true,
        Value::Int32(_) => true,
        Value::Int64(_) => true,
        Value::Decimal128(text) => ends_in_digit(text.as_str()),
        _ => false,
    }
}

fn container_text(b: &bson::Bson) -> (r: String)
    ensures
        match bson_node(*b) {
            Node::Leaf(_) => true,
            Node::Array(_, texts) => r@ == bson_node(*b).json_form(texts),
            Node::Document(_, texts) => r@ == bson_node(*b).json_form(texts),
        },
{
    if prints_as_json(b) {
        display_text(b)
    } else {
        json_text(b)
    }
}

/// What this library reads off a BSON value.
pub fn read_value(b: &bson::Bson) -> (r: Value)
    ensures
        r@ == bson_node(*b).value(),
{
    if as_array(b).is_some() {
        Value::Array(container_text(b))
    } else if as_document(b).is_some() {
        Value::Document(container_text(b))
    } else {
        read_scalar(b)
    }
}

/// The string representation of a BSON value. Documents and arrays are serialized as
/// their JSON form, so the cell still carries the information.
pub fn bson_to_string(b: &bson::Bson) -> (r: String)
    ensures
        r@ == value_text(bson_node(*b).value()),
{
    value_to_string(&read_value(b))
}

/// Coerces a BSON value into the requested `FieldType`. Returns `Null` on any
/// mismatch; the goal is to be permissive at extract time (best-effort) so
/// a single malformed document doesn't abort the whole run.
pub fn coerce(b: &bson::Bson, ty: FieldType) -> (r: TypedValue)
    ensures
        is_coerced(bson_node(*b).value(), ty, r@),
{
    coerce_value(&read_value(b), ty)
}

/// Why bytes were not read as a document.
#[derive(Debug)]
pub enum DecodeError {
    /// The bytes are not a BSON document.
    Malformed(bson::de::Error),
}

/// Decodes the bytes of one BSON document.
pub fn decode_document(bytes: &[u8]) -> (r: Result<bson::Document, DecodeError>)
    ensures
        match r {
            Ok(d) => decoded(bytes@) == Some(document_fields(d)),
            Err(_) => decoded(bytes@) is None,
        },
{
    match document_from_bytes(bytes) {
        Ok(d) => Ok(d),
        Err(e) => Err(DecodeError::Malformed(e)),
    }
}

/// Whether a field of the name is stored, and read back as a field: the name holds no zero
/// character, and does not begin with a dollar sign, as the names do that a decoder takes
/// for the notation of a value of another kind.
pub open spec fn is_field_name(name: Seq<char>) -> bool {
    !name.contains('\0') && (name.len() > 0 ==> name[0] != '$')
}

impl Node {
    /// Whether the value is made of numbers, texts, truth values, nulls, object ids and
    /// points in time, in arrays and documents.
    pub open spec fn is_storable(self) -> bool
        decreases self,
    {
        match self {
            Node::Leaf(v) => is_plain(v) && (v matches ValueView::Double(bits) ==> !is_nan(bits)),
            Node::Array(items, _) => forall|i: int|
                0 <= i < items.len() ==> (#[trigger] items[i]).is_storable(),
            Node::Document(fields, _) => forall|name: Seq<char>| #[trigger]
                fields.dom().contains(name) ==> is_field_name(name)
                    && fields[name].is_storable(),
        }
    }
}

/// Whether all fields of a document are storable.
pub open spec fn are_storable(fields: Map<Seq<char>, Node>) -> bool {
    forall|name: Seq<char>| #[trigger]
        fields.dom().contains(name) ==> is_field_name(name) && fields[name].is_storable()
}

/// Whether the bytes begin with their own number and decode to a document with the fields.
pub open spec fn is_encoding(bytes: Seq<u8>, fields: Map<Seq<char>, Node>) -> bool {
    is_framed(bytes) && decoded(bytes) == Some(fields)
}

/// `bson::Document::to_writer` into memory: the encoding of a document, which begins with
/// its own length, where that fits. A document of storable fields has an encoding, and
/// decodes from it. Of other documents it is left open whether they have one, and what it
/// decodes to.
#[verifier::external_body]
fn document_to_bytes(d: &bson::Document) -> (r: Result<Vec<u8>, bson::ser::Error>)
    ensures
        match r {
            Ok(bytes) => bytes@.len() <= i32::MAX ==> is_framed(bytes@) && (are_storable(
                document_fields(*d),
            ) ==> decoded(bytes@) == Some(document_fields(*d))),
            Err(_) => !are_storable(document_fields(*d)),
        },
{
    let mut bytes = Vec::new();
    d.to_writer(&mut bytes)?;
    Ok(bytes)
}

/// Why a document was not encoded.
#[derive(Debug)]
pub enum EncodeError {
    /// The document has no encoding.
    Unencodable(bson::ser::Error),
}

/// Encodes a document as it stands in a dump.
pub fn encode_document(doc: &bson::Document) -> (r: Result<Vec<u8>, EncodeError>)
    ensures
        match r {
            Ok(bytes) => bytes@.len() <= i32::MAX ==> is_framed(bytes@) && (are_storable(
                document_fields(*doc),
            ) ==> is_encoding(bytes@, document_fields(*doc))),
            Err(_) => !are_storable(document_fields(*doc)),
        },
{
    match document_to_bytes(doc) {
        Ok(bytes) => Ok(bytes),
        Err(e) => Err(EncodeError::Unencodable(e)),
    }
}

/// The value that the segments lead to from `n`.
pub open spec fn resolve(n: Node, segments: Seq<Seq<char>>) -> Option<Node>
    decreases segments.len(),
{
    if segments.len() == 0 {
        Some(n)
    } else {
        match n.child(segments[0]) {
            Some(c) => resolve(c, segments.drop_first()),
            None => None,
        }
    }
}

/// The value that a dotted path leads to in a document with the given fields.
pub open spec fn lookup(fields: Map<Seq<char>, Node>, path: Seq<char>) -> Option<Node> {
    let segments = split(path, '.');
    if fields.dom().contains(segments[0]) {
        resolve(fields[segments[0]], segments.drop_first())
    } else {
        None
    }
}

/// The text of the value that a dotted path leads to.
pub open spec fn flattened(fields: Map<Seq<char>, Node>, path: Seq<char>) -> Option<Seq<char>> {
    match lookup(fields, path) {
        Some(n) => Some(value_text(n.value())),
        None => None,
    }
}

/// The part of a container that one segment of a path names.
fn get_child<'a>(b: &'a bson::Bson, segment: &str) -> (r: Option<&'a bson::Bson>)
    ensures
        match r {
            Some(c) => bson_node(*b).child(segment@) == Some(bson_node(*c)),
            None => bson_node(*b).child(segment@) is None,
        },
{
    if let Some(d) = as_document(b) {
        return document_get(d, segment);
    }
    if let Some(items) = as_array(b) {
        return match parse_index(segment) {
            Some(i) => if i < items.len() {
                Some(&items[i])
            } else {
                None
            },
            None => None,
        };
    }
    None
}

/// The value that a dotted path leads to: `user.address.city` for sub-documents,
/// `tags.0` for array elements.
pub fn find<'a>(doc: &'a bson::Document, path: &str) -> (r: Option<&'a bson::Bson>)
    ensures
        match r {
            Some(b) => lookup(document_fields(*doc), path@) == Some(bson_node(*b)),
            None => lookup(document_fields(*doc), path@) is None,
        },
{
    let segments = split_text(path, '.');
    let ghost names = split(path@, '.');
    let ghost views = |part: String| part@;
    proof {
        assert(segments@.map_values(views) == names);
        assert(segments.len() == names.len());
        assert forall|i: int| 0 <= i < names.len() implies #[trigger] names[i]
            == segments@[i]@ by {
            assert(names[i] == segments@.map_values(views)[i]);
        }
    }
    let mut current: &'a bson::Bson = match document_get(doc, segments[0].as_str()) {
        Some(b) => b,
        None => {
            return None;
        },
    };
    let mut i: usize = 1;
    let ghost target = lookup(document_fields(*doc), path@);
    proof {
        assert(names.drop_first() =~= names.skip(1));
    }
    while i < segments.len()
        invariant
            1 <= i <= segments.len(),
            segments.len() == names.len(),
            forall|j: int| 0 <= j < names.len() ==> #[trigger] names[j] == segments@[j]@,
            target == lookup(document_fields(*doc), path@),
            target == resolve(bson_node(*current), names.skip(i as int)),
        decreases segments.len() - i,
    {
        proof {
            assert(names.skip(i as int)[0] == segments@[i as int]@);
            assert(names.skip(i as int).drop_first() =~= names.skip(i + 1));
        }
        current = match get_child(current, segments[i].as_str()) {
            Some(b) => b,
            None => {
                return None;
            },
        };
        i += 1;
    }
    Some(current)
}

/// Resolves a dotted path against a BSON document and renders the value that it leads
/// to. Returns `None` if the path does not exist.
pub fn get_flattened(doc: &bson::Document, path: &str) -> (r: Option<String>)
    ensures
        match r {
            Some(s) => flattened(document_fields(*doc), path@) == Some(s@),
            None => flattened(document_fields(*doc), path@) is None,
        },
{
    match find(doc, path) {
        Some(b) => Some(bson_to_string(b)),
        None => None,
    }
}

proof fn lemma_resolve_further(n: Node, a: Seq<Seq<char>>, b: Seq<Seq<char>>)
    ensures
        resolve(n, a + b) == match resolve(n, a) {
            Some(m) => resolve(m, b),
            None => None,
        },
    decreases a.len(),
{
    let all = a + b;
    if a.len() == 0 {
        assert(all =~= b);
    } else {
        assert(all.drop_first() =~= a.drop_first() + b);
        if let Some(c) = n.child(a[0]) {
            lemma_resolve_further(c, a.drop_first(), b);
        }
    }
}

/// A path goes on from where its beginning leads: what `a.b` leads to is what `b` leads
/// to from the value that `a` leads to.
pub proof fn law_paths_are_followed_step_by_step(
    fields: Map<Seq<char>, Node>,
    a: Seq<char>,
    b: Seq<char>,
)
    ensures
        lookup(fields, a + seq!['.'] + b) == match lookup(fields, a) {
            Some(n) => resolve(n, split(b, '.')),
            None => None,
        },
{
    law_parts_of_both_sides(a, b, '.');
    let first = split(a, '.');
    let second = split(b, '.');
    assert((first + second)[0] == first[0]);
    assert((first + second).drop_first() =~= first.drop_first() + second);
    if fields.dom().contains(first[0]) {
        lemma_resolve_further(fields[first[0]], first.drop_first(), second);
    }
}

/// In a sub-document a path leads to what it leads to in that document by itself.
pub proof fn law_sub_documents_are_documents(
    fields: Map<Seq<char>, Node>,
    a: Seq<char>,
    b: Seq<char>,
    inner: Map<Seq<char>, Node>,
    texts: ContainerTexts,
)
    requires
        lookup(fields, a) == Some(Node::Document(inner, texts)),
    ensures
        lookup(fields, a + seq!['.'] + b) == lookup(inner, b),
        flattened(fields, a + seq!['.'] + b) == flattened(inner, b),
{
    law_paths_are_followed_step_by_step(fields, a, b);
}

/// No path leads on from a value that is neither a document nor an array.
pub proof fn law_scalars_have_no_parts(
    fields: Map<Seq<char>, Node>,
    a: Seq<char>,
    b: Seq<char>,
    v: ValueView,
)
    requires
        lookup(fields, a) == Some(Node::Leaf(v)),
    ensures
        lookup(fields, a + seq!['.'] + b) is None,
{
    law_paths_are_followed_step_by_step(fields, a, b);
}

/// A name without a dot leads to the field of that name, and to nothing where there is no
/// such field.
pub proof fn law_names_lead_to_fields(fields: Map<Seq<char>, Node>, name: Seq<char>)
    requires
        !name.contains('.'),
    ensures
        fields.dom().contains(name) ==> lookup(fields, name) == Some(fields[name]),
        !fields.dom().contains(name) ==> lookup(fields, name) is None,
{
    law_text_without_separator_is_one_part(name, '.');
    assert(seq![name].drop_first() =~= Seq::empty());
}

proof fn lemma_last_segment(fields: Map<Seq<char>, Node>, a: Seq<char>, segment: Seq<char>)
    requires
        !segment.contains('.'),
    ensures
        lookup(fields, a + seq!['.'] + segment) == match lookup(fields, a) {
            Some(n) => n.child(segment),
            None => None,
        },
{
    law_paths_are_followed_step_by_step(fields, a, segment);
    law_text_without_separator_is_one_part(segment, '.');
    reveal_with_fuel(resolve, 2);
    assert(seq![segment].drop_first() =~= Seq::empty());
}

/// In a sub-document a further name leads to its field of that name, and to nothing where
/// it has no such field.
pub proof fn law_names_lead_to_fields_of_sub_documents(
    fields: Map<Seq<char>, Node>,
    a: Seq<char>,
    inner: Map<Seq<char>, Node>,
    texts: ContainerTexts,
    name: Seq<char>,
)
    requires
        lookup(fields, a) == Some(Node::Document(inner, texts)),
        !name.contains('.'),
    ensures
        inner.dom().contains(name) ==> lookup(fields, a + seq!['.'] + name) == Some(inner[name]),
        !inner.dom().contains(name) ==> lookup(fields, a + seq!['.'] + name) is None,
{
    lemma_last_segment(fields, a, name);
}

/// The decimal digits of an index lead to the element of an array with that index, the first
/// of which is 0, and to nothing behind the last one.
pub proof fn law_indices_lead_to_elements(
    fields: Map<Seq<char>, Node>,
    a: Seq<char>,
    items: Seq<Node>,
    texts: ContainerTexts,
    i: nat,
)
    requires
        lookup(fields, a) == Some(Node::Array(items, texts)),
        items.len() <= usize::MAX,
    ensures
        i < items.len() ==> lookup(fields, a + seq!['.'] + decimal(i)) == Some(items[i as int]),
        i >= items.len() ==> lookup(fields, a + seq!['.'] + decimal(i)) is None,
{
    let digits = decimal(i);
    law_decimal_is_read_back(i);
    assert(!digits.contains('.')) by {
        assert forall|k: int| 0 <= k < digits.len() implies digits[k] != '.' by {
            assert(is_digit(digits[k]));
        }
    }
    law_signed_digits_are_parsed(digits, 0, usize::MAX as int);
    lemma_last_segment(fields, a, digits);
}

/// Only digits, after a plus sign or none, lead to an element of an array: to the one whose
/// index they spell.
pub proof fn law_only_indices_lead_to_elements(
    fields: Map<Seq<char>, Node>,
    a: Seq<char>,
    items: Seq<Node>,
    texts: ContainerTexts,
    segment: Seq<char>,
)
    requires
        lookup(fields, a) == Some(Node::Array(items, texts)),
        !segment.contains('.'),
        lookup(fields, a + seq!['.'] + segment) is Some,
    ensures
        is_number(segment) || (segment.len() > 0 && segment[0] == '+' && is_number(
            segment.skip(1),
        )),
        is_number(segment) ==> number(segment) < items.len() && lookup(
            fields,
            a + seq!['.'] + segment,
        ) == Some(items[number(segment) as int]),
{
    lemma_last_segment(fields, a, segment);
    law_only_signed_digits_are_parsed(segment, 0, usize::MAX as int);
    if is_number(segment) {
        law_signed_digits_are_parsed(segment, 0, usize::MAX as int);
    }
}

/// A path that leads nowhere leads nowhere however it goes on.
pub proof fn law_nothing_follows_from_nothing(
    fields: Map<Seq<char>, Node>,
    a: Seq<char>,
    b: Seq<char>,
)
    requires
        lookup(fields, a) is None,
    ensures
        lookup(fields, a + seq!['.'] + b) is None,
        flattened(fields, a) is None,
        flattened(fields, a + seq!['.'] + b) is None,
{
    law_paths_are_followed_step_by_step(fields, a, b);
}

/// There is a text at a path exactly where the path leads to a value. A text is its own
/// text, whole; any other scalar has the text of the scalar, and a container one of its two
/// texts.
pub proof fn law_text_at_a_path_is_that_of_the_value(fields: Map<Seq<char>, Node>, path: Seq<char>)
    ensures
        (flattened(fields, path) is Some) == (lookup(fields, path) is Some),
        match lookup(fields, path) {
            Some(Node::Leaf(ValueView::String(s))) => flattened(fields, path) == Some(s),
            Some(Node::Leaf(v)) => flattened(fields, path) == Some(value_text(v)),
            Some(Node::Array(items, texts)) => {
                ||| flattened(fields, path) == Some(texts.display)
                ||| flattened(fields, path) == Some(texts.json)
            },
            Some(Node::Document(inner, texts)) => {
                ||| flattened(fields, path) == Some(texts.display)
                ||| flattened(fields, path) == Some(texts.json)
            },
            None => flattened(fields, path) is None,
        },
{
}

/// Whether a field keeps a document from printing as JSON: its value does not, or its name
/// has a character that stands for something else in a JSON string.
pub open spec fn spoils(inner: Map<Seq<char>, Node>, name: Seq<char>) -> bool {
    inner.dom().contains(name) && (!inner[name].prints_as_json() || exists|k: int|
        0 <= k < name.len() && ((#[trigger] name[k]) < ' ' || name[k] == '"' || name[k] == '\\'))
}

proof fn lemma_bad_field(document: Node, name: Seq<char>)
    requires
        document is Document,
        document->Document_0.dom().contains(name),
        !is_unescaped(name) || !document->Document_0[name].prints_as_json(),
    ensures
        !document.prints_as_json(),
{
}

proof fn lemma_bad_item(array: Node, i: int)
    requires
        array is Array,
        0 <= i < array->Array_0.len(),
        !array->Array_0[i].prints_as_json(),
    ensures
        !array.prints_as_json(),
{
}

/// A container has the text that `Display` writes, where each part of it prints as JSON,
/// and its text in extended JSON where any part does not.
pub proof fn law_containers_are_printed_where_that_is_json(
    items: Seq<Node>,
    inner: Map<Seq<char>, Node>,
    texts: ContainerTexts,
)
    ensures
        ({
            let text = value_text(Node::Array(items, texts).value());
            &&& (forall|i: int|
                0 <= i < items.len() ==> (#[trigger] items[i]).prints_as_json()) ==> text
                == texts.display
            &&& (exists|i: int| 0 <= i < items.len() && !(#[trigger] items[i]).prints_as_json())
                ==> text == texts.json
        }),
        ({
            let text = value_text(Node::Document(inner, texts).value());
            &&& (forall|name: Seq<char>| !#[trigger] spoils(inner, name)) ==> text
                == texts.display
            &&& (exists|name: Seq<char>| #[trigger] spoils(inner, name)) ==> text == texts.json
        }),
{
    let array = Node::Array(items, texts);
    if exists|i: int| 0 <= i < items.len() && !(#[trigger] items[i]).prints_as_json() {
        let i = choose|i: int| 0 <= i < items.len() && !(#[trigger] items[i]).prints_as_json();
        lemma_bad_item(array, i);
    }
    let node = Node::Document(inner, texts);
    if exists|name: Seq<char>| #[trigger] spoils(inner, name) {
        let name = choose|name: Seq<char>| #[trigger] spoils(inner, name);
        assert(inner.dom().contains(name));
        if inner[name].prints_as_json() {
            let k = choose|k: int|
                0 <= k < name.len() && ((#[trigger] name[k]) < ' ' || name[k] == '"'
                    || name[k] == '\\');
            assert(!is_unescaped_char(name[k]));
            assert(!is_unescaped(name));
        }
        lemma_bad_field(node, name);
    } else {
        assert forall|name: Seq<char>| #[trigger] inner.dom().contains(name) implies is_unescaped(
            name,
        ) && inner[name].prints_as_json() by {
            assert(!spoils(inner, name));
            assert forall|k: int| 0 <= k < name.len() implies is_unescaped_char(
                #[trigger] name[k],
            ) by {
                assert(!(name[k] < ' ' || name[k] == '"' || name[k] == '\\'));
            }
        }
    }
}

/// Which scalars print as JSON: integers, truth values and null; doubles but infinities and
/// what is not a number; texts without double quotes, backslashes and control characters;
/// decimals that end in a digit. No other kind does.
pub proof fn law_scalars_that_print_as_json(v: ValueView)
    ensures
        Node::Leaf(v).prints_as_json() == match v {
            ValueView::Int32(_) => true,
            ValueView::Int64(_) => true,
            ValueView::Boolean(_) => true,
            ValueView::Null => true,
            ValueView::Double(bits) => bits % 0x8000_0000_0000_0000 < 0x7ff0_0000_0000_0000,
            ValueView::String(s) => forall|i: int|
                0 <= i < s.len() ==> (#[trigger] s[i]) >= ' ' && s[i] != '"'
                    && s[i] != '\\',
            ValueView::Decimal128(text) => text.len() > 0 && '0' <= text.last() <= '9',
            _ => false,
        },
{
    if let ValueView::String(s) = v {
        let plain = forall|i: int|
            0 <= i < s.len() ==> (#[trigger] s[i]) >= ' ' && s[i] != '"' && s[i] != '\\';
        assert(is_unescaped(s) == plain) by {
            if plain {
                assert forall|i: int| 0 <= i < s.len() implies is_unescaped_char(
                    #[trigger] s[i],
                ) by {
                    assert(s[i] >= ' ');
                }
            }
            if is_unescaped(s) {
                assert forall|i: int| 0 <= i < s.len() implies (#[trigger] s[i]) >= ' '
                    && s[i] != '"' && s[i] != '\\' by {
                    assert(is_unescaped_char(s[i]));
                }
            }
        }
    }
}

/// Numbers, texts, truth values, nulls, object ids and points in time are storable, but for
/// a double that is not a number; so are arrays of storable values, and documents of them
/// under names of fields.
pub proof fn law_storable_values_are_made_of_plain_ones(
    v: ValueView,
    items: Seq<Node>,
    fields: Map<Seq<char>, Node>,
    texts: ContainerTexts,
)
    ensures
        Node::Leaf(v).is_storable() <==> match v {
            ValueView::Double(bits) => !is_nan(bits),
            ValueView::String(_) => true,
            ValueView::Boolean(_) => true,
            ValueView::Null => true,
            ValueView::Int32(_) => true,
            ValueView::Int64(_) => true,
            ValueView::ObjectId(_) => true,
            ValueView::DateTime(_) => true,
            _ => false,
        },
        (forall|i: int| 0 <= i < items.len() ==> (#[trigger] items[i]).is_storable())
            ==> Node::Array(items, texts).is_storable(),
        are_storable(fields) ==> Node::Document(fields, texts).is_storable(),
{
    lemma_storable_array(Node::Array(items, texts), items, texts);
    lemma_storable_document(Node::Document(fields, texts), fields, texts);
}

proof fn lemma_storable_array(n: Node, items: Seq<Node>, texts: ContainerTexts)
    requires
        n == Node::Array(items, texts),
    ensures
        (forall|i: int| 0 <= i < items.len() ==> (#[trigger] items[i]).is_storable())
            ==> n.is_storable(),
{
}

proof fn lemma_storable_document(
    n: Node,
    fields: Map<Seq<char>, Node>,
    texts: ContainerTexts,
)
    requires
        n == Node::Document(fields, texts),
    ensures
        are_storable(fields) ==> n.is_storable(),
{
}

/// A name is that of a stored field where it holds no zero character and no dollar sign at
/// its beginning; the empty name is one.
pub proof fn law_names_of_fields(name: Seq<char>)
    ensures
        name.len() == 0 ==> is_field_name(name),
        name.len() > 0 && name[0] == '$' ==> !is_field_name(name),
        name.contains('\0') ==> !is_field_name(name),
        !name.contains('\0') && !name.contains('$') ==> is_field_name(name),
{
    if name.len() > 0 {
        assert(name.contains(name[0]));
    }
}

} // verus!
