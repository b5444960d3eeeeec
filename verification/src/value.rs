//! Single values: what is read off a BSON value, its text, and its coercion to a
//! column type.

use crate::double::{
    double_to_i32, double_to_i64, integer_to_double, integer_value, is_nan,
    law_integers_have_one_double,
    law_only_zero_converts_to_zero, law_small_integers_convert_exactly, nearest, same_double,
};
use crate::field_type::FieldType;
use crate::text::{
    equal, integer_text, integer_to_text, law_integer_text_is_parsed_back, lower, lower_text,
    parse_i32, parse_i64, parse_integer, unsigned_to_text,
};
use vstd::prelude::*;

verus! {

/// What this library reads off one BSON value. A double is held by its 64 bits. Kinds of
/// which only the text is ever read hold that text.
#[derive(Debug)]
pub enum Value {
    Double(u64),
    String(String),
    Boolean(bool),
    Null,
    Int32(i32),
    Int64(i64),
    ObjectId([u8; 12]),
    /// Milliseconds since epoch, UTC.
    DateTime(i64),
    Timestamp { time: u32, increment: u32 },
    Symbol(String),
    RegularExpression { pattern: String, options: String },
    JavaScriptCode(String),
    /// The code, without its scope.
    JavaScriptCodeWithScope(String),
    Undefined,
    MinKey,
    MaxKey,
    /// The text of the number.
    Decimal128(String),
    /// The text of the bytes.
    Binary(String),
    /// The text of the pointer.
    DbPointer(String),
    /// The JSON text of the elements.
    Array(String),
    /// The JSON text of the fields.
    Document(String),
}

/// A value, with texts as sequences of characters.
pub enum ValueView {
    Double(u64),
    String(Seq<char>),
    Boolean(bool),
    Null,
    Int32(i32),
    Int64(i64),
    ObjectId(Seq<u8>),
    DateTime(i64),
    Timestamp { time: u32, increment: u32 },
    Symbol(Seq<char>),
    RegularExpression { pattern: Seq<char>, options: Seq<char> },
    JavaScriptCode(Seq<char>),
    JavaScriptCodeWithScope(Seq<char>),
    Undefined,
    MinKey,
    MaxKey,
    Decimal128(Seq<char>),
    Binary(Seq<char>),
    DbPointer(Seq<char>),
    Array(Seq<char>),
    Document(Seq<char>),
}

impl View for Value {
    type V = ValueView;

    open spec fn view(&self) -> ValueView {
        match self {
            Value::Double(bits) => ValueView::Double(*bits),
            Value::String(s) => ValueView::String(s@),
            Value::Boolean(v) => ValueView::Boolean(*v),
            Value::Null => ValueView::Null,
            Value::Int32(v) => ValueView::Int32(*v),
            Value::Int64(v) => ValueView::Int64(*v),
            Value::ObjectId(bytes) => ValueView::ObjectId(bytes@),
            Value::DateTime(ms) => ValueView::DateTime(*ms),
            Value::Timestamp { time, increment } => ValueView::Timestamp {
                time: *time,
                increment: *increment,
            },
            Value::Symbol(s) => ValueView::Symbol(s@),
            Value::RegularExpression { pattern, options } => ValueView::RegularExpression {
                pattern: pattern@,
                options: options@,
            },
            Value::JavaScriptCode(s) => ValueView::JavaScriptCode(s@),
            Value::JavaScriptCodeWithScope(s) => ValueView::JavaScriptCodeWithScope(s@),
            Value::Undefined => ValueView::Undefined,
            Value::MinKey => ValueView::MinKey,
            Value::MaxKey => ValueView::MaxKey,
            Value::Decimal128(s) => ValueView::Decimal128(s@),
            Value::Binary(s) => ValueView::Binary(s@),
            Value::DbPointer(s) => ValueView::DbPointer(s@),
            Value::Array(s) => ValueView::Array(s@),
            Value::Document(s) => ValueView::Document(s@),
        }
    }
}

/// The text of the double with the given bits.
pub uninterp spec fn double_text(bits: u64) -> Seq<char>;

/// The RFC 3339 text of a point in time, if it has one.
pub uninterp spec fn rfc3339_text(ms: i64) -> Option<Seq<char>>;

/// The text of a point in time where RFC 3339 has none.
pub uninterp spec fn datetime_text(ms: i64) -> Seq<char>;

/// The point in time that an RFC 3339 text stands for, if it is one.
pub uninterp spec fn rfc3339_millis(s: Seq<char>) -> Option<i64>;

/// Whether a point in time lies between the epoch and the end of the year 9999.
pub open spec fn is_rfc3339_time(ms: i64) -> bool {
    0 <= ms < 253_402_300_800_000
}

/// The lower-case hexadecimal digit of `d`.
pub open spec fn hex_digit(d: int) -> char {
    if d < 10 {
        (0x30 + d) as char
    } else {
        (0x57 + d) as char
    }
}

/// The bits of the double that a text spells, if it spells one; of one set of bits where
/// that is not a number.
pub uninterp spec fn spelled_double(s: Seq<char>) -> Option<u64>;

/// Two lower-case hexadecimal digits for each byte.
pub open spec fn hex(bytes: Seq<u8>) -> Seq<char> {
    Seq::new(
        2 * bytes.len(),
        |i: int|
            if i % 2 == 0 {
                hex_digit(bytes[i / 2] as int / 16)
            } else {
                hex_digit(bytes[i / 2] as int % 16)
            },
    )
}

/// The number that a lower-case hexadecimal digit stands for.
pub open spec fn hex_value(c: char) -> int {
    if '0' <= c <= '9' {
        c as u32 - 0x30
    } else {
        c as u32 - 0x57
    }
}

/// The bytes that pairs of lower-case hexadecimal digits stand for.
pub open spec fn unhex(s: Seq<char>) -> Seq<u8> {
    Seq::new(s.len() / 2, |i: int| (hex_value(s[2 * i]) * 16 + hex_value(s[2 * i + 1])) as u8)
}

/// Bytes are read back from their hexadecimal digits, of which there are two for each.
pub proof fn law_hex_is_read_back(bytes: Seq<u8>)
    ensures
        unhex(hex(bytes)) == bytes,
        hex(bytes).len() == 2 * bytes.len(),
{
    let s = hex(bytes);
    assert forall|i: int| 0 <= i < bytes.len() implies unhex(s)[i] == bytes[i] by {
        assert((2 * i) / 2 == i && (2 * i + 1) / 2 == i);
        assert(s[2 * i] == hex_digit(bytes[i] as int / 16));
        assert(s[2 * i + 1] == hex_digit(bytes[i] as int % 16));
        lemma_hex_digit(bytes[i] as int / 16);
        lemma_hex_digit(bytes[i] as int % 16);
    }
    assert(unhex(s) =~= bytes);
}

proof fn lemma_hex_digit(d: int)
    requires
        0 <= d < 16,
    ensures
        hex_value(hex_digit(d)) == d,
{
}

/// The text that `Display` of `bson::Bson` writes for a double, which depends on its
/// bits alone. The double is handed over in the encoding of `bson::Document`, as the
/// one field of a document.
#[verifier::external_body]
fn double_to_text(bits: u64) -> (r: String)
    ensures
        r@ == double_text(bits),
{
    let mut raw: Vec<u8> = vec![15, 0, 0, 0, 1, 0];
    raw.extend_from_slice(&bits.to_le_bytes());
    raw.push(0);
    bson::Document::from_reader(raw.as_slice()).unwrap().get("").unwrap().to_string()
}

/// `str::parse` to the double of a `bson::Bson`, by its bits: the double that the text
/// spells, or nothing where it spells none. Which of the bits that are not a number stand
/// for such a text is left open.
#[verifier::external_body]
fn text_to_double(s: &str) -> (r: Option<u64>)
    ensures
        match spelled_double(s@) {
            Some(d) => r matches Some(bits) && same_double(bits, d),
            None => r is None,
        },
{
    match s.parse().ok().map(bson::Bson::Double) {
        Some(bson::Bson::Double(v)) => Some(v.to_bits()),
        _ => None,
    }
}

/// `bson::DateTime::try_to_rfc3339_string`: the RFC 3339 text of the milliseconds since
/// the epoch, or nothing where it fails. From the epoch to the end of the year 9999 there
/// is a text, which `bson::DateTime::parse_rfc3339_str` reads as the same milliseconds.
#[verifier::external_body]
fn datetime_to_rfc3339(ms: i64) -> (r: Option<String>)
    ensures
        match r {
            Some(s) => rfc3339_text(ms) == Some(s@) && (is_rfc3339_time(ms) ==> rfc3339_millis(
                s@,
            ) == Some(ms)),
            None => rfc3339_text(ms) is None && !is_rfc3339_time(ms),
        },
{
    bson::DateTime::from_millis(ms).try_to_rfc3339_string().ok()
}

/// `Display` of `bson::DateTime`, which depends on the milliseconds alone.
#[verifier::external_body]
fn datetime_to_text(ms: i64) -> (r: String)
    ensures
        r@ == datetime_text(ms),
{
    bson::DateTime::from_millis(ms).to_string()
}

/// `bson::DateTime::parse_rfc3339_str`: the milliseconds since the epoch of an RFC 3339
/// text, or nothing where it fails.
#[verifier::external_body]
fn rfc3339_to_millis(s: &str) -> (r: Option<i64>)
    ensures
        r == rfc3339_millis(s@),
{
    bson::DateTime::parse_rfc3339_str(s).ok().map(|dt| dt.timestamp_millis())
}

/// `bson::oid::ObjectId::to_hex`: two lower-case hexadecimal digits for each byte.
#[verifier::external_body]
fn object_id_to_hex(bytes: [u8; 12]) -> (r: String)
    ensures
        r@ == hex(bytes@),
{
    bson::oid::ObjectId::from_bytes(bytes).to_hex()
}

/// The text of a truth value.
pub open spec fn bool_text(v: bool) -> Seq<char> {
    if v {
        "true"@
    } else {
        "false"@
    }
}

fn bool_to_text(v: bool) -> (r: String)
    ensures
        r@ == bool_text(v),
{
    if v {
        "true".to_owned()
    } else {
        "false".to_owned()
    }
}

/// The text of a value in an output cell.
pub open spec fn value_text(v: ValueView) -> Seq<char> {
    match v {
        ValueView::Double(bits) => double_text(bits),
        ValueView::String(s) => s,
        ValueView::Boolean(v) => bool_text(v),
        ValueView::Null => Seq::empty(),
        ValueView::Int32(v) => integer_text(v as int),
        ValueView::Int64(v) => integer_text(v as int),
        ValueView::ObjectId(bytes) => hex(bytes),
        ValueView::DateTime(ms) => match rfc3339_text(ms) {
            Some(s) => s,
            None => datetime_text(ms),
        },
        ValueView::Timestamp { time, increment } => integer_text(time as int) + ":"@
            + integer_text(increment as int),
        ValueView::Symbol(s) => s,
        ValueView::RegularExpression { pattern, options } => "/"@ + pattern + "/"@ + options,
        ValueView::JavaScriptCode(s) => s,
        ValueView::JavaScriptCodeWithScope(s) => s,
        ValueView::Undefined => Seq::empty(),
        ValueView::MinKey => "MinKey"@,
        ValueView::MaxKey => "MaxKey"@,
        ValueView::Decimal128(s) => s,
        ValueView::Binary(s) => s,
        ValueView::DbPointer(s) => s,
        ValueView::Array(s) => s,
        ValueView::Document(s) => s,
    }
}

/// The string representation of a value. Arrays and documents keep their content in a
/// single text.
pub fn value_to_string(b: &Value) -> (r: String)
    ensures
        r@ == value_text(b@),
{
    match b {
        Value::Double(bits) => double_to_text(*bits),
        Value::String(s) => s.clone(),
        Value::Boolean(v) => bool_to_text(*v),
        Value::Null => String::new(),
        Value::Int32(v) => integer_to_text(*v as i64),
        Value::Int64(v) => integer_to_text(*v),
        Value::ObjectId(bytes) => object_id_to_hex(*bytes),
        Value::DateTime(ms) => match datetime_to_rfc3339(*ms) {
            Some(s) => s,
            None => datetime_to_text(*ms),
        },
        Value::Timestamp { time, increment } => {
            let after = unsigned_to_text(*increment as u64);
            unsigned_to_text(*time as u64).concat(":").concat(after.as_str())
        },
        Value::Symbol(s) => s.clone(),
        Value::RegularExpression { pattern, options } => {
            "/".to_owned().concat(pattern.as_str()).concat("/").concat(options.as_str())
        },
        Value::JavaScriptCode(s) => s.clone(),
        Value::JavaScriptCodeWithScope(s) => s.clone(),
        Value::Undefined => String::new(),
        Value::MinKey => "MinKey".to_owned(),
        Value::MaxKey => "MaxKey".to_owned(),
        Value::Decimal128(s) => s.clone(),
        Value::Binary(s) => s.clone(),
        Value::DbPointer(s) => s.clone(),
        Value::Array(s) => s.clone(),
        Value::Document(s) => s.clone(),
    }
}

/// A single typed value in a record. `Null` is used both for missing paths
/// and for values that could not be coerced into the requested type. A double is held
/// by its 64 bits.
#[derive(Clone, Debug)]
pub enum TypedValue {
    Null,
    String(String),
    Int32(i32),
    Int64(i64),
    Double(u64),
    Bool(bool),
    /// Milliseconds since epoch, UTC.
    TimestampMs(i64),
}

/// A typed value, with its text as a sequence of characters.
pub enum TypedValueView {
    Null,
    String(Seq<char>),
    Int32(i32),
    Int64(i64),
    Double(u64),
    Bool(bool),
    TimestampMs(i64),
}

impl View for TypedValue {
    type V = TypedValueView;

    open spec fn view(&self) -> TypedValueView {
        match self {
            TypedValue::Null => TypedValueView::Null,
            TypedValue::String(s) => TypedValueView::String(s@),
            TypedValue::Int32(v) => TypedValueView::Int32(*v),
            TypedValue::Int64(v) => TypedValueView::Int64(*v),
            TypedValue::Double(bits) => TypedValueView::Double(*bits),
            TypedValue::Bool(v) => TypedValueView::Bool(*v),
            TypedValue::TimestampMs(ms) => TypedValueView::TimestampMs(*ms),
        }
    }
}

impl TypedValueView {
    /// The text of the value in a CSV cell.
    pub open spec fn csv_text(self) -> Seq<char> {
        match self {
            TypedValueView::Null => Seq::empty(),
            TypedValueView::String(s) => s,
            TypedValueView::Int32(v) => integer_text(v as int),
            TypedValueView::Int64(v) => integer_text(v as int),
            TypedValueView::Double(bits) => double_text(bits),
            TypedValueView::Bool(v) => bool_text(v),
            TypedValueView::TimestampMs(ms) => match rfc3339_text(ms) {
                Some(s) => s,
                None => integer_text(ms as int),
            },
        }
    }

    /// The type of a value that is there.
    pub open spec fn field_type(self) -> FieldType
        recommends
            !(self is Null),
    {
        match self {
            TypedValueView::Null => FieldType::String,
            TypedValueView::String(_) => FieldType::String,
            TypedValueView::Int32(_) => FieldType::Int32,
            TypedValueView::Int64(_) => FieldType::Int64,
            TypedValueView::Double(_) => FieldType::Double,
            TypedValueView::Bool(_) => FieldType::Bool,
            TypedValueView::TimestampMs(_) => FieldType::Timestamp,
        }
    }

    /// Whether the value is a text, an integer, a truth value or a point in time that has
    /// an RFC 3339 text: one that is read back from its CSV cell.
    pub open spec fn is_read_back(self) -> bool {
        match self {
            TypedValueView::Null => false,
            TypedValueView::Double(_) => false,
            TypedValueView::TimestampMs(ms) => is_rfc3339_time(ms),
            _ => true,
        }
    }

    /// Whether the value is absent or of the given type.
    pub open spec fn fits(self, ty: FieldType) -> bool {
        match self {
            TypedValueView::Null => true,
            TypedValueView::String(_) => ty is String,
            TypedValueView::Int32(_) => ty is Int32,
            TypedValueView::Int64(_) => ty is Int64,
            TypedValueView::Double(_) => ty is Double,
            TypedValueView::Bool(_) => ty is Bool,
            TypedValueView::TimestampMs(_) => ty is Timestamp,
        }
    }
}

impl TypedValue {
    /// Renders the value as a CSV cell; a point in time as RFC 3339 in UTC. A text, an
    /// integer, a truth value or a point in time up to the year 9999 is what the cell
    /// coerces to at the type of the value. Of a double nothing is said here: that its
    /// text spells it again is left to the outside functions that give and read it.
    pub fn to_csv_string(&self) -> (r: String)
        ensures
            r@ == self@.csv_text(),
            self@.is_read_back() ==> forall|parsed: Option<u64>| #[trigger]
                coerces_to(ValueView::String(r@), self@.field_type(), parsed, self@),
    {
        proof {
            if !(self@ is TimestampMs) && self@.is_read_back() {
                assert forall|parsed: Option<u64>| #[trigger]
                    coerces_to(
                        ValueView::String(self@.csv_text()),
                        self@.field_type(),
                        parsed,
                        self@,
                    ) by {
                    law_cells_give_the_values_back(self@, parsed);
                }
            }
        }
        match self {
            TypedValue::Null => String::new(),
            TypedValue::String(s) => s.clone(),
            TypedValue::Int32(v) => integer_to_text(*v as i64),
            TypedValue::Int64(v) => integer_to_text(*v),
            TypedValue::Double(bits) => double_to_text(*bits),
            TypedValue::Bool(v) => bool_to_text(*v),
            TypedValue::TimestampMs(ms) => match datetime_to_rfc3339(*ms) {
                Some(s) => s,
                None => integer_to_text(*ms),
            },
        }
    }
}

/// The values of a record.
pub open spec fn cells(record: Seq<TypedValue>) -> Seq<TypedValueView> {
    record.map_values(|v: TypedValue| v@)
}

/// The values of some records.
pub open spec fn rows(records: Seq<Vec<TypedValue>>) -> Seq<Seq<TypedValueView>> {
    records.map_values(|r: Vec<TypedValue>| cells(r@))
}

/// The truth value that a text stands for, in any case of letters.
pub open spec fn truth(s: Seq<char>) -> Option<bool> {
    let l = lower(s);
    if l == "true"@ || l == "1"@ || l == "yes"@ || l == "y"@ {
        Some(true)
    } else if l == "false"@ || l == "0"@ || l == "no"@ || l == "n"@ {
        Some(false)
    } else {
        None
    }
}

fn parse_truth(s: &str) -> (r: Option<bool>)
    ensures
        r == truth(s@),
{
    let lowered = lower_text(s);
    let l = lowered.as_str();
    if equal(l, "true") || equal(l, "1") || equal(l, "yes") || equal(l, "y") {
        Some(true)
    } else if equal(l, "false") || equal(l, "0") || equal(l, "no") || equal(l, "n") {
        Some(false)
    } else {
        None
    }
}

/// The 32-bit integer that a value coerces to.
pub open spec fn as_int32(v: ValueView) -> Option<int> {
    match v {
        ValueView::Int32(n) => Some(n as int),
        ValueView::Int64(n) => if i32::MIN <= n <= i32::MAX {
            Some(n as int)
        } else {
            None
        },
        ValueView::Double(bits) => match integer_value(bits) {
            Some(n) => if i32::MIN <= n <= i32::MAX {
                Some(n)
            } else {
                None
            },
            None => None,
        },
        ValueView::String(s) => parse_integer(s, i32::MIN as int, i32::MAX as int),
        ValueView::Boolean(b) => Some(
            if b {
                1
            } else {
                0
            },
        ),
        _ => None,
    }
}

/// The 64-bit integer that a value coerces to.
pub open spec fn as_int64(v: ValueView) -> Option<int> {
    match v {
        ValueView::Int32(n) => Some(n as int),
        ValueView::Int64(n) => Some(n as int),
        ValueView::Double(bits) => match integer_value(bits) {
            Some(n) => if i64::MIN <= n <= i64::MAX {
                Some(n)
            } else {
                None
            },
            None => None,
        },
        ValueView::String(s) => parse_integer(s, i64::MIN as int, i64::MAX as int),
        ValueView::Boolean(b) => Some(
            if b {
                1
            } else {
                0
            },
        ),
        ValueView::DateTime(ms) => Some(ms as int),
        _ => None,
    }
}

/// Whether `bits` are those of the double that the integer converts to.
pub open spec fn is_double_of(bits: u64, n: int) -> bool {
    integer_value(bits) == Some(nearest(n)) && (n == 0 ==> bits == 0)
}

/// Whether `bits` are those of the double that the value coerces to, or there are none
/// and it coerces to no double. `parsed` holds the bits of the double that the value
/// spells, where it is a text that spells one.
pub open spec fn is_double(v: ValueView, parsed: Option<u64>, bits: Option<u64>) -> bool {
    match v {
        ValueView::Double(d) => bits == Some(d),
        ValueView::Int32(n) => bits matches Some(d) && is_double_of(d, n as int),
        ValueView::Int64(n) => bits matches Some(d) && is_double_of(d, n as int),
        ValueView::String(_) => bits == parsed,
        _ => bits is None,
    }
}

/// The truth value that a value coerces to.
pub open spec fn as_bool(v: ValueView) -> Option<bool> {
    match v {
        ValueView::Boolean(b) => Some(b),
        ValueView::Int32(n) => Some(n != 0),
        ValueView::Int64(n) => Some(n != 0),
        ValueView::String(s) => truth(s),
        _ => None,
    }
}

/// The point in time that a value coerces to.
pub open spec fn as_timestamp(v: ValueView) -> Option<i64> {
    match v {
        ValueView::DateTime(ms) => Some(ms),
        ValueView::Int64(n) => Some(n),
        ValueView::Int32(n) => Some(n as i64),
        ValueView::String(s) => rfc3339_millis(s),
        _ => None,
    }
}

/// Whether `r` is what the value coerces to. `parsed` is as for `is_double`.
pub open spec fn coerces_to(
    v: ValueView,
    ty: FieldType,
    parsed: Option<u64>,
    r: TypedValueView,
) -> bool {
    match ty {
        FieldType::String => r == TypedValueView::String(value_text(v)),
        FieldType::Int32 => match as_int32(v) {
            Some(n) => r == TypedValueView::Int32(n as i32),
            None => r is Null,
        },
        FieldType::Int64 => match as_int64(v) {
            Some(n) => r == TypedValueView::Int64(n as i64),
            None => r is Null,
        },
        FieldType::Double => match r {
            TypedValueView::Double(bits) => is_double(v, parsed, Some(bits)),
            TypedValueView::Null => is_double(v, parsed, None),
            _ => false,
        },
        FieldType::Bool => match as_bool(v) {
            Some(b) => r == TypedValueView::Bool(b),
            None => r is Null,
        },
        FieldType::Timestamp => match as_timestamp(v) {
            Some(ms) => r == TypedValueView::TimestampMs(ms),
            None => r is Null,
        },
    }
}

fn coerce_int32(b: &Value) -> (r: Option<i32>)
    ensures
        match r {
            Some(n) => as_int32(b@) == Some(n as int),
            None => as_int32(b@) is None,
        },
{
    match b {
        Value::Int32(v) => Some(*v),
        Value::Int64(v) => if i32::MIN as i64 <= *v && *v <= i32::MAX as i64 {
            Some(*v as i32)
        } else {
            None
        },
        Value::Double(bits) => double_to_i32(*bits),
        Value::String(s) => parse_i32(s.as_str()),
        Value::Boolean(v) => Some(
            if *v {
                1
            } else {
                0
            },
        ),
        _ => None,
    }
}

fn coerce_int64(b: &Value) -> (r: Option<i64>)
    ensures
        match r {
            Some(n) => as_int64(b@) == Some(n as int),
            None => as_int64(b@) is None,
        },
{
    match b {
        Value::Int32(v) => Some(*v as i64),
        Value::Int64(v) => Some(*v),
        Value::Double(bits) => double_to_i64(*bits),
        Value::String(s) => parse_i64(s.as_str()),
        Value::Boolean(v) => Some(
            if *v {
                1
            } else {
                0
            },
        ),
        Value::DateTime(ms) => Some(*ms),
        _ => None,
    }
}

fn coerce_double(b: &Value, parsed: Option<u64>) -> (r: Option<u64>)
    ensures
        is_double(b@, parsed, r),
{
    match b {
        Value::Double(bits) => Some(*bits),
        Value::Int32(v) => Some(integer_to_double(*v as i64)),
        Value::Int64(v) => Some(integer_to_double(*v)),
        Value::String(_) => parsed,
        _ => None,
    }
}

fn coerce_bool(b: &Value) -> (r: Option<bool>)
    ensures
        r == as_bool(b@),
{
    match b {
        Value::Boolean(v) => Some(*v),
        Value::Int32(v) => Some(*v != 0),
        Value::Int64(v) => Some(*v != 0),
        Value::String(s) => parse_truth(s.as_str()),
        _ => None,
    }
}

fn coerce_timestamp(b: &Value) -> (r: Option<i64>)
    ensures
        r == as_timestamp(b@),
{
    match b {
        Value::DateTime(ms) => Some(*ms),
        Value::Int64(v) => Some(*v),
        Value::Int32(v) => Some(*v as i64),
        Value::String(s) => rfc3339_to_millis(s.as_str()),
        _ => None,
    }
}

/// Coerces a value into the requested `FieldType`, as `coerce_value` does. `parsed` holds the
/// bits of the double that the value spells, where it is a text that spells one; it is
/// read for a text in a double column alone.
pub fn coerce_parsed(b: &Value, ty: FieldType, parsed: Option<u64>) -> (r: TypedValue)
    ensures
        coerces_to(b@, ty, parsed, r@),
{
    match ty {
        FieldType::String => TypedValue::String(value_to_string(b)),
        FieldType::Int32 => match coerce_int32(b) {
            Some(v) => TypedValue::Int32(v),
            None => TypedValue::Null,
        },
        FieldType::Int64 => match coerce_int64(b) {
            Some(v) => TypedValue::Int64(v),
            None => TypedValue::Null,
        },
        FieldType::Double => match coerce_double(b, parsed) {
            Some(bits) => TypedValue::Double(bits),
            None => TypedValue::Null,
        },
        FieldType::Bool => match coerce_bool(b) {
            Some(v) => TypedValue::Bool(v),
            None => TypedValue::Null,
        },
        FieldType::Timestamp => match coerce_timestamp(b) {
            Some(ms) => TypedValue::TimestampMs(ms),
            None => TypedValue::Null,
        },
    }
}

/// Whether `parsed` is what a text reads as, where the value is a text.
pub open spec fn reads_as(v: ValueView, parsed: Option<u64>) -> bool {
    v matches ValueView::String(s) ==> match spelled_double(s) {
        Some(d) => parsed matches Some(bits) && same_double(bits, d),
        None => parsed is None,
    }
}

/// Whether `r` is what the value coerces to, where a text stands for the double that it
/// reads as.
pub open spec fn is_coerced(v: ValueView, ty: FieldType, r: TypedValueView) -> bool {
    exists|parsed: Option<u64>| #[trigger]
        reads_as(v, parsed) && coerces_to(v, ty, parsed, r)
}

/// Coerces a value into the requested `FieldType`. Returns `Null` on any
/// mismatch; the goal is to be permissive at extract time (best-effort) so
/// a single malformed document doesn't abort the whole run.
pub fn coerce_value(b: &Value, ty: FieldType) -> (r: TypedValue)
    ensures
        is_coerced(b@, ty, r@),
{
    let parsed: Option<u64> = match b {
        Value::String(s) => text_to_double(s.as_str()),
        _ => None,
    };
    proof {
        assert(reads_as(b@, parsed));
    }
    coerce_parsed(b, ty, parsed)
}

/// What a value coerces to is absent or of the requested type.
pub proof fn law_coercion_respects_the_type(
    v: ValueView,
    ty: FieldType,
    parsed: Option<u64>,
    r: TypedValueView,
)
    requires
        coerces_to(v, ty, parsed, r),
    ensures
        r.fits(ty),
{
}

/// Coercion to text always gives a text, and the CSV cell of that text is the text of
/// the value itself.
pub proof fn law_text_column_holds_the_text(
    v: ValueView,
    parsed: Option<u64>,
    r: TypedValueView,
)
    requires
        coerces_to(v, FieldType::String, parsed, r),
    ensures
        r.csv_text() == value_text(v),
{
}

/// A value coerces to one thing only.
pub proof fn law_coercion_gives_one_result(
    v: ValueView,
    ty: FieldType,
    parsed: Option<u64>,
    a: TypedValueView,
    b: TypedValueView,
)
    requires
        coerces_to(v, ty, parsed, a),
        coerces_to(v, ty, parsed, b),
    ensures
        a == b,
{
    if ty is Double {
        if let (TypedValueView::Double(x), TypedValueView::Double(y)) = (a, b) {
            match v {
                ValueView::Int32(n) => lemma_double_of_is_unique(x, y, n as int),
                ValueView::Int64(n) => lemma_double_of_is_unique(x, y, n as int),
                _ => {},
            }
        }
    }
}

proof fn lemma_double_of_is_unique(a: u64, b: u64, n: int)
    requires
        is_double_of(a, n),
        is_double_of(b, n),
    ensures
        a == b,
{
    if n != 0 {
        law_only_zero_converts_to_zero(n);
        law_integers_have_one_double(a, b, nearest(n));
    }
}

/// An integer that a double holds exactly is the same integer after coercion to a double
/// and back.
pub proof fn law_small_integers_survive_a_double(n: i64, bits: u64)
    requires
        -0x20_0000_0000_0000 <= n <= 0x20_0000_0000_0000,
        is_double(ValueView::Int64(n), None, Some(bits)),
    ensures
        as_int64(ValueView::Double(bits)) == Some(n as int),
{
    law_small_integers_convert_exactly(n as int);
}

/// The text of a truth value stands for it.
pub proof fn law_truth_is_read_back(b: bool)
    ensures
        truth(bool_text(b)) == Some(b),
{
    reveal_strlit("true");
    reveal_strlit("1");
    reveal_strlit("yes");
    reveal_strlit("y");
    reveal_strlit("false");
    reveal_strlit("0");
    reveal_strlit("no");
    reveal_strlit("n");
    assert(lower("true"@) =~= "true"@);
    assert(lower("false"@) =~= "false"@);
    let l = "false"@;
    assert(l.len() == 5);
}

/// A text, an integer or a truth value is what its CSV cell coerces to at its own type.
/// (For points in time `to_csv_string` states the same.)
pub proof fn law_cells_give_the_values_back(v: TypedValueView, parsed: Option<u64>)
    requires
        v.is_read_back(),
        !(v is TimestampMs),
    ensures
        coerces_to(ValueView::String(v.csv_text()), v.field_type(), parsed, v),
{
    match v {
        TypedValueView::Int32(n) => {
            law_integer_text_is_parsed_back(n as int, i32::MIN as int, i32::MAX as int);
        },
        TypedValueView::Int64(n) => {
            law_integer_text_is_parsed_back(n as int, i64::MIN as int, i64::MAX as int);
        },
        TypedValueView::Bool(b) => {
            law_truth_is_read_back(b);
        },
        _ => {},
    }
}

/// Whatever the CSV cell of a text, an integer or a truth value coerces to at its own type
/// is the value that was written.
pub proof fn law_coerced_cells_are_the_values(v: TypedValueView, r: TypedValueView)
    requires
        v.is_read_back(),
        !(v is TimestampMs),
        is_coerced(ValueView::String(v.csv_text()), v.field_type(), r),
    ensures
        r == v,
{
    let cell = ValueView::String(v.csv_text());
    let parsed = choose|parsed: Option<u64>| #[trigger]
        reads_as(cell, parsed) && coerces_to(cell, v.field_type(), parsed, r);
    law_cells_give_the_values_back(v, parsed);
    law_coercion_gives_one_result(cell, v.field_type(), parsed, r, v);
}

/// The CSV cell of a double that is a number coerces to that double, if the text of the
/// double spells it: nothing is lost but what the text itself loses.
pub proof fn law_double_cells_are_as_exact_as_their_texts(bits: u64, parsed: Option<u64>)
    ensures
        ({
            let v = TypedValueView::Double(bits);
            let cell = ValueView::String(v.csv_text());
            spelled_double(double_text(bits)) == Some(bits) && !is_nan(bits) && reads_as(
                cell,
                parsed,
            ) ==> coerces_to(cell, FieldType::Double, parsed, v)
        }),
{
}

/// The text of an integer, a truth value, a text or an object id gives the value back: the
/// integer and the truth value by what they parse to, the text as itself, and the object
/// id by its hexadecimal digits.
pub proof fn law_texts_give_the_values_back(v: ValueView)
    ensures
        match v {
            ValueView::Int32(n) => parse_integer(
                value_text(v),
                i32::MIN as int,
                i32::MAX as int,
            ) == Some(n as int),
            ValueView::Int64(n) => parse_integer(
                value_text(v),
                i64::MIN as int,
                i64::MAX as int,
            ) == Some(n as int),
            ValueView::Boolean(b) => truth(value_text(v)) == Some(b),
            ValueView::String(s) => value_text(v) == s,
            ValueView::ObjectId(bytes) => unhex(value_text(v)) == bytes && value_text(v).len() == 2
                * bytes.len(),
            _ => true,
        },
{
    match v {
        ValueView::Int32(n) => {
            law_integer_text_is_parsed_back(n as int, i32::MIN as int, i32::MAX as int);
        },
        ValueView::Int64(n) => {
            law_integer_text_is_parsed_back(n as int, i64::MIN as int, i64::MAX as int);
        },
        ValueView::Boolean(b) => {
            law_truth_is_read_back(b);
        },
        ValueView::ObjectId(bytes) => {
            law_hex_is_read_back(bytes);
        },
        _ => {},
    }
}

/// Two different integers, truth values, texts or object ids have different texts.
pub proof fn law_texts_tell_the_values_apart(a: ValueView, b: ValueView)
    requires
        ({
            ||| a is Int32 && b is Int32
            ||| a is Int64 && b is Int64
            ||| a is Boolean && b is Boolean
            ||| a is String && b is String
            ||| a is ObjectId && b is ObjectId
        }),
        value_text(a) == value_text(b),
    ensures
        a == b,
{
    law_texts_give_the_values_back(a);
    law_texts_give_the_values_back(b);
}

/// Two different doubles have different texts, if each is spelled by its text.
pub proof fn law_doubles_that_are_spelled_differ(a: u64, b: u64)
    ensures
        spelled_double(double_text(a)) == Some(a) && spelled_double(double_text(b)) == Some(b)
            && value_text(ValueView::Double(a)) == value_text(ValueView::Double(b)) ==> a == b,
{
}

/// An integer of either width coerces to the same values: to itself where it fits, to the
/// truth value that says that it is not zero, to that many milliseconds since the epoch,
/// and to the double that is nearest to it.
pub proof fn law_integers_coerce_by_their_value(
    n: i64,
    parsed: Option<u64>,
    r: TypedValueView,
)
    ensures
        ({
            let v = ValueView::Int64(n);
            &&& coerces_to(v, FieldType::Bool, parsed, r) <==> r == TypedValueView::Bool(n != 0)
            &&& coerces_to(v, FieldType::Int64, parsed, r) <==> r == TypedValueView::Int64(n)
            &&& coerces_to(v, FieldType::Timestamp, parsed, r) <==> r
                == TypedValueView::TimestampMs(n)
            &&& -0x8000_0000 <= n <= 0x7fff_ffff ==> (coerces_to(v, FieldType::Int32, parsed, r)
                <==> r == TypedValueView::Int32(n as i32))
            &&& !(-0x8000_0000 <= n <= 0x7fff_ffff) ==> (coerces_to(
                v,
                FieldType::Int32,
                parsed,
                r,
            ) <==> r is Null)
            &&& coerces_to(v, FieldType::Double, parsed, r) <==> (r
                matches TypedValueView::Double(bits) && integer_value(bits) == Some(
                nearest(n as int),
            ) && (n == 0 ==> bits == 0))
            &&& coerces_to(v, FieldType::String, parsed, r) <==> r == TypedValueView::String(
                integer_text(n as int),
            )
        }),
{
}

/// The width of an integer does not matter to what it coerces to.
pub proof fn law_width_of_integers_does_not_matter(
    n: i32,
    ty: FieldType,
    parsed: Option<u64>,
    r: TypedValueView,
)
    ensures
        coerces_to(ValueView::Int32(n), ty, parsed, r) <==> coerces_to(
            ValueView::Int64(n as i64),
            ty,
            parsed,
            r,
        ),
        coerces_to(ValueView::Int32(n), FieldType::Bool, parsed, r) <==> r == TypedValueView::Bool(
            n != 0,
        ),
        coerces_to(ValueView::Int32(n), FieldType::Int32, parsed, r) <==> r
            == TypedValueView::Int32(n),
        value_text(ValueView::Int32(n)) == value_text(ValueView::Int64(n as i64)),
{
}

/// A truth value coerces to itself, to 1 or 0, and to its name, and to no double or point
/// in time.
pub proof fn law_truth_values_coerce_to_one_and_zero(
    b: bool,
    parsed: Option<u64>,
    r: TypedValueView,
)
    ensures
        ({
            let v = ValueView::Boolean(b);
            &&& coerces_to(v, FieldType::Bool, parsed, r) <==> r == TypedValueView::Bool(b)
            &&& coerces_to(v, FieldType::Int32, parsed, r) <==> r == TypedValueView::Int32(
                if b {
                    1
                } else {
                    0
                },
            )
            &&& coerces_to(v, FieldType::Int64, parsed, r) <==> r == TypedValueView::Int64(
                if b {
                    1
                } else {
                    0
                },
            )
            &&& coerces_to(v, FieldType::Double, parsed, r) <==> r is Null
            &&& coerces_to(v, FieldType::Timestamp, parsed, r) <==> r is Null
            &&& coerces_to(v, FieldType::String, parsed, r) <==> r == TypedValueView::String(
                if b {
                    "true"@
                } else {
                    "false"@
                },
            )
        }),
{
}

/// A truth value that is coerced to an integer, and the integer to a truth value, is itself
/// again.
pub proof fn law_truth_values_survive_an_integer(
    b: bool,
    parsed: Option<u64>,
    narrow: i32,
    wide: i64,
)
    requires
        coerces_to(
            ValueView::Boolean(b),
            FieldType::Int32,
            parsed,
            TypedValueView::Int32(narrow),
        ),
        coerces_to(
            ValueView::Boolean(b),
            FieldType::Int64,
            parsed,
            TypedValueView::Int64(wide),
        ),
    ensures
        coerces_to(ValueView::Int32(narrow), FieldType::Bool, parsed, TypedValueView::Bool(b)),
        coerces_to(ValueView::Int64(wide), FieldType::Bool, parsed, TypedValueView::Bool(b)),
{
}

/// A double coerces to itself, to the integer that it is where it is one that fits, and
/// to no truth value or point in time.
pub proof fn law_doubles_coerce_to_the_integers_they_are(
    bits: u64,
    n: int,
    parsed: Option<u64>,
    r: TypedValueView,
)
    ensures
        ({
            let v = ValueView::Double(bits);
            &&& coerces_to(v, FieldType::Double, parsed, r) <==> r == TypedValueView::Double(bits)
            &&& integer_value(bits) == Some(n) && -0x8000_0000 <= n <= 0x7fff_ffff ==> (
            coerces_to(v, FieldType::Int32, parsed, r) <==> r == TypedValueView::Int32(n as i32))
            &&& integer_value(bits) == Some(n) && -0x8000_0000_0000_0000 <= n
                <= 0x7fff_ffff_ffff_ffff ==> (coerces_to(v, FieldType::Int64, parsed, r) <==> r
                == TypedValueView::Int64(n as i64))
            &&& integer_value(bits) == Some(n) && !(-0x8000_0000 <= n <= 0x7fff_ffff) ==> (
            coerces_to(v, FieldType::Int32, parsed, r) <==> r is Null)
            &&& integer_value(bits) == Some(n) && !(-0x8000_0000_0000_0000 <= n
                <= 0x7fff_ffff_ffff_ffff) ==> (coerces_to(v, FieldType::Int64, parsed, r) <==> r
                is Null)
            &&& integer_value(bits) is None ==> (coerces_to(v, FieldType::Int32, parsed, r) <==> r
                is Null)
            &&& integer_value(bits) is None ==> (coerces_to(v, FieldType::Int64, parsed, r) <==> r
                is Null)
            &&& coerces_to(v, FieldType::Bool, parsed, r) <==> r is Null
            &&& coerces_to(v, FieldType::Timestamp, parsed, r) <==> r is Null
            &&& coerces_to(v, FieldType::String, parsed, r) <==> r == TypedValueView::String(
                double_text(bits),
            )
        }),
{
}

/// A point in time coerces to itself, and to a 64-bit integer as its milliseconds since
/// the epoch, and besides to its text alone.
pub proof fn law_points_in_time_coerce_to_milliseconds(
    ms: i64,
    parsed: Option<u64>,
    r: TypedValueView,
)
    ensures
        ({
            let v = ValueView::DateTime(ms);
            &&& coerces_to(v, FieldType::Timestamp, parsed, r) <==> r
                == TypedValueView::TimestampMs(ms)
            &&& coerces_to(v, FieldType::Int64, parsed, r) <==> r == TypedValueView::Int64(ms)
            &&& coerces_to(v, FieldType::Int32, parsed, r) <==> r is Null
            &&& coerces_to(v, FieldType::Double, parsed, r) <==> r is Null
            &&& coerces_to(v, FieldType::Bool, parsed, r) <==> r is Null
            &&& coerces_to(v, FieldType::String, parsed, r) <==> r == TypedValueView::String(
                match rfc3339_text(ms) {
                    Some(s) => s,
                    None => datetime_text(ms),
                },
            )
        }),
{
}

/// A text that is an integer in decimal digits coerces to it where it fits, and to nothing
/// where it does not.
pub proof fn law_digits_coerce_to_the_integer(n: int, parsed: Option<u64>, r: TypedValueView)
    ensures
        ({
            let v = ValueView::String(integer_text(n));
            &&& -0x8000_0000 <= n <= 0x7fff_ffff ==> (coerces_to(v, FieldType::Int32, parsed, r)
                <==> r == TypedValueView::Int32(n as i32))
            &&& !(-0x8000_0000 <= n <= 0x7fff_ffff) ==> (coerces_to(
                v,
                FieldType::Int32,
                parsed,
                r,
            ) <==> r is Null)
            &&& -0x8000_0000_0000_0000 <= n <= 0x7fff_ffff_ffff_ffff ==> (coerces_to(
                v,
                FieldType::Int64,
                parsed,
                r,
            ) <==> r == TypedValueView::Int64(n as i64))
            &&& !(-0x8000_0000_0000_0000 <= n <= 0x7fff_ffff_ffff_ffff) ==> (coerces_to(
                v,
                FieldType::Int64,
                parsed,
                r,
            ) <==> r is Null)
        }),
{
    law_integer_text_is_parsed_back(n, n, n);
    if -0x8000_0000 <= n <= 0x7fff_ffff {
        law_integer_text_is_parsed_back(n, i32::MIN as int, i32::MAX as int);
    }
    if -0x8000_0000_0000_0000 <= n <= 0x7fff_ffff_ffff_ffff {
        law_integer_text_is_parsed_back(n, i64::MIN as int, i64::MAX as int);
    }
}

/// A text coerces to an integer exactly where it parses as one that fits, to the double
/// that it spells, to the point in time that it stands for, and to itself.
pub proof fn law_texts_coerce_to_what_they_parse_to(
    s: Seq<char>,
    parsed: Option<u64>,
    r: TypedValueView,
)
    ensures
        ({
            let v = ValueView::String(s);
            &&& coerces_to(v, FieldType::String, parsed, r) <==> r == TypedValueView::String(s)
            &&& coerces_to(v, FieldType::Int32, parsed, r) <==> match parse_integer(
                s,
                -0x8000_0000,
                0x7fff_ffff,
            ) {
                Some(n) => r matches TypedValueView::Int32(m) && m == n,
                None => r is Null,
            }
            &&& coerces_to(v, FieldType::Int64, parsed, r) <==> match parse_integer(
                s,
                -0x8000_0000_0000_0000,
                0x7fff_ffff_ffff_ffff,
            ) {
                Some(n) => r matches TypedValueView::Int64(m) && m == n,
                None => r is Null,
            }
            &&& coerces_to(v, FieldType::Double, parsed, r) <==> match parsed {
                Some(bits) => r == TypedValueView::Double(bits),
                None => r is Null,
            }
            &&& coerces_to(v, FieldType::Timestamp, parsed, r) <==> match rfc3339_millis(s) {
                Some(ms) => r == TypedValueView::TimestampMs(ms),
                None => r is Null,
            }
        }),
{
}

/// A text is coerced to the double that it spells, up to the bits of what is not a number,
/// and to nothing where it spells none.
pub proof fn law_texts_are_coerced_to_the_doubles_they_spell(s: Seq<char>, r: TypedValueView)
    ensures
        is_coerced(ValueView::String(s), FieldType::Double, r) <==> match spelled_double(s) {
            Some(d) => r matches TypedValueView::Double(bits) && (bits == d || is_nan(bits)
                && is_nan(d)),
            None => r is Null,
        },
{
    let v = ValueView::String(s);
    match spelled_double(s) {
        Some(d) => {
            if let TypedValueView::Double(bits) = r {
                if same_double(bits, d) {
                    assert(reads_as(v, Some(bits)));
                }
            }
        },
        None => {
            assert(reads_as(v, None));
        },
    }
}

/// But for a text in a double column, what a value is coerced to depends on the value and
/// the column alone.
pub proof fn law_only_texts_are_parsed(
    v: ValueView,
    ty: FieldType,
    parsed: Option<u64>,
    r: TypedValueView,
)
    requires
        !(v is String) || !(ty is Double),
    ensures
        is_coerced(v, ty, r) <==> coerces_to(v, ty, parsed, r),
{
    if let ValueView::String(s) = v {
        assert(reads_as(v, spelled_double(s)));
    } else {
        assert(reads_as(v, parsed));
    }
}

/// The texts that coerce to a truth value, in any case of letters: no other does.
pub proof fn law_these_words_are_truth_values(
    s: Seq<char>,
    parsed: Option<u64>,
    r: TypedValueView,
)
    ensures
        ({
            let l = lower(s);
            let yes = l == "true"@ || l == "1"@ || l == "yes"@ || l == "y"@;
            let no = l == "false"@ || l == "0"@ || l == "no"@ || l == "n"@;
            let v = ValueView::String(s);
            &&& yes ==> (coerces_to(v, FieldType::Bool, parsed, r) <==> r == TypedValueView::Bool(
                true,
            ))
            &&& no ==> (coerces_to(v, FieldType::Bool, parsed, r) <==> r == TypedValueView::Bool(
                false,
            ))
            &&& !yes && !no ==> (coerces_to(v, FieldType::Bool, parsed, r) <==> r is Null)
        }),
{
    reveal_strlit("true");
    reveal_strlit("1");
    reveal_strlit("yes");
    reveal_strlit("y");
    reveal_strlit("false");
    reveal_strlit("0");
    reveal_strlit("no");
    reveal_strlit("n");
    assert("true"@.len() == 4 && "yes"@.len() == 3 && "false"@.len() == 5 && "no"@.len() == 2);
    assert("1"@[0] == '1' && "y"@[0] == 'y' && "0"@[0] == '0' && "n"@[0] == 'n');
}

/// A value that is no number, text, truth value or point in time coerces to its text and
/// to nothing else.
pub proof fn law_other_values_coerce_to_texts_alone(
    v: ValueView,
    ty: FieldType,
    parsed: Option<u64>,
    r: TypedValueView,
)
    requires
        !(v is Int32 || v is Int64 || v is Double || v is String || v is Boolean || v is DateTime),
    ensures
        !(ty is String) ==> (coerces_to(v, ty, parsed, r) <==> r is Null),
        ty is String ==> (coerces_to(v, ty, parsed, r) <==> r == TypedValueView::String(
            value_text(v),
        )),
{
}

/// A value that is absent has an empty text, and a value that holds a text has that text,
/// whole.
pub proof fn law_texts_of_values_are_whole(s: Seq<char>)
    ensures
        value_text(ValueView::Null).len() == 0,
        value_text(ValueView::Undefined).len() == 0,
        value_text(ValueView::String(s)) == s,
        value_text(ValueView::Symbol(s)) == s,
        value_text(ValueView::JavaScriptCode(s)) == s,
        value_text(ValueView::JavaScriptCodeWithScope(s)) == s,
        value_text(ValueView::Decimal128(s)) == s,
        value_text(ValueView::Binary(s)) == s,
        value_text(ValueView::DbPointer(s)) == s,
        value_text(ValueView::Array(s)) == s,
        value_text(ValueView::Document(s)) == s,
        value_text(ValueView::MinKey) == "MinKey"@,
        value_text(ValueView::MaxKey) == "MaxKey"@,
{
}

/// The text of a value that is made of parts holds each of them, whole.
pub proof fn law_texts_of_values_hold_their_parts(
    time: u32,
    increment: u32,
    pattern: Seq<char>,
    options: Seq<char>,
    bits: u64,
    ms: i64,
)
    ensures
        value_text(ValueView::Timestamp { time, increment }) == integer_text(time as int) + seq![
            ':',
        ] + integer_text(increment as int),
        value_text(ValueView::RegularExpression { pattern, options }) == seq!['/'] + pattern
            + seq!['/'] + options,
        value_text(ValueView::Double(bits)) == double_text(bits),
        rfc3339_text(ms) is Some ==> value_text(ValueView::DateTime(ms)) == rfc3339_text(ms)->0,
        rfc3339_text(ms) is None ==> value_text(ValueView::DateTime(ms)) == datetime_text(ms),
{
    reveal_strlit(":");
    reveal_strlit("/");
    assert(":"@ =~= seq![':']);
    assert("/"@ =~= seq!['/']);
}

/// A cell holds the text of its value, whole: nothing where the value is absent, and the
/// milliseconds since the epoch of a point in time that has no RFC 3339 text.
pub proof fn law_cells_hold_the_texts_of_their_values(v: TypedValueView)
    ensures
        match v {
            TypedValueView::Null => v.csv_text().len() == 0,
            TypedValueView::String(s) => v.csv_text() == s,
            TypedValueView::Int32(n) => v.csv_text() == integer_text(n as int),
            TypedValueView::Int64(n) => v.csv_text() == integer_text(n as int),
            TypedValueView::Double(bits) => v.csv_text() == double_text(bits),
            TypedValueView::Bool(b) => v.csv_text() == if b {
                "true"@
            } else {
                "false"@
            },
            TypedValueView::TimestampMs(ms) => {
                &&& rfc3339_text(ms) is Some ==> v.csv_text() == rfc3339_text(ms)->0
                &&& rfc3339_text(ms) is None ==> v.csv_text() == integer_text(ms as int)
            },
        },
{
}

/// Hexadecimal texts are of the digits and the letters `a` to `f`, in lower case, and the
/// first digit of a byte is the higher one.
pub proof fn law_hex_is_in_lower_case(bytes: Seq<u8>, i: int)
    requires
        0 <= i < bytes.len(),
    ensures
        ({
            let high = hex(bytes)[2 * i];
            let low = hex(bytes)[2 * i + 1];
            &&& '0' <= high <= '9' || 'a' <= high <= 'f'
            &&& '0' <= low <= '9' || 'a' <= low <= 'f'
            &&& bytes[i] < 160 ==> high as u32 == '0' as u32 + bytes[i] / 16
            &&& bytes[i] >= 160 ==> high as u32 == 'a' as u32 + bytes[i] / 16 - 10
            &&& bytes[i] % 16 < 10 ==> low as u32 == '0' as u32 + bytes[i] % 16
            &&& bytes[i] % 16 >= 10 ==> low as u32 == 'a' as u32 + bytes[i] % 16 - 10
        }),
{
    assert((2 * i) / 2 == i && (2 * i + 1) / 2 == i);
    assert(hex(bytes)[2 * i] == hex_digit(bytes[i] as int / 16));
    assert(hex(bytes)[2 * i + 1] == hex_digit(bytes[i] as int % 16));
}

/// A value fits the column of its own type, an absent value fits every column, and no
/// value fits a column of another type.
pub proof fn law_values_fit_their_own_columns(v: TypedValueView, ty: FieldType)
    ensures
        v is Null ==> v.fits(ty),
        !(v is Null) ==> (v.fits(ty) <==> ty == v.field_type()),
        v is String ==> v.field_type() is String,
        v is Int32 ==> v.field_type() is Int32,
        v is Int64 ==> v.field_type() is Int64,
        v is Double ==> v.field_type() is Double,
        v is Bool ==> v.field_type() is Bool,
        v is TimestampMs ==> v.field_type() is Timestamp,
{
}

/// Each value of a record stands in its place, and each record in its own.
pub proof fn law_records_hold_their_values(records: Seq<Vec<TypedValue>>, i: int, j: int)
    requires
        0 <= i < records.len(),
        0 <= j < records[i]@.len(),
    ensures
        rows(records).len() == records.len(),
        rows(records)[i].len() == records[i]@.len(),
        rows(records)[i][j] == records[i]@[j]@,
{
}

/// A typed value is seen as what it holds.
pub proof fn law_typed_values_are_seen_whole(v: TypedValue)
    ensures
        match v {
            TypedValue::Null => v@ is Null,
            TypedValue::String(s) => v@ == TypedValueView::String(s@),
            TypedValue::Int32(n) => v@ == TypedValueView::Int32(n),
            TypedValue::Int64(n) => v@ == TypedValueView::Int64(n),
            TypedValue::Double(bits) => v@ == TypedValueView::Double(bits),
            TypedValue::Bool(b) => v@ == TypedValueView::Bool(b),
            TypedValue::TimestampMs(ms) => v@ == TypedValueView::TimestampMs(ms),
        },
{
}

/// A value is seen as what it holds.
pub proof fn law_values_are_seen_whole(v: Value)
    ensures
        match v {
            Value::Double(bits) => v@ == ValueView::Double(bits),
            Value::String(s) => v@ == ValueView::String(s@),
            Value::Boolean(b) => v@ == ValueView::Boolean(b),
            Value::Null => v@ is Null,
            Value::Int32(n) => v@ == ValueView::Int32(n),
            Value::Int64(n) => v@ == ValueView::Int64(n),
            Value::ObjectId(bytes) => v@ == ValueView::ObjectId(bytes@),
            Value::DateTime(ms) => v@ == ValueView::DateTime(ms),
            Value::Timestamp { time, increment } => v@ == (ValueView::Timestamp {
                time,
                increment,
            }),
            Value::Symbol(s) => v@ == ValueView::Symbol(s@),
            Value::RegularExpression { pattern, options } => v@ == (ValueView::RegularExpression {
                pattern: pattern@,
                options: options@,
            }),
            Value::JavaScriptCode(s) => v@ == ValueView::JavaScriptCode(s@),
            Value::JavaScriptCodeWithScope(s) => v@ == ValueView::JavaScriptCodeWithScope(s@),
            Value::Undefined => v@ is Undefined,
            Value::MinKey => v@ is MinKey,
            Value::MaxKey => v@ is MaxKey,
            Value::Decimal128(s) => v@ == ValueView::Decimal128(s@),
            Value::Binary(s) => v@ == ValueView::Binary(s@),
            Value::DbPointer(s) => v@ == ValueView::DbPointer(s@),
            Value::Array(s) => v@ == ValueView::Array(s@),
            Value::Document(s) => v@ == ValueView::Document(s@),
        },
{
}

/// The points in time that are read back from their cells are those from the epoch up to
/// the end of the year 9999, of which each day has 86400000 milliseconds.
pub proof fn law_points_in_time_are_read_back_for_ten_thousand_years(ms: i64)
    ensures
        is_rfc3339_time(ms) <==> 0 <= ms < 2_932_897 * 86_400_000,
        TypedValueView::TimestampMs(ms).is_read_back() <==> is_rfc3339_time(ms),
{
}

/// Texts, integers and truth values are all read back from their cells; of absent values
/// and doubles that is not said.
pub proof fn law_these_values_are_read_back(v: TypedValueView)
    ensures
        v is String || v is Int32 || v is Int64 || v is Bool ==> v.is_read_back(),
        v is Null || v is Double ==> !v.is_read_back(),
{
}

} // verus!
