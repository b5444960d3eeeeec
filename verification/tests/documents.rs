use bson::spec::BinarySubtype;
use bson::{Binary, Bson, Decimal128, Document, JavaScriptCodeWithScope, Regex, Timestamp};
use bson2csv::document::{
    bson_to_string, coerce, decode_document, encode_document, find, get_flattened, read_value,
};
use bson2csv::field_type::FieldType;
use bson2csv::filter::{load_filter_set, ValueSet};
use bson2csv::record::{process_chunk, process_document};
use bson2csv::value::{value_to_string, TypedValue};

fn user(id: i32, name: &str, age: i32) -> Document {
    let mut user = Document::new();
    user.insert("name", name);
    user.insert("age", age);
    let mut doc = Document::new();
    doc.insert("_id", id);
    doc.insert("user", user);
    doc.insert("tags", Bson::Array(vec![Bson::from("admin"), Bson::from("beta")]));
    doc
}

fn text(doc: &Document, path: &str) -> Option<String> {
    get_flattened(doc, path)
}

fn some(s: &str) -> Option<String> {
    Some(s.to_string())
}

fn strings(texts: &[&str]) -> Vec<String> {
    texts.iter().map(|s| s.to_string()).collect()
}

fn set_of(texts: &[&str]) -> ValueSet {
    load_filter_set(&strings(texts))
}

#[test]
fn nested_paths_are_followed() {
    let doc = user(42, "alice", 30);
    assert_eq!(text(&doc, "_id"), some("42"));
    assert_eq!(text(&doc, "user.name"), some("alice"));
    assert_eq!(text(&doc, "user.age"), some("30"));
    assert_eq!(text(&doc, "tags.0"), some("admin"));
    assert_eq!(text(&doc, "tags.1"), some("beta"));
    assert_eq!(text(&doc, "tags.+1"), some("beta"));
    assert_eq!(text(&doc, "tags.01"), some("beta"));
}

#[test]
fn missing_paths_lead_nowhere() {
    let doc = user(42, "alice", 30);
    let paths = [
        "", ".", "name", "user.", "user.city", "user.name.first", "tags.2", "tags.-1", "tags.x", "tags.",
        "_id.0", "user..name", ".user", "USER",
    ];
    for path in paths {
        assert_eq!(text(&doc, path), None, "{path}");
        assert!(find(&doc, path).is_none(), "{path}");
    }
}

#[test]
fn empty_segments_name_empty_fields() {
    let mut inner = Document::new();
    inner.insert("", "deep");
    let mut doc = Document::new();
    doc.insert("", Bson::Document(inner));
    assert_eq!(text(&doc, "."), some("deep"));
}

#[test]
fn sub_documents_are_looked_up_like_documents() {
    let doc = user(1, "bob", 7);
    let inner = match find(&doc, "user") {
        Some(Bson::Document(d)) => d.clone(),
        other => panic!("{other:?}"),
    };
    for path in ["name", "age", "city"] {
        assert_eq!(text(&doc, &format!("user.{path}")), text(&inner, path));
    }
}

#[test]
fn containers_are_json() {
    let doc = user(42, "alice", 30);
    assert_eq!(text(&doc, "user"), some("{ \"name\": \"alice\", \"age\": 30 }"));
    assert_eq!(text(&doc, "tags"), some("[\"admin\", \"beta\"]"));
    let mut quoted = Document::new();
    quoted.insert("say", "a \"b\"\n");
    let mut outer = Document::new();
    outer.insert("q", Bson::Document(quoted));
    outer.insert("e", Bson::Array(vec![]));
    assert_eq!(text(&outer, "q"), some("{\"say\":\"a \\\"b\\\"\\n\"}"));
    assert_eq!(text(&outer, "e"), some("[]"));
}

#[test]
fn containers_that_print_as_json_are_printed() {
    let one = Decimal128::from_bytes([1, 0, 0, 0, 0, 0, 0, 0, 0, 0, 0, 0, 0, 0, 0x40, 0x30]);
    let mut inner = Document::new();
    inner.insert("d", 3.0);
    inner.insert("big", 1e21);
    inner.insert("n", Bson::Null);
    inner.insert("t", true);
    inner.insert("l", 1i64 << 40);
    inner.insert("p", Bson::Decimal128(one));
    inner.insert("ü \u{7f}", "é/'");
    inner.insert("a", Bson::Array(vec![Bson::Array(vec![]), Bson::Document(Document::new())]));
    let container = Bson::Document(inner.clone());
    assert_eq!(bson_to_string(&container), container.to_string());
    let expected = "{ \"d\": 3, \"big\": 1000000000000000000000, \"n\": null, \"t\": true, ";
    assert!(bson_to_string(&container).starts_with(expected));

    let nan = Decimal128::from_bytes([0, 0, 0, 0, 0, 0, 0, 0, 0, 0, 0, 0, 0, 0, 0, 0x7c]);
    let others = [
        Bson::from("a\"b"),
        Bson::from("a\\b"),
        Bson::from("a\tb"),
        Bson::Double(f64::NAN),
        Bson::Double(f64::INFINITY),
        Bson::Decimal128(nan),
        Bson::DateTime(bson::DateTime::from_millis(0)),
        Bson::Symbol("s".to_string()),
        Bson::Undefined,
        Bson::JavaScriptCode("1".to_string()),
    ];
    for other in others {
        let mut outer = inner.clone();
        outer.insert("x", Bson::Array(vec![other]));
        let container = Bson::Document(outer);
        let json = container.clone().into_relaxed_extjson().to_string();
        assert_ne!(json, container.to_string());
        assert_eq!(bson_to_string(&container), json);
    }
    let mut named = Document::new();
    named.insert("a\"b", 1);
    assert_eq!(bson_to_string(&Bson::Document(named)), "{\"a\\\"b\":1}");
    let mut forged = Document::new();
    forged.insert("a", "1\", \"b\": \"2");
    assert_eq!(bson_to_string(&Bson::Document(forged)), "{\"a\":\"1\\\", \\\"b\\\": \\\"2\"}");
}

#[test]
fn containers_of_every_kind_are_json() {
    let one = Decimal128::from_bytes([1, 0, 0, 0, 0, 0, 0, 0, 0, 0, 0, 0, 0, 0, 0x40, 0x30]);
    let oid = bson::oid::ObjectId::from_bytes([1, 2, 3, 4, 5, 6, 7, 8, 9, 10, 11, 12]);
    let mut scope = Document::new();
    scope.insert("d", Bson::Decimal128(one));
    scope.insert("n", f64::NAN);
    let code = JavaScriptCodeWithScope { code: "g()".to_string(), scope };
    let items = vec![
        Bson::Double(1.5),
        Bson::Double(f64::NAN),
        Bson::Double(f64::NEG_INFINITY),
        Bson::Null,
        Bson::Boolean(false),
        Bson::Int32(-1),
        Bson::Int64(1 << 40),
        Bson::ObjectId(oid),
        Bson::DateTime(bson::DateTime::from_millis(0)),
        Bson::DateTime(bson::DateTime::MAX),
        Bson::DateTime(bson::DateTime::MIN),
        Bson::Timestamp(Timestamp { time: 7, increment: 3 }),
        Bson::Decimal128(one),
        Bson::Symbol("s".to_string()),
        Bson::RegularExpression(Regex { pattern: "a".to_string(), options: "xi".to_string() }),
        Bson::Binary(Binary { subtype: BinarySubtype::Generic, bytes: vec![1, 2, 3] }),
        Bson::Undefined,
        Bson::MinKey,
        Bson::MaxKey,
        Bson::JavaScriptCode("f()".to_string()),
        Bson::JavaScriptCodeWithScope(code),
        Bson::Array(vec![Bson::Array(vec![])]),
    ];
    let text = bson_to_string(&Bson::Array(items));
    let parts = [
        "[1.5,{\"$numberDouble\":\"NaN\"},{\"$numberDouble\":\"-Infinity\"},null,false,-1,1099511627776,",
        "{\"$oid\":\"0102030405060708090a0b0c\"},{\"$date\":\"1970-01-01T00:00:00Z\"},",
        "{\"$timestamp\":{\"t\":7,\"i\":3}},{\"$numberDecimal\":\"1\"},{\"$symbol\":\"s\"},",
        "{\"$undefined\":true},{\"$minKey\":1},{\"$maxKey\":1},{\"$code\":\"f()\"}",
        ",[[]]]",
    ];
    for part in parts {
        assert!(text.contains(part), "{part} in {text}");
    }
}

#[test]
fn bson_values_are_coerced() {
    assert!(matches!(coerce(&Bson::Int32(5), FieldType::Int64), TypedValue::Int64(5)));
    assert!(matches!(coerce(&Bson::from("12"), FieldType::Int32), TypedValue::Int32(12)));
    assert!(matches!(coerce(&Bson::from("x"), FieldType::Int32), TypedValue::Null));
    assert!(matches!(coerce(&Bson::Boolean(true), FieldType::Bool), TypedValue::Bool(true)));
    let date = Bson::DateTime(bson::DateTime::from_millis(7));
    assert!(matches!(coerce(&date, FieldType::Timestamp), TypedValue::TimestampMs(7)));
    match coerce(&Bson::from("2.5"), FieldType::Double) {
        TypedValue::Double(bits) => assert_eq!(f64::from_bits(bits), 2.5),
        other => panic!("{other:?}"),
    }
    match coerce(&Bson::Array(vec![Bson::Int32(1)]), FieldType::String) {
        TypedValue::String(s) => assert_eq!(s, "[1]"),
        other => panic!("{other:?}"),
    }
    assert!(matches!(coerce(&Bson::Array(vec![]), FieldType::Int64), TypedValue::Null));
    assert!(matches!(coerce(&Bson::Double(1e19), FieldType::Int64), TypedValue::Null));
    assert!(matches!(coerce(&Bson::Double(1e15), FieldType::Int64), TypedValue::Int64(1000000000000000)));
}

#[test]
fn every_kind_of_value_is_read() {
    let oid = bson::oid::ObjectId::from_bytes([1, 2, 3, 4, 5, 6, 7, 8, 9, 10, 11, 12]);
    let regex = Regex { pattern: "a.*".to_string(), options: "i".to_string() };
    let code = JavaScriptCodeWithScope { code: "g()".to_string(), scope: Document::new() };
    let decimal = Decimal128::from_bytes([1, 0, 0, 0, 0, 0, 0, 0, 0, 0, 0, 0, 0, 0, 0x40, 0x30]);
    let binary = Binary { subtype: BinarySubtype::Generic, bytes: vec![1, 2, 3] };
    let cases = [
        (Bson::Double(1.5), "1.5".to_string()),
        (Bson::Double(3.0), "3".to_string()),
        (Bson::String("x".to_string()), "x".to_string()),
        (Bson::Boolean(true), "true".to_string()),
        (Bson::Null, String::new()),
        (Bson::Int32(-1), "-1".to_string()),
        (Bson::Int64(1 << 40), "1099511627776".to_string()),
        (Bson::ObjectId(oid), "0102030405060708090a0b0c".to_string()),
        (Bson::DateTime(bson::DateTime::from_millis(0)), "1970-01-01T00:00:00Z".to_string()),
        (Bson::Timestamp(Timestamp { time: 7, increment: 3 }), "7:3".to_string()),
        (Bson::Decimal128(decimal), decimal.to_string()),
        (Bson::Symbol("s".to_string()), "s".to_string()),
        (Bson::RegularExpression(regex), "/a.*/i".to_string()),
        (Bson::Binary(binary.clone()), Bson::Binary(binary).to_string()),
        (Bson::Undefined, String::new()),
        (Bson::MinKey, "MinKey".to_string()),
        (Bson::MaxKey, "MaxKey".to_string()),
        (Bson::JavaScriptCode("f()".to_string()), "f()".to_string()),
        (Bson::JavaScriptCodeWithScope(code), "g()".to_string()),
    ];
    for (value, expected) in cases {
        assert_eq!(bson_to_string(&value), expected, "{value:?}");
        assert_eq!(value_to_string(&read_value(&value)), expected);
        let mut doc = Document::new();
        doc.insert("v", value);
        assert_eq!(text(&doc, "v"), Some(expected));
    }
}

#[test]
fn decimals_and_pointers_have_their_own_texts() {
    let one = Decimal128::from_bytes([1, 0, 0, 0, 0, 0, 0, 0, 0, 0, 0, 0, 0, 0, 0x40, 0x30]);
    assert_eq!(bson_to_string(&Bson::Decimal128(one)), "1");
    // A document with one field `p` that points to `db.c`, in the encoding of BSON.
    let mut raw: Vec<u8> = vec![0, 0, 0, 0, 0x0c, b'p', 0, 5, 0, 0, 0];
    raw.extend_from_slice(b"db.c\0");
    raw.extend_from_slice(&[1, 2, 3, 4, 5, 6, 7, 8, 9, 10, 11, 12, 0]);
    raw[0] = raw.len() as u8;
    let doc = decode_document(&raw).unwrap();
    let expected = format!("{:?}", doc.get("p").unwrap());
    assert!(expected.contains("db.c"));
    assert_eq!(text(&doc, "p"), Some(expected));
}

#[test]
fn documents_are_decoded() {
    let doc = user(42, "alice", 30);
    let bytes = bson::to_vec(&doc).unwrap();
    let again = decode_document(&bytes).unwrap();
    assert_eq!(again, doc);
    assert_eq!(text(&again, "user.name"), some("alice"));
    for end in 0..bytes.len() {
        assert!(decode_document(&bytes[..end]).is_err());
    }
    let mut broken = bytes.clone();
    broken[4] = 0x7e;
    assert!(decode_document(&broken).is_err());
}

#[test]
fn encoded_documents_are_decoded() {
    let values = [
        Bson::Double(0.1),
        Bson::Double(-0.0),
        Bson::Double(f64::INFINITY),
        Bson::Double(5e-324),
        Bson::from(""),
        Bson::from("zero \0 and \u{10ffff}"),
        Bson::Boolean(false),
        Bson::Null,
        Bson::Int32(i32::MIN),
        Bson::Int64(i64::MIN),
        Bson::ObjectId(bson::oid::ObjectId::from_bytes([255; 12])),
        Bson::DateTime(bson::DateTime::MIN),
        Bson::DateTime(bson::DateTime::MAX),
        Bson::DateTime(bson::DateTime::from_millis(-1)),
        Bson::Array(vec![]),
        Bson::Document(Document::new()),
        Bson::Array(vec![Bson::Document(user(1, "a", 2)), Bson::Null]),
    ];
    let mut all = Document::new();
    for (i, value) in values.iter().enumerate() {
        for name in ["", "a", ".", "a$oid", " $", "ü"] {
            let mut doc = Document::new();
            doc.insert(name, value.clone());
            let bytes = encode_document(&doc).unwrap();
            assert_eq!(bytes, bson::to_vec(&doc).unwrap());
            let again = decode_document(&bytes).unwrap();
            assert_eq!(again, doc);
            assert_eq!(again.to_string(), doc.to_string());
        }
        all.insert(format!("f{i}"), value.clone());
    }
    let nested = Bson::Array(vec![Bson::Document(all.clone()), Bson::Document(all)]);
    let mut doc = Document::new();
    doc.insert("nested", nested);
    assert_eq!(decode_document(&encode_document(&doc).unwrap()).unwrap(), doc);
}

#[test]
fn some_documents_are_not_read_back() {
    let mut zero = Document::new();
    zero.insert("a\0b", 1);
    assert!(encode_document(&zero).is_err());
    let mut inner = Document::new();
    inner.insert("$oid", "507f1f77bcf86cd799439011");
    let mut outer = Document::new();
    outer.insert("id", Bson::Document(inner));
    let again = decode_document(&encode_document(&outer).unwrap()).unwrap();
    assert_ne!(again, outer);
    assert_eq!(text(&again, "id"), some("507f1f77bcf86cd799439011"));
}

#[test]
fn documents_become_rows() {
    let doc = user(42, "alice", 30);
    let fields = strings(&["_id", "user.name", "missing", "tags.0"]);
    let row = process_document(&doc, &fields, &None, &[]).unwrap();
    assert_eq!(row, strings(&["42", "alice", "", "admin"]));
    assert_eq!(process_document(&doc, &[], &None, &[]), Some(vec![]));
}

#[test]
fn filters_keep_equal_texts() {
    let doc = user(42, "alice", 30);
    let fields = strings(&["_id"]);
    let keep = |key: &str, value: &str| {
        let filter = Some((key.to_string(), value.to_string()));
        process_document(&doc, &fields, &filter, &[]).is_some()
    };
    assert!(keep("user.name", "alice"));
    assert!(keep("user.age", "30"));
    assert!(!keep("user.name", "Alice"));
    assert!(!keep("user.city", "alice"));
    assert!(!keep("user.city", ""));
}

#[test]
fn set_filters_are_combined_by_and() {
    let doc = user(42, "alice", 30);
    let fields = strings(&["_id"]);
    let filter = Some(("user.age".to_string(), "30".to_string()));
    let ids = || ("_id".to_string(), set_of(&["41", "42"]));
    let names = || ("user.name".to_string(), set_of(&["alice"]));
    let others = || ("user.name".to_string(), set_of(&["bob"]));
    let missing = || ("user.city".to_string(), set_of(&["", "x"]));
    assert!(process_document(&doc, &fields, &filter, &[ids(), names()]).is_some());
    assert!(process_document(&doc, &fields, &filter, &[ids(), others()]).is_none());
    assert!(process_document(&doc, &fields, &filter, &[others(), ids()]).is_none());
    assert!(process_document(&doc, &fields, &filter, &[missing()]).is_none());
    let wrong = Some(("user.age".to_string(), "31".to_string()));
    assert!(process_document(&doc, &fields, &wrong, &[ids(), names()]).is_none());
    let one = [("user.age".to_string(), set_of(&["30"]))];
    assert!(process_document(&doc, &fields, &None, &one).is_some());
}

#[test]
fn chunks_keep_the_order_of_documents() {
    let docs: Vec<Document> = (0..10).map(|i| user(i, if i % 3 == 0 { "a" } else { "b" }, i)).collect();
    let fields = strings(&["_id", "user.name"]);
    let filter = Some(("user.name".to_string(), "a".to_string()));
    let whole = process_chunk(&docs, &fields, &filter, &[]);
    assert_eq!(whole.total, 10);
    let ids: Vec<&str> = whole.records.iter().map(|r| r[0].as_str()).collect();
    assert_eq!(ids, vec!["0", "3", "6", "9"]);
    let mut parts = process_chunk(&docs[..4], &fields, &filter, &[]);
    parts.append(process_chunk(&docs[4..], &fields, &filter, &[]));
    assert_eq!(parts.records, whole.records);
    assert_eq!(parts.total, whole.total);
    let all = process_chunk(&docs, &fields, &None, &[]);
    assert_eq!(all.records.len(), 10);
    assert!(all.records.iter().all(|r| r.len() == 2));
}
