use bson2csv::field_type::{parse_field_types, FieldType, FieldTypeError, FieldTypes};

fn entries(texts: &[&str]) -> Vec<String> {
    texts.iter().map(|s| s.to_string()).collect()
}

#[test]
fn types_have_their_names() {
    let names = [
        ("string", FieldType::String),
        ("str", FieldType::String),
        ("utf8", FieldType::String),
        ("int32", FieldType::Int32),
        ("i32", FieldType::Int32),
        ("int64", FieldType::Int64),
        ("i64", FieldType::Int64),
        ("long", FieldType::Int64),
        ("double", FieldType::Double),
        ("f64", FieldType::Double),
        ("float", FieldType::Double),
        ("bool", FieldType::Bool),
        ("boolean", FieldType::Bool),
        ("timestamp", FieldType::Timestamp),
        ("datetime", FieldType::Timestamp),
        ("date", FieldType::Timestamp),
    ];
    for (name, ty) in names {
        assert_eq!(FieldType::parse(name).unwrap(), ty);
        assert_eq!(FieldType::parse(&name.to_uppercase()).unwrap(), ty);
    }
}

#[test]
fn unknown_types_are_refused() {
    for name in ["", "Integer", "int 32", " string"] {
        match FieldType::parse(name) {
            Err(FieldTypeError::UnknownType(t)) => assert_eq!(t, name.to_ascii_lowercase()),
            other => panic!("{other:?}"),
        }
    }
    assert_eq!(
        FieldType::parse("Integer").unwrap_err().message(),
        "Unknown field type 'integer'. Supported: string, int32, int64, double, bool, timestamp"
    );
}

#[test]
fn entries_are_declared() {
    let mut map = FieldTypes::new();
    let list = entries(&["age:int32", " user.name : String ", "at:DATE", "x:y:string"]);
    match parse_field_types(&list, &mut map) {
        Err(FieldTypeError::UnknownType(t)) => assert_eq!(t, "y:string"),
        other => panic!("{other:?}"),
    }
    assert_eq!(map.len(), 3);
    assert_eq!(map.get("age"), Some(FieldType::Int32));
    assert_eq!(map.get("user.name"), Some(FieldType::String));
    assert_eq!(map.get("at"), Some(FieldType::Timestamp));
    assert_eq!(map.get("x"), None);
}

#[test]
fn later_entries_override_earlier_ones() {
    let mut map = FieldTypes::new();
    assert!(parse_field_types(&entries(&["a:int32", "b:bool", "a:double"]), &mut map).is_ok());
    assert_eq!(map.get("a"), Some(FieldType::Double));
    assert_eq!(map.get("b"), Some(FieldType::Bool));
    assert!(parse_field_types(&entries(&["b:string"]), &mut map).is_ok());
    assert_eq!(map.get("a"), Some(FieldType::Double));
    assert_eq!(map.get("b"), Some(FieldType::String));
}

#[test]
fn faulty_entries_are_refused() {
    let mut map = FieldTypes::new();
    let error = parse_field_types(&entries(&["a:int32", "b", "c:int32"]), &mut map).unwrap_err();
    assert_eq!(error.message(), "--field-type must be name:type (got 'b')");
    assert_eq!(map.get("a"), Some(FieldType::Int32));
    assert_eq!(map.get("c"), None);
    let error = parse_field_types(&entries(&[" :int32"]), &mut map).unwrap_err();
    assert_eq!(error.message(), "--field-type name cannot be empty (in ' :int32')");
    assert!(parse_field_types(&[], &mut map).is_ok());
}
