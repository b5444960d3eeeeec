use bson2csv::double::{double_to_i32, double_to_i64, integer_to_double};
use bson2csv::field_type::FieldType;
use bson2csv::value::{coerce_parsed, coerce_value, value_to_string, TypedValue, Value};

fn text_of_double(v: f64) -> String {
    value_to_string(&Value::Double(v.to_bits()))
}

fn string(s: &str) -> Value {
    Value::String(s.to_string())
}

const DOUBLES: [f64; 24] = [
    0.0,
    -0.0,
    1.0,
    -1.0,
    1.5,
    -2.25,
    0.1,
    42.0,
    1e-7,
    1e15,
    9007199254740991.0,
    9007199254740992.0,
    9007199254740994.0,
    2147483647.0,
    2147483648.0,
    -2147483648.0,
    -2147483649.0,
    2147483647.5,
    9223372036854775807.0,
    -9223372036854775808.0,
    1e300,
    -1e300,
    f64::MIN_POSITIVE,
    5e-324,
];

#[test]
fn doubles_have_the_text_of_std() {
    for v in [0.0, -0.0, 1.0, 1.5, -2.25, 1e21, 1e-7, 0.1, f64::MAX, f64::MIN_POSITIVE] {
        assert_eq!(text_of_double(v), v.to_string());
    }
    assert_eq!(text_of_double(f64::NAN), "NaN");
    assert_eq!(text_of_double(f64::INFINITY), "inf");
    assert_eq!(text_of_double(f64::NEG_INFINITY), "-inf");
}

#[test]
fn doubles_become_integers_like_in_std() {
    for v in DOUBLES {
        let whole = v.fract() == 0.0;
        let in_range = whole && v >= i64::MIN as f64 && v < i64::MAX as f64;
        let expected = if in_range { Some(v as i64) } else { None };
        assert_eq!(double_to_i64(v.to_bits()), expected, "{v}");
        let in_range = whole && v >= i32::MIN as f64 && v <= i32::MAX as f64;
        let expected = if in_range { Some(v as i32) } else { None };
        assert_eq!(double_to_i32(v.to_bits()), expected, "{v}");
    }
    for v in [f64::NAN, f64::INFINITY, f64::NEG_INFINITY] {
        assert_eq!(double_to_i64(v.to_bits()), None);
        assert_eq!(double_to_i32(v.to_bits()), None);
    }
    let limit = 9223372036854775808.0f64;
    assert_eq!(double_to_i64((-limit).to_bits()), Some(i64::MIN));
    let below = f64::from_bits(limit.to_bits() - 1);
    assert_eq!(double_to_i64(below.to_bits()), Some(i64::MAX - 1023));
    let beyond = -f64::from_bits(limit.to_bits() + 1);
    for v in [limit, beyond, 2.0 * limit, -2.0 * limit, 1e19, -1e19, 1e300, -1e300, f64::MAX] {
        assert_eq!(double_to_i64(v.to_bits()), None, "{v}");
    }
}

#[test]
fn integers_become_doubles_like_in_std() {
    let mut values = vec![0, 1, -1, 2, 3, 10, i64::MAX, i64::MIN, i64::MAX - 1, i64::MIN + 1];
    for k in 50..63 {
        let p = 1i64 << k;
        for d in -3..=3 {
            values.push(p + d);
            values.push(-(p + d));
            values.push(p + (p >> 53) + d);
        }
    }
    for v in values {
        assert_eq!(integer_to_double(v), (v as f64).to_bits(), "{v}");
    }
}

#[test]
fn small_integers_survive_a_double() {
    for v in [0, 1, -1, 12345678901, 9007199254740992, -9007199254740992] {
        match coerce_value(&Value::Int64(v), FieldType::Double) {
            TypedValue::Double(bits) => {
                assert_eq!(double_to_i64(bits), Some(v));
                assert_eq!(f64::from_bits(bits), v as f64);
            }
            other => panic!("{other:?}"),
        }
    }
}

#[test]
fn scalars_have_their_texts() {
    assert_eq!(value_to_string(&string("alice")), "alice");
    assert_eq!(value_to_string(&Value::Boolean(true)), "true");
    assert_eq!(value_to_string(&Value::Boolean(false)), "false");
    assert_eq!(value_to_string(&Value::Null), "");
    assert_eq!(value_to_string(&Value::Undefined), "");
    assert_eq!(value_to_string(&Value::Int32(-42)), "-42");
    assert_eq!(value_to_string(&Value::Int64(1 << 40)), "1099511627776");
    let id = [0x50, 0x7f, 0x1f, 0x77, 0xbc, 0xf8, 0x6c, 0xd7, 0x99, 0x43, 0x90, 0x11];
    assert_eq!(value_to_string(&Value::ObjectId(id)), "507f1f77bcf86cd799439011");
    assert_eq!(value_to_string(&Value::DateTime(0)), "1970-01-01T00:00:00Z");
    assert_eq!(value_to_string(&Value::DateTime(1_700_000_000_123)), "2023-11-14T22:13:20.123Z");
    assert_eq!(value_to_string(&Value::Timestamp { time: 7, increment: 3 }), "7:3");
    assert_eq!(value_to_string(&Value::Symbol("s".to_string())), "s");
    let regex = Value::RegularExpression { pattern: "a.*".to_string(), options: "i".to_string() };
    assert_eq!(value_to_string(&regex), "/a.*/i");
    assert_eq!(value_to_string(&Value::JavaScriptCode("f()".to_string())), "f()");
    assert_eq!(value_to_string(&Value::JavaScriptCodeWithScope("g()".to_string())), "g()");
    assert_eq!(value_to_string(&Value::MinKey), "MinKey");
    assert_eq!(value_to_string(&Value::MaxKey), "MaxKey");
}

#[test]
fn points_in_time_beyond_rfc3339_have_another_text() {
    for ms in [i64::MAX, i64::MIN] {
        let outside = bson::DateTime::from_millis(ms);
        let expected = match outside.try_to_rfc3339_string() {
            Ok(s) => s,
            Err(_) => outside.to_string(),
        };
        assert_eq!(value_to_string(&Value::DateTime(ms)), expected);
    }
    assert_eq!(TypedValue::TimestampMs(i64::MAX).to_csv_string(), i64::MAX.to_string());
}

#[test]
fn typed_values_have_their_cells() {
    assert_eq!(TypedValue::Null.to_csv_string(), "");
    assert_eq!(TypedValue::String("a,b".to_string()).to_csv_string(), "a,b");
    assert_eq!(TypedValue::Int32(-1).to_csv_string(), "-1");
    assert_eq!(TypedValue::Int64(i64::MIN).to_csv_string(), i64::MIN.to_string());
    assert_eq!(TypedValue::Double(1.5f64.to_bits()).to_csv_string(), "1.5");
    assert_eq!(TypedValue::Bool(true).to_csv_string(), "true");
    assert_eq!(TypedValue::TimestampMs(0).to_csv_string(), "1970-01-01T00:00:00Z");
}

fn is_int32(v: TypedValue, n: i32) -> bool {
    matches!(v, TypedValue::Int32(m) if m == n)
}

fn is_int64(v: TypedValue, n: i64) -> bool {
    matches!(v, TypedValue::Int64(m) if m == n)
}

fn is_null(v: TypedValue) -> bool {
    matches!(v, TypedValue::Null)
}

#[test]
fn values_coerce_to_32_bits() {
    let ty = FieldType::Int32;
    assert!(is_int32(coerce_value(&Value::Int32(5), ty), 5));
    assert!(is_int32(coerce_value(&Value::Int64(2147483647), ty), 2147483647));
    assert!(is_null(coerce_value(&Value::Int64(2147483648), ty)));
    assert!(is_int32(coerce_value(&Value::Double((-3.0f64).to_bits()), ty), -3));
    assert!(is_null(coerce_value(&Value::Double(2.5f64.to_bits()), ty)));
    assert!(is_null(coerce_value(&Value::Double(2147483648.0f64.to_bits()), ty)));
    assert!(is_int32(coerce_value(&string("+12"), ty), 12));
    assert!(is_null(coerce_value(&string("12 "), ty)));
    assert!(is_int32(coerce_value(&Value::Boolean(true), ty), 1));
    assert!(is_int32(coerce_value(&Value::Boolean(false), ty), 0));
    assert!(is_null(coerce_value(&Value::DateTime(5), ty)));
    assert!(is_null(coerce_value(&Value::Null, ty)));
}

#[test]
fn values_coerce_to_64_bits() {
    let ty = FieldType::Int64;
    assert!(is_int64(coerce_value(&Value::Int32(-5), ty), -5));
    assert!(is_int64(coerce_value(&Value::Int64(i64::MIN), ty), i64::MIN));
    assert!(is_int64(coerce_value(&Value::Double(1e18f64.to_bits()), ty), 1_000_000_000_000_000_000));
    let lowest = i64::MIN as f64;
    assert!(is_int64(coerce_value(&Value::Double(lowest.to_bits()), ty), i64::MIN));
    for v in [9223372036854775808.0f64, 1e19, 1e300, -1e300] {
        assert!(is_null(coerce_value(&Value::Double(v.to_bits()), ty)));
    }
    assert!(is_null(coerce_value(&Value::Double(f64::INFINITY.to_bits()), ty)));
    assert!(is_int64(coerce_value(&string("-9223372036854775808"), ty), i64::MIN));
    assert!(is_null(coerce_value(&string("x"), ty)));
    assert!(is_int64(coerce_value(&Value::Boolean(true), ty), 1));
    assert!(is_int64(coerce_value(&Value::DateTime(77), ty), 77));
    assert!(is_null(coerce_value(&Value::Symbol("1".to_string()), ty)));
}

#[test]
fn values_coerce_to_doubles() {
    let ty = FieldType::Double;
    let bits = |v: TypedValue| match v {
        TypedValue::Double(bits) => Some(bits),
        TypedValue::Null => None,
        other => panic!("{other:?}"),
    };
    assert_eq!(bits(coerce_value(&Value::Double(0.1f64.to_bits()), ty)), Some(0.1f64.to_bits()));
    assert_eq!(bits(coerce_value(&Value::Int32(-7), ty)), Some((-7.0f64).to_bits()));
    assert_eq!(bits(coerce_value(&Value::Int64(i64::MAX), ty)), Some((i64::MAX as f64).to_bits()));
    for s in ["1.5", "-0", "1e400", "inf", "-infinity", ".5", "5.", "1e-400", "+3"] {
        assert_eq!(bits(coerce_value(&string(s), ty)), Some(s.parse::<f64>().unwrap().to_bits()), "{s}");
    }
    assert!(f64::from_bits(bits(coerce_value(&string("nan"), ty)).unwrap()).is_nan());
    for s in ["", "1,5", " 1", "0x1", "e5"] {
        assert_eq!(bits(coerce_value(&string(s), ty)), None, "{s}");
    }
    assert_eq!(bits(coerce_value(&Value::Boolean(true), ty)), None);
    assert_eq!(bits(coerce_value(&Value::DateTime(1), ty)), None);
    assert_eq!(bits(coerce_parsed(&string("?"), ty, Some(3))), Some(3));
    assert_eq!(bits(coerce_parsed(&Value::Null, ty, Some(3))), None);
}

#[test]
fn values_coerce_to_truth_values() {
    let truth = |v: &Value| match coerce_value(v, FieldType::Bool) {
        TypedValue::Bool(b) => Some(b),
        TypedValue::Null => None,
        other => panic!("{other:?}"),
    };
    for s in ["true", "TRUE", "1", "yes", "Y"] {
        assert_eq!(truth(&string(s)), Some(true));
    }
    for s in ["false", "False", "0", "no", "N"] {
        assert_eq!(truth(&string(s)), Some(false));
    }
    for s in ["", "2", "on", "true "] {
        assert_eq!(truth(&string(s)), None);
    }
    assert_eq!(truth(&Value::Boolean(true)), Some(true));
    assert_eq!(truth(&Value::Int32(0)), Some(false));
    assert_eq!(truth(&Value::Int64(-1)), Some(true));
    assert_eq!(truth(&Value::Double(1.0f64.to_bits())), None);
}

#[test]
fn values_coerce_to_points_in_time() {
    let millis = |v: &Value| match coerce_value(v, FieldType::Timestamp) {
        TypedValue::TimestampMs(ms) => Some(ms),
        TypedValue::Null => None,
        other => panic!("{other:?}"),
    };
    assert_eq!(millis(&Value::DateTime(-5)), Some(-5));
    assert_eq!(millis(&Value::Int64(9)), Some(9));
    assert_eq!(millis(&Value::Int32(-9)), Some(-9));
    assert_eq!(millis(&string("2023-11-14T22:13:20.123Z")), Some(1_700_000_000_123));
    assert_eq!(millis(&string("1970-01-01T01:00:00+01:00")), Some(0));
    assert_eq!(millis(&string("yesterday")), None);
    assert_eq!(millis(&Value::Boolean(true)), None);
}

#[test]
fn text_columns_hold_the_text_of_the_value() {
    let values = [Value::Null, Value::Int32(3), string("x"), Value::DateTime(0), Value::MaxKey];
    for v in values {
        match coerce_value(&v, FieldType::String) {
            TypedValue::String(s) => assert_eq!(s, value_to_string(&v)),
            other => panic!("{other:?}"),
        }
    }
}

#[test]
fn cells_are_read_back_at_their_own_type() {
    let back = |v: &TypedValue, ty: FieldType| {
        let cell = coerce_value(&Value::String(v.to_csv_string()), ty);
        assert_eq!(format!("{cell:?}"), format!("{v:?}"));
    };
    for n in [0, 1, -1, i32::MAX, i32::MIN] {
        back(&TypedValue::Int32(n), FieldType::Int32);
        back(&TypedValue::Int64(n as i64), FieldType::Int64);
    }
    back(&TypedValue::Int64(i64::MAX), FieldType::Int64);
    back(&TypedValue::Int64(i64::MIN), FieldType::Int64);
    back(&TypedValue::Bool(true), FieldType::Bool);
    back(&TypedValue::Bool(false), FieldType::Bool);
    for s in ["", "x", "a,b\n", " 1 "] {
        back(&TypedValue::String(s.to_string()), FieldType::String);
    }
    for v in DOUBLES {
        back(&TypedValue::Double(v.to_bits()), FieldType::Double);
    }
    for ms in [0, 1, 10, 100, 999, 1000, 951_782_400_000, 1_700_000_000_120, 253_402_300_799_999] {
        back(&TypedValue::TimestampMs(ms), FieldType::Timestamp);
    }
    let mut ms: i64 = 7;
    while ms < 253_402_300_800_000 {
        back(&TypedValue::TimestampMs(ms), FieldType::Timestamp);
        ms += 61_803_398_875;
    }
    assert_eq!(coerce_value(&string("10000-01-01T00:00:00Z"), FieldType::Timestamp).to_csv_string(), "");
}

#[test]
fn texts_tell_values_apart() {
    let mut texts: Vec<String> = (-300..300).map(|n| value_to_string(&Value::Int32(n))).collect();
    for k in 0..12 {
        for b in 1..=255u8 {
            let mut id = [0u8; 12];
            id[k] = b;
            let text = value_to_string(&Value::ObjectId(id));
            assert_eq!(bson::oid::ObjectId::parse_str(&text).unwrap().bytes(), id);
            texts.push(text);
        }
    }
    let count = texts.len();
    texts.sort();
    texts.dedup();
    assert_eq!(texts.len(), count);
}
