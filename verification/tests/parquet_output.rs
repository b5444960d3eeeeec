use bson2csv::field_type::FieldType;
use bson2csv::parquet_sink::{
    arrow_data_type, Codec, Column, ColumnType, ParquetCompression, ParquetSink,
};
use bson2csv::value::TypedValue;
use bson2csv::OutputFormat;

const TYPES: [FieldType; 6] = [
    FieldType::String,
    FieldType::Int32,
    FieldType::Int64,
    FieldType::Double,
    FieldType::Bool,
    FieldType::Timestamp,
];

fn names() -> Vec<String> {
    ["s", "i", "l", "d", "b", "t"].iter().map(|s| s.to_string()).collect()
}

fn full_record() -> Vec<TypedValue> {
    vec![
        TypedValue::String("x".to_string()),
        TypedValue::Int32(1),
        TypedValue::Int64(2),
        TypedValue::Double(2.5f64.to_bits()),
        TypedValue::Bool(true),
        TypedValue::TimestampMs(3),
    ]
}

#[test]
fn codecs_have_their_levels() {
    assert_eq!(ParquetCompression::Uncompressed.to_parquet(), Codec::Uncompressed);
    assert_eq!(ParquetCompression::Snappy.to_parquet(), Codec::Snappy);
    assert_eq!(ParquetCompression::Gzip.to_parquet(), Codec::Gzip(6));
    assert_eq!(ParquetCompression::Zstd.to_parquet(), Codec::Zstd(3));
    assert_eq!(ParquetCompression::Lz4.to_parquet(), Codec::Lz4);
    assert_ne!(OutputFormat::Csv, OutputFormat::Parquet);
}

#[test]
fn field_types_have_arrow_types() {
    let expected = [
        ColumnType::Utf8,
        ColumnType::Int32,
        ColumnType::Int64,
        ColumnType::Float64,
        ColumnType::Boolean,
        ColumnType::TimestampMillisecondUtc,
    ];
    for (ty, column) in TYPES.iter().zip(expected) {
        assert_eq!(arrow_data_type(*ty), column);
    }
}

#[test]
fn schemas_have_a_nullable_column_for_each_field() {
    let sink = ParquetSink::new(&names(), &TYPES, ParquetCompression::Zstd);
    assert_eq!(sink.codec(), Codec::Zstd(3));
    assert_eq!(sink.schema().len(), 6);
    for (i, field) in sink.schema().iter().enumerate() {
        assert_eq!(field.name, names()[i]);
        assert_eq!(field.data_type, arrow_data_type(TYPES[i]));
        assert!(field.nullable);
    }
}

#[test]
fn records_become_columns() {
    let sink = ParquetSink::new(&names(), &TYPES, ParquetCompression::Snappy);
    let nulls: Vec<TypedValue> = (0..6).map(|_| TypedValue::Null).collect();
    let columns = sink.write_records(&[full_record(), nulls, full_record()]).unwrap();
    assert_eq!(columns.len(), 6);
    match &columns[0] {
        Column::Utf8(v) => assert_eq!(*v, vec![Some("x".to_string()), None, Some("x".to_string())]),
        other => panic!("{other:?}"),
    }
    match &columns[1] {
        Column::Int32(v) => assert_eq!(*v, vec![Some(1), None, Some(1)]),
        other => panic!("{other:?}"),
    }
    match &columns[2] {
        Column::Int64(v) => assert_eq!(*v, vec![Some(2), None, Some(2)]),
        other => panic!("{other:?}"),
    }
    match &columns[3] {
        Column::Float64(v) => {
            assert_eq!(*v, vec![Some(2.5f64.to_bits()), None, Some(2.5f64.to_bits())])
        }
        other => panic!("{other:?}"),
    }
    match &columns[4] {
        Column::Boolean(v) => assert_eq!(*v, vec![Some(true), None, Some(true)]),
        other => panic!("{other:?}"),
    }
    match &columns[5] {
        Column::TimestampMillisecondUtc(v) => assert_eq!(*v, vec![Some(3), None, Some(3)]),
        other => panic!("{other:?}"),
    }
}

#[test]
fn values_of_another_type_are_left_out() {
    let fields = names();
    for ty in TYPES {
        let types = [ty; 6];
        let sink = ParquetSink::new(&fields, &types, ParquetCompression::Lz4);
        let columns = sink.write_records(&[full_record()]).unwrap();
        for (i, column) in columns.iter().enumerate() {
            let held = match column {
                Column::Utf8(v) => v[0].is_some(),
                Column::Int32(v) => v[0].is_some(),
                Column::Int64(v) => v[0].is_some(),
                Column::Float64(v) => v[0].is_some(),
                Column::Boolean(v) => v[0].is_some(),
                Column::TimestampMillisecondUtc(v) => v[0].is_some(),
            };
            assert_eq!(held, TYPES[i] == ty);
        }
    }
}

fn texts_of(columns: Vec<Column>) -> Vec<Vec<String>> {
    columns
        .iter()
        .map(|column| match column {
            Column::Utf8(v) => v.iter().map(|x| format!("{x:?}")).collect(),
            Column::Int32(v) => v.iter().map(|x| format!("{x:?}")).collect(),
            Column::Int64(v) => v.iter().map(|x| format!("{x:?}")).collect(),
            Column::Float64(v) => v.iter().map(|x| format!("{x:?}")).collect(),
            Column::Boolean(v) => v.iter().map(|x| format!("{x:?}")).collect(),
            Column::TimestampMillisecondUtc(v) => v.iter().map(|x| format!("{x:?}")).collect(),
        })
        .collect()
}

#[test]
fn columns_do_not_depend_on_the_batches() {
    let sink = ParquetSink::new(&names(), &TYPES, ParquetCompression::Snappy);
    let records: Vec<Vec<TypedValue>> = (0..7)
        .map(|i| {
            let mut record = full_record();
            record[1] = TypedValue::Int32(i);
            record[4] = if i % 2 == 0 { TypedValue::Null } else { TypedValue::Bool(true) };
            record
        })
        .collect();
    let whole = texts_of(sink.write_records(&records).unwrap());
    for size in 1..7 {
        let mut parts: Vec<Vec<String>> = vec![vec![]; 6];
        for batch in records.chunks(size) {
            let columns = texts_of(sink.write_records(batch).unwrap());
            for (part, mut column) in parts.iter_mut().zip(columns) {
                part.append(&mut column);
            }
        }
        assert_eq!(parts, whole);
    }
}

#[test]
fn empty_batches_give_no_columns() {
    let sink = ParquetSink::new(&names(), &TYPES, ParquetCompression::Snappy);
    assert!(sink.write_records(&[]).is_none());
    let bare = ParquetSink::new(&[], &[], ParquetCompression::Snappy);
    assert_eq!(bare.write_records(&[vec![]]).unwrap().len(), 0);
    let mut closed = ParquetSink::new(&[], &[], ParquetCompression::Snappy);
    assert!(closed.finish());
    closed.closed();
    assert_eq!(closed.write_records(&[vec![]]).unwrap().len(), 0);
}

#[test]
fn the_writer_is_closed_once() {
    let mut sink = ParquetSink::new(&names(), &TYPES, ParquetCompression::Snappy);
    assert!(sink.finish());
    sink.closed();
    assert!(!sink.finish());
    let mut failed = ParquetSink::new(&names(), &TYPES, ParquetCompression::Snappy);
    assert!(failed.finish());
    assert!(!failed.finish());
    assert!(!failed.finish());
}
