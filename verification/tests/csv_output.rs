use bson2csv::csv_sink::{CsvError, CsvSink};
use bson2csv::value::TypedValue;

fn strings(texts: &[&str]) -> Vec<String> {
    texts.iter().map(|s| s.to_string()).collect()
}

fn output(sink: &mut CsvSink) -> String {
    String::from_utf8(sink.take_output()).unwrap()
}

#[test]
fn rows_follow_the_header() {
    let mut sink = CsvSink::new(&strings(&["_id", "user.name"]), ',', false);
    sink.write_rows(&[strings(&["1", "alice"]), strings(&["2", "bob"])]).unwrap();
    assert_eq!(output(&mut sink), "_id,user.name\n1,alice\n2,bob\n");
    sink.write_rows(&[strings(&["3", ""])]).unwrap();
    assert_eq!(output(&mut sink), "3,\n");
    assert_eq!(output(&mut sink), "");
}

#[test]
fn the_header_can_be_left_out() {
    let mut sink = CsvSink::new(&strings(&["a", "b"]), '\t', true);
    assert_eq!(output(&mut sink), "");
    sink.write_rows(&[strings(&["x,y", "z"])]).unwrap();
    assert_eq!(output(&mut sink), "x,y\tz\n");
}

#[test]
fn cells_are_quoted_where_they_need_it() {
    let mut sink = CsvSink::new(&[], ';', true);
    sink.write_rows(&[strings(&["a;b", "say \"hi\"", "two\nlines", "cr\r", "a,b", "é"])]).unwrap();
    let expected = "\"a;b\";\"say \"\"hi\"\"\";\"two\nlines\";\"cr\r\";a,b;é\n";
    assert_eq!(output(&mut sink), expected);
    let mut sink = CsvSink::new(&[], ';', true);
    sink.write_rows(&[strings(&[""]), strings(&["\""])]).unwrap();
    assert_eq!(output(&mut sink), "\"\"\n\"\"\"\"\n");
    let mut sink = CsvSink::new(&[], ';', true);
    sink.write_rows(&[vec![], vec![]]).unwrap();
    assert_eq!(output(&mut sink), "\"\"\n\"\"\n");
}

#[test]
fn output_is_that_of_one_csv_writer_and_is_read_back() {
    let rows = vec![
        strings(&["id", "text", "more"]),
        strings(&["1", "plain", ""]),
        strings(&["", "", ""]),
        strings(&["\"", "\"\"", "a\"b"]),
        strings(&["a,b", "c\r\nd", "|"]),
        strings(&["ü€😀", " space ", "\t"]),
        strings(&[&"\"".repeat(9000), &"x".repeat(20000), "end"]),
    ];
    for delimiter in [',', ';', '\t', '|', ' '] {
        let mut sink = CsvSink::new(&rows[0], delimiter, false);
        sink.write_rows(&rows[1..4]).unwrap();
        sink.write_rows(&rows[4..]).unwrap();
        let bytes = sink.take_output();

        let mut writer = csv::WriterBuilder::new().delimiter(delimiter as u8).from_writer(Vec::new());
        for row in &rows {
            writer.write_record(row).unwrap();
        }
        assert_eq!(bytes, writer.into_inner().unwrap());

        let mut reader = csv::ReaderBuilder::new()
            .delimiter(delimiter as u8)
            .has_headers(false)
            .from_reader(bytes.as_slice());
        let again: Vec<Vec<String>> = reader
            .records()
            .map(|r| r.unwrap().iter().map(|s| s.to_string()).collect())
            .collect();
        assert_eq!(again, rows);
    }
}

/// A line by the rule: cells with a special byte are quoted, and an empty line is a pair
/// of quotes.
fn line(row: &[String], delimiter: u8) -> Vec<u8> {
    let mut bytes = Vec::new();
    for (i, cell) in row.iter().enumerate() {
        if i > 0 {
            bytes.push(delimiter);
        }
        let special = [delimiter, b'"', b'\n', b'\r'];
        if cell.bytes().any(|b| special.contains(&b)) {
            bytes.push(b'"');
            for b in cell.bytes() {
                if b == b'"' {
                    bytes.push(b'"');
                }
                bytes.push(b);
            }
            bytes.push(b'"');
        } else {
            bytes.extend(cell.bytes());
        }
    }
    if bytes.is_empty() {
        bytes.extend(b"\"\"");
    }
    bytes.push(b'\n');
    bytes
}

#[test]
fn lines_follow_the_quoting_rule_for_every_delimiter() {
    let rows = [
        strings(&[]),
        strings(&[""]),
        strings(&["", ""]),
        strings(&["plain", "a,b", "say \"hi\"", "\"", "two\nlines", "cr\r", "\r\n"]),
        strings(&["ü", "€", "\u{80}\u{ff}", "\u{0}", " ", "\t", "x\"y\"z"]),
    ];
    for delimiter in 0..=255u8 {
        for row in &rows {
            let mut sink = CsvSink::new(&[], delimiter as char, true);
            sink.write_rows(&[row.clone()]).unwrap();
            assert_eq!(sink.take_output(), line(row, delimiter), "{delimiter}");
        }
    }
}

#[test]
fn the_delimiter_is_the_low_byte_of_the_character() {
    let mut sink = CsvSink::new(&[], '\u{12c}', true);
    sink.write_rows(&[strings(&["a", "b,c"])]).unwrap();
    assert_eq!(output(&mut sink), "a,\"b,c\"\n");
    let mut sink = CsvSink::new(&[], 'é', true);
    sink.write_rows(&[strings(&["a", "b"])]).unwrap();
    assert_eq!(sink.take_output(), vec![b'a', 0xe9, b'b', b'\n']);
}

#[test]
fn rows_of_another_length_are_refused() {
    let mut sink = CsvSink::new(&strings(&["a", "b"]), ',', false);
    let error = sink.write_rows(&[strings(&["1", "2"]), strings(&["3"]), strings(&["4", "5"])]);
    assert_eq!(error, Err(CsvError::UnequalLengths { expected: 2, len: 1 }));
    assert_eq!(output(&mut sink), "a,b\n1,2\n3");
    assert_eq!(
        error.unwrap_err().message(),
        "CSV error: found record with 1 fields, but the previous record has 2 fields"
    );
    let mut writer = csv::WriterBuilder::new().from_writer(Vec::new());
    writer.write_record(["a", "b"]).unwrap();
    let outside = writer.write_record(["3"]).unwrap_err();
    assert_eq!(error.unwrap_err().message(), outside.to_string());
    let mut sink = CsvSink::new(&strings(&["a", "b"]), ',', true);
    sink.write_rows(&[strings(&["1"]), strings(&["2"])]).unwrap();
    assert_eq!(output(&mut sink), "1\n2\n");
}

#[test]
fn refused_rows_are_gone_on_from() {
    let mut sink = CsvSink::new(&strings(&["a", "b", "c"]), ',', false);
    assert!(sink.write_rows(&[strings(&["x,y"])]).is_err());
    assert_eq!(output(&mut sink), "a,b,c\n\"x,y");
    sink.write_rows(&[strings(&["1", "2"]), strings(&["3", "4", "5"])]).unwrap();
    assert_eq!(output(&mut sink), "\",1,2\n3,4,5\n");
}

#[test]
fn rows_of_any_length_give_the_output_of_one_csv_writer() {
    let cells = ["", "x", "a,b", "\"", "line\n", "ü", "\r"];
    let mut seed: u64 = 1;
    let mut next = |n: u64| {
        seed = seed.wrapping_mul(6364136223846793005).wrapping_add(1442695040888963407);
        (seed >> 33) % n
    };
    for round in 0..300 {
        let width = round % 4;
        let header: Vec<String> = (0..width).map(|i| format!("f{i}")).collect();
        let no_header = next(2) == 0;
        let mut sink = CsvSink::new(&header, ',', no_header);
        let mut writer = csv::WriterBuilder::new().from_writer(Vec::new());
        if !no_header {
            writer.write_record(&header).unwrap();
        }
        let mut bytes = Vec::new();
        for _ in 0..12 {
            let len = if next(2) == 0 { width } else { next(5) };
            let row: Vec<String> =
                (0..len).map(|_| cells[next(cells.len() as u64) as usize].to_string()).collect();
            let ours = sink.write_rows(&[row.clone()]).map_err(|e| e.message());
            let theirs = writer.write_record(&row).map_err(|e| e.to_string());
            assert_eq!(ours, theirs);
            if next(3) == 0 {
                bytes.append(&mut sink.take_output());
            }
        }
        bytes.append(&mut sink.take_output());
        assert_eq!(bytes, writer.into_inner().unwrap());
    }
}

#[test]
fn typed_records_are_rendered() {
    let mut sink = CsvSink::new(&strings(&["a", "b", "c", "d", "e", "f"]), ',', false);
    let record = vec![
        TypedValue::Null,
        TypedValue::String("x,y".to_string()),
        TypedValue::Int32(-1),
        TypedValue::Double(0.5f64.to_bits()),
        TypedValue::Bool(false),
        TypedValue::TimestampMs(0),
    ];
    sink.write_records(&[record]).unwrap();
    assert_eq!(output(&mut sink), "a,b,c,d,e,f\n,\"x,y\",-1,0.5,false,1970-01-01T00:00:00Z\n");
    let error = sink.write_records(&[vec![TypedValue::Int64(1)]]).unwrap_err();
    assert_eq!(error, CsvError::UnequalLengths { expected: 6, len: 1 });
}

#[test]
fn a_sink_is_flushed_once() {
    let mut sink = CsvSink::new(&[], ',', true);
    assert!(sink.finish());
    assert!(sink.finish());
    sink.flushed();
    assert!(!sink.finish());
}
