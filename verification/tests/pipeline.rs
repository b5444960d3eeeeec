use bson::{Bson, Document};
use bson2csv::csv_sink::CsvSink;
use bson2csv::filter::{load_filter_set, parse_filter};
use bson2csv::frame::{DocumentReader, ReadState};
use bson2csv::pipeline::{Batcher, Progress};
use bson2csv::record::process_chunk;

fn document(n: i32) -> Document {
    let mut doc = Document::new();
    doc.insert("n", n);
    doc
}

fn batches(count: i32, size: usize) -> Vec<Vec<Document>> {
    let mut batcher = Batcher::new(size);
    let mut out = Vec::new();
    for n in 0..count {
        if let Some(batch) = batcher.push(document(n)) {
            out.push(batch);
        }
    }
    if let Some(batch) = batcher.finish() {
        out.push(batch);
    }
    out
}

#[test]
fn batches_keep_every_document() {
    for size in [0, 1, 2, 3, 5, 10, 11] {
        for count in [0, 1, 4, 10] {
            let all = batches(count, size);
            let joined: Vec<Document> = all.iter().flatten().cloned().collect();
            let expected: Vec<Document> = (0..count).map(document).collect();
            assert_eq!(joined, expected);
            let full = size.max(1);
            for (i, batch) in all.iter().enumerate() {
                assert!(!batch.is_empty());
                assert!(batch.len() == full || (i + 1 == all.len() && batch.len() < full));
            }
        }
    }
}

#[test]
fn progress_is_reported_every_so_many_documents() {
    let mut progress = Progress::new(100);
    assert_eq!(progress.add_batch(60, 10), None);
    assert_eq!(progress.add_batch(60, 20), Some("Processed 120 documents, kept 30".to_string()));
    assert_eq!(progress.add_batch(60, 0), None);
    assert_eq!(progress.add_batch(40, 0), Some("Processed 220 documents, kept 30".to_string()));
    assert_eq!(progress.add_batch(500, 1), Some("Processed 720 documents, kept 31".to_string()));
    assert_eq!(progress.summary(), "Done. Total: 720 documents, kept: 31");
}

#[test]
fn progress_can_be_silent() {
    let mut progress = Progress::new(0);
    assert_eq!(progress.add_batch(0, 0), None);
    assert_eq!(progress.add_batch(1_000_000, 1), None);
    assert_eq!(progress.summary(), "Done. Total: 1000000 documents, kept: 1");
}

fn sample(i: i64) -> Document {
    let mut user = Document::new();
    user.insert("name", format!("user_{i}"));
    user.insert("age", 20 + (i % 50) as i32);
    let mut doc = Document::new();
    doc.insert("_id", i);
    doc.insert("status", if i % 3 == 0 { "active" } else { "inactive" });
    doc.insert("user", user);
    doc.insert("tags", Bson::Array(vec![Bson::from("a"), Bson::from("b"), Bson::from("c")]));
    doc
}

/// Converts a dump in batches of the given size, with reads of the given size.
fn convert(dump: &[u8], chunk_size: usize, most: usize, ids: &[&str]) -> (String, String) {
    let fields: Vec<String> =
        ["_id", "user.name", "tags.1", "tags"].iter().map(|s| s.to_string()).collect();
    let filter = Some(parse_filter("status=active").unwrap());
    let lines: Vec<String> = ids.iter().map(|s| s.to_string()).collect();
    let sets = [("_id".to_string(), load_filter_set(&lines))];
    let mut csv = CsvSink::new(&fields, ',', false);
    let mut progress = Progress::new(0);
    let mut reader = DocumentReader::new();
    let mut batcher = Batcher::new(chunk_size);
    let mut output = csv.take_output();
    let mut at = 0;
    let mut last = false;
    while !last {
        let n = reader.wanted().min(most).min(dump.len() - at);
        let state = reader.read_next_document(&dump[at..at + n]).unwrap();
        at += n;
        let batch = match state {
            ReadState::More => None,
            ReadState::Document(doc) => batcher.push(doc),
            ReadState::Eof => {
                last = true;
                None
            }
        };
        if let Some(batch) = batch {
            let chunk = process_chunk(&batch, &fields, &filter, &sets);
            csv.write_rows(&chunk.records).unwrap();
            progress.add_batch(chunk.total, chunk.records.len() as u64);
            output.append(&mut csv.take_output());
        }
    }
    if let Some(batch) = batcher.finish() {
        let chunk = process_chunk(&batch, &fields, &filter, &sets);
        csv.write_rows(&chunk.records).unwrap();
        progress.add_batch(chunk.total, chunk.records.len() as u64);
        output.append(&mut csv.take_output());
    }
    (String::from_utf8(output).unwrap(), progress.summary())
}

#[test]
fn a_dump_is_converted() {
    let mut dump = Vec::new();
    for i in 0..100 {
        dump.extend(bson::to_vec(&sample(i)).unwrap());
    }
    let ids = ["3", " 9 ", "", "10", "99", "1000"];
    let expected = "_id,user.name,tags.1,tags\n\
                    3,user_3,b,\"[\"\"a\"\", \"\"b\"\", \"\"c\"\"]\"\n\
                    9,user_9,b,\"[\"\"a\"\", \"\"b\"\", \"\"c\"\"]\"\n\
                    99,user_99,b,\"[\"\"a\"\", \"\"b\"\", \"\"c\"\"]\"\n";
    for (chunk_size, most) in [(1, 1), (7, 5), (100, 4096), (10_000, usize::MAX)] {
        let (output, summary) = convert(&dump, chunk_size, most, &ids);
        assert_eq!(output, expected);
        assert_eq!(summary, "Done. Total: 100 documents, kept: 3");
    }
}
