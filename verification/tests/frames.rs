use bson::Document;
use bson2csv::document::encode_document;
use bson2csv::frame::{DocumentReader, FrameFault, FrameStep, ReadError, ReadState};

fn document(n: i32) -> Document {
    let mut doc = Document::new();
    doc.insert("n", n);
    doc.insert("text", "x".repeat(n as usize));
    doc
}

fn dump(count: i32) -> Vec<u8> {
    let mut bytes = Vec::new();
    for n in 0..count {
        bytes.extend(encode_document(&document(n)).unwrap());
    }
    bytes
}

/// Reads a stream in reads of at most `most` bytes.
fn read(stream: &[u8], most: usize) -> (Vec<Document>, Option<String>) {
    let mut reader = DocumentReader::new();
    let mut documents = Vec::new();
    let mut at = 0;
    loop {
        let n = reader.wanted().min(most).min(stream.len() - at);
        let state = reader.read_next_document(&stream[at..at + n]);
        at += n;
        match state {
            Ok(ReadState::More) => {}
            Ok(ReadState::Document(d)) => documents.push(d),
            Ok(ReadState::Eof) => return (documents, None),
            Err(e) => return (documents, Some(e.message())),
        }
    }
}

#[test]
fn written_documents_are_read_back() {
    let stream = dump(20);
    let expected: Vec<Document> = (0..20).map(document).collect();
    for most in [1, 2, 3, 7, 64, usize::MAX] {
        assert_eq!(read(&stream, most), (expected.clone(), None));
    }
    assert_eq!(read(&[], 16), (vec![], None));
}

#[test]
fn truncated_streams_are_refused() {
    let stream = dump(3);
    let last = bson::to_vec(&document(2)).unwrap().len();
    for cut in 1..last {
        let end = stream.len() - cut;
        let (documents, error) = read(&stream[..end], 5);
        assert_eq!(documents.len(), 2);
        let expected = if last - cut < 4 {
            "Unexpected EOF in the middle of BSON size prefix"
        } else {
            "Unexpected EOF while reading BSON document body"
        };
        assert_eq!(error.as_deref(), Some(expected));
    }
    assert_eq!(read(&stream[..stream.len() - last], 5).1, None);
}

#[test]
fn lengths_below_the_smallest_document_are_refused() {
    for n in [4i32, 0, -1, i32::MIN] {
        let (documents, error) = read(&n.to_le_bytes(), 4);
        assert!(documents.is_empty());
        assert_eq!(error, Some(format!("Invalid BSON document length: {n}")));
    }
    let mut reader = DocumentReader::new();
    match reader.read_next_document(&[4, 0, 0, 0]) {
        Err(ReadError::Frame(FrameFault::InvalidLength(4))) => {}
        other => panic!("{other:?}"),
    }
}

#[test]
fn malformed_documents_are_refused() {
    let (documents, error) = read(&[6, 0, 0, 0, 0x7e, 0], 4);
    assert!(documents.is_empty());
    assert_eq!(error.as_deref(), Some("Failed to parse BSON document"));
}

#[test]
fn the_smallest_document_is_read() {
    assert_eq!(read(&[5, 0, 0, 0, 0], 1), (vec![Document::new()], None));
}

#[test]
fn the_reader_says_what_it_wants() {
    let mut reader = DocumentReader::new();
    assert_eq!(reader.wanted(), 4);
    assert!(matches!(reader.advance(&[9, 0]), FrameStep::More));
    assert_eq!(reader.wanted(), 2);
    assert!(matches!(reader.advance(&[0, 0]), FrameStep::More));
    assert_eq!(reader.wanted(), 5);
    assert!(matches!(reader.advance(&[1, 2, 3]), FrameStep::More));
    assert_eq!(reader.wanted(), 2);
    match reader.advance(&[4, 5]) {
        FrameStep::Document(bytes) => assert_eq!(bytes, vec![9, 0, 0, 0, 1, 2, 3, 4, 5]),
        other => panic!("{other:?}"),
    }
    assert_eq!(reader.wanted(), 4);
    assert!(matches!(reader.advance(&[]), FrameStep::End));
}
