use bson2csv::rotating_sink::{upload_command, Action, Event, RotatingSink};

#[derive(Debug, Default, PartialEq)]
struct Log {
    /// The name of each chunk file and the rows in it.
    chunks: Vec<(String, Vec<usize>)>,
    commands: Vec<String>,
    removed: Vec<String>,
}

/// Carries out a call whose records are the rows from `base` on.
fn carry_out(sink: &mut RotatingSink, first: Action, base: usize, log: &mut Log) {
    let mut action = first;
    loop {
        let event = match action {
            Action::Done => return,
            Action::Open { name } => {
                log.chunks.push((name.clone(), vec![]));
                Event::Opened(format!("out/{name}"))
            }
            Action::Write { start, end } => {
                log.chunks.last_mut().unwrap().1.extend(base + start..base + end);
                Event::Written
            }
            Action::Close => Event::Closed,
            Action::Upload { command } => {
                log.commands.push(command);
                Event::Uploaded
            }
            Action::Remove { path } => {
                log.removed.push(path);
                Event::Removed
            }
        };
        action = sink.resume(event);
    }
}

fn write(sink: &mut RotatingSink, total: usize, base: usize, log: &mut Log) {
    let first = sink.write_records(total);
    carry_out(sink, first, base, log);
}

fn finish(sink: &mut RotatingSink, log: &mut Log) {
    let first = sink.finish();
    carry_out(sink, first, 0, log);
}

#[test]
fn rows_fill_the_chunks_in_order() {
    for max in [1u64, 2, 3, 4, 7, 100, u64::MAX] {
        for batches in [vec![10], vec![1, 2, 3, 4], vec![3, 0, 4, 3], vec![0]] {
            let mut sink = RotatingSink::new(Some("dump.csv"), "csv", max, None, false);
            let mut log = Log::default();
            let mut base = 0;
            for n in batches {
                write(&mut sink, n, base, &mut log);
                base += n;
            }
            finish(&mut sink, &mut log);
            let mut expected: Vec<(String, Vec<usize>)> = Vec::new();
            for row in 0..base {
                let chunk = row as u64 / max;
                if row as u64 % max == 0 {
                    expected.push((format!("dump-{chunk:05}.csv"), vec![]));
                }
                expected.last_mut().unwrap().1.push(row);
            }
            assert_eq!(log.chunks, expected);
            assert_eq!(sink.chunk_index(), expected.len() as u64);
            assert!(log.commands.is_empty());
            assert!(log.removed.is_empty());
        }
    }
}

#[test]
fn closed_chunks_are_uploaded_and_removed() {
    let command = Some("put {file} --part {index}".to_string());
    let mut sink = RotatingSink::new(Some("p"), "parquet", 2, command.clone(), true);
    let mut log = Log::default();
    write(&mut sink, 3, 0, &mut log);
    assert_eq!(log.commands, vec!["put out/p-00000.parquet --part 00000"]);
    assert_eq!(log.removed, vec!["out/p-00000.parquet"]);
    finish(&mut sink, &mut log);
    assert_eq!(
        log.commands,
        vec!["put out/p-00000.parquet --part 00000", "put out/p-00001.parquet --part 00001"]
    );
    assert_eq!(log.removed, vec!["out/p-00000.parquet", "out/p-00001.parquet"]);
    let mut kept = RotatingSink::new(Some("p"), "parquet", 2, command, false);
    let mut log = Log::default();
    write(&mut kept, 4, 0, &mut log);
    assert_eq!(log.commands.len(), 2);
    assert!(log.removed.is_empty());
    let mut silent = RotatingSink::new(Some("p"), "parquet", 2, None, true);
    let mut log = Log::default();
    write(&mut silent, 4, 0, &mut log);
    assert!(log.commands.is_empty());
    assert!(log.removed.is_empty());
}

#[test]
fn names_are_made_of_the_stem() {
    let stems = [
        (Some("out.csv"), "out"),
        (Some("out"), "out"),
        (Some("a.b.csv"), "a.b"),
        (Some(".hidden"), ".hidden"),
        (Some(".hidden.csv"), ".hidden"),
        (Some("out."), "out"),
        (Some(".."), ".."),
        (Some("é.x"), "é"),
        (None, "part"),
    ];
    for (name, stem) in stems {
        let sink = RotatingSink::new(name, "csv", 1, None, false);
        assert_eq!(sink.chunk_file_name(7), format!("{stem}-00007.csv"));
        assert_eq!(sink.chunk_file_name(123456), format!("{stem}-123456.csv"));
        if let Some(name) = name {
            if name != ".." {
                let std = std::path::Path::new(name).file_stem().unwrap().to_str().unwrap();
                assert_eq!(stem, std);
            }
        }
    }
}

#[test]
fn names_of_chunks_differ() {
    let sink = RotatingSink::new(Some("x"), "csv", 1, None, false);
    let mut names: Vec<String> = (0..2000).map(|i| sink.chunk_file_name(i * 77)).collect();
    names.sort();
    names.dedup();
    assert_eq!(names.len(), 2000);
}

#[test]
fn names_of_chunks_sort_in_their_order() {
    let sink = RotatingSink::new(Some("x"), "csv", 1, None, false);
    let names: Vec<String> = (0..=99999).map(|i| sink.chunk_file_name(i)).collect();
    assert!(names.windows(2).all(|w| w[0] < w[1]));
    assert!(sink.chunk_file_name(100000) < sink.chunk_file_name(99999));
}

#[test]
fn a_call_under_way_is_not_idle() {
    let mut sink = RotatingSink::new(Some("x"), "csv", 1, None, false);
    assert!(sink.is_idle());
    sink.write_records(1);
    assert!(!sink.is_idle());
    sink.resume(Event::Failed);
    assert!(sink.is_idle());
}

#[test]
fn an_empty_batch_opens_nothing() {
    let mut sink = RotatingSink::new(Some("x"), "csv", 3, None, false);
    assert_eq!(sink.write_records(0), Action::Done);
    assert_eq!(sink.finish(), Action::Done);
    assert_eq!(sink.finish(), Action::Done);
    assert_eq!(sink.chunk_index(), 0);
}

#[test]
fn failures_end_the_call_and_keep_the_index() {
    let open = |index: u64| Action::Open { name: format!("x-{index:05}.csv") };
    let mut sink = RotatingSink::new(Some("x"), "csv", 2, Some("c".to_string()), true);
    assert_eq!(sink.write_records(2), open(0));
    assert_eq!(sink.resume(Event::Failed), Action::Done);
    assert_eq!(sink.write_records(3), open(0));
    assert_eq!(sink.resume(Event::Opened("x".to_string())), Action::Write { start: 0, end: 2 });
    assert_eq!(sink.resume(Event::Failed), Action::Done);
    assert_eq!(sink.current_rows(), 0);
    assert_eq!(sink.write_records(3), Action::Write { start: 0, end: 2 });
    assert_eq!(sink.resume(Event::Written), Action::Close);
    assert_eq!(sink.current_rows(), 2);
    assert_eq!(sink.resume(Event::Failed), Action::Done);
    assert_eq!(sink.write_records(2), open(0));
    assert_eq!(sink.resume(Event::Opened("x".to_string())), Action::Write { start: 0, end: 2 });
    assert_eq!(sink.resume(Event::Written), Action::Close);
    assert_eq!(sink.resume(Event::Closed), Action::Upload { command: "c".to_string() });
    assert_eq!(sink.resume(Event::Failed), Action::Done);
    assert_eq!(sink.write_records(2), open(0));
    assert_eq!(sink.resume(Event::Opened("x".to_string())), Action::Write { start: 0, end: 2 });
    assert_eq!(sink.resume(Event::Written), Action::Close);
    assert_eq!(sink.resume(Event::Closed), Action::Upload { command: "c".to_string() });
    assert!(!sink.completes_chunk(&Event::Uploaded));
    assert_eq!(sink.resume(Event::Uploaded), Action::Remove { path: "x".to_string() });
    assert!(sink.completes_chunk(&Event::Removed));
    assert_eq!(sink.resume(Event::Failed), Action::Done);
    assert_eq!(sink.chunk_index(), 0);
    assert_eq!(sink.finish(), Action::Done);
}

#[test]
fn a_failed_finish_can_be_repeated() {
    let mut sink = RotatingSink::new(Some("x"), "csv", 5, None, false);
    let mut log = Log::default();
    write(&mut sink, 3, 0, &mut log);
    assert_eq!(sink.finish(), Action::Close);
    assert_eq!(sink.resume(Event::Failed), Action::Done);
    assert_eq!(sink.finish(), Action::Done);
    assert_eq!(sink.chunk_index(), 0);
}

#[test]
fn chunks_without_room_are_rotated_before_writing() {
    let mut sink = RotatingSink::new(Some("x"), "csv", 0, None, false);
    assert_eq!(sink.write_records(1), Action::Open { name: "x-00000.csv".to_string() });
    assert_eq!(sink.resume(Event::Opened("x".to_string())), Action::Close);
    assert_eq!(sink.resume(Event::Closed), Action::Open { name: "x-00001.csv".to_string() });
}

#[test]
fn calls_open_the_next_chunks() {
    let mut sink = RotatingSink::new(Some("x"), "csv", 3, None, false);
    let count = |n: usize| n.div_ceil(3);
    let mut rows = 0;
    for total in [1, 0, 2, 4, 1, 9, 1, 2] {
        let mut log = Log::default();
        log.chunks.push((String::new(), vec![]));
        write(&mut sink, total, rows, &mut log);
        let opened: Vec<String> = log.chunks.iter().skip(1).map(|c| c.0.clone()).collect();
        let expected: Vec<String> =
            (count(rows)..count(rows + total)).map(|i| format!("x-{i:05}.csv")).collect();
        assert_eq!(opened, expected);
        rows += total;
    }
}

#[test]
fn placeholders_are_substituted() {
    let cases = [
        ("cp {file} b/{index}", "a.csv", 7, "cp a.csv b/00007"),
        ("{file}{file}{index}", "x", 123456, "xx123456"),
        ("nothing", "x", 0, "nothing"),
        ("{file}", "{index}", 1, "00001"),
        ("{ file } {index", "x", 1, "{ file } {index"),
        ("", "x", 1, ""),
    ];
    for (template, path, index, command) in cases {
        assert_eq!(upload_command(template, path, index), command);
    }
}
