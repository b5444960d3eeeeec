//! CSV output: the bytes of rows, and the rule that all rows have the same length.

use crate::text::{integer_text, row_texts, texts, unsigned_to_text};
use crate::value::{cells, rows, TypedValue, TypedValueView};
use vstd::prelude::*;
use vstd::utf8::encode_utf8;

verus! {

/// The byte of a double quote.
pub const QUOTE: u8 = 0x22;

/// The byte of a line feed, which ends a row.
pub const LINE_FEED: u8 = 0x0a;

/// Whether a cell with this byte has to be quoted.
pub open spec fn is_special(b: u8, delimiter: u8) -> bool {
    b == delimiter || b == QUOTE || b == LINE_FEED || b == 0x0d
}

/// Whether a cell has to be quoted.
pub open spec fn needs_quotes(cell: Seq<u8>, delimiter: u8) -> bool {
    exists|i: int| 0 <= i < cell.len() && is_special(#[trigger] cell[i], delimiter)
}

/// The bytes with each double quote twice.
pub open spec fn doubled(bytes: Seq<u8>) -> Seq<u8>
    decreases bytes.len(),
{
    if bytes.len() == 0 {
        Seq::empty()
    } else if bytes[0] == QUOTE {
        seq![QUOTE, QUOTE] + doubled(bytes.drop_first())
    } else {
        seq![bytes[0]] + doubled(bytes.drop_first())
    }
}

/// A cell in a row: in double quotes where it needs them.
pub open spec fn csv_cell(cell: Seq<u8>, delimiter: u8) -> Seq<u8> {
    if needs_quotes(cell, delimiter) {
        seq![QUOTE] + doubled(cell) + seq![QUOTE]
    } else {
        cell
    }
}

/// The cells of a row, with the delimiter between them.
pub open spec fn csv_cells(row: Seq<Seq<u8>>, delimiter: u8) -> Seq<u8>
    decreases row.len(),
{
    if row.len() == 0 {
        Seq::empty()
    } else if row.len() == 1 {
        csv_cell(row[0], delimiter)
    } else {
        csv_cell(row[0], delimiter) + seq![delimiter] + csv_cells(row.drop_first(), delimiter)
    }
}

/// A row with its line feed. A row that would have no bytes is a pair of double quotes.
pub open spec fn csv_line(row: Seq<Seq<u8>>, delimiter: u8) -> Seq<u8> {
    let bytes = csv_cells(row, delimiter);
    if bytes.len() == 0 {
        seq![QUOTE, QUOTE, LINE_FEED]
    } else {
        bytes + seq![LINE_FEED]
    }
}

/// The cells of a row to which more may be added: without the double quote that would
/// close the last one.
pub open spec fn csv_unfinished(row: Seq<Seq<u8>>, delimiter: u8) -> Seq<u8> {
    let bytes = csv_cells(row, delimiter);
    if row.len() > 0 && needs_quotes(row.last(), delimiter) {
        bytes.drop_last()
    } else {
        bytes
    }
}

/// The texts of a row in UTF-8.
pub open spec fn encoded(row: Seq<Seq<char>>) -> Seq<Seq<u8>> {
    row.map_values(|cell: Seq<char>| encode_utf8(cell))
}

/// `csv::Writer::write_record` on a new writer with the given delimiter, into memory: the
/// row with its line feed, where the cells that hold the delimiter, a double quote or a
/// line break are quoted, with each double quote in them twice. A row that would have no
/// bytes is a pair of double quotes.
#[verifier::external_body]
fn encode_record(row: &Vec<String>, delimiter: u8) -> (r: Vec<u8>)
    ensures
        r@ == csv_line(encoded(texts(row@)), delimiter),
{
    let mut writer = csv::WriterBuilder::new().delimiter(delimiter).from_writer(Vec::new());
    writer.write_record(row).unwrap();
    writer.into_inner().unwrap()
}

/// Why a row was not written.
#[derive(Copy, Clone, Debug, PartialEq, Eq, Structural)]
pub enum CsvError {
    /// The row has another number of cells than the first one.
    UnequalLengths { expected: usize, len: usize },
}

impl CsvError {
    /// The reason in words.
    pub open spec fn text(self) -> Seq<char> {
        match self {
            CsvError::UnequalLengths { expected, len } => "CSV error: found record with "@
                + integer_text(len as int) + " fields, but the previous record has "@
                + integer_text(expected as int) + " fields"@,
        }
    }

    /// The reason in words.
    pub fn message(&self) -> (r: String)
        ensures
            r@ == self.text(),
    {
        match self {
            CsvError::UnequalLengths { expected, len } => {
                let found = unsigned_to_text(*len as u64);
                let wanted = unsigned_to_text(*expected as u64);
                "CSV error: found record with ".to_owned().concat(found.as_str()).concat(
                    " fields, but the previous record has ",
                ).concat(wanted.as_str()).concat(" fields")
            },
        }
    }
}

/// The state of a `CsvSink`.
#[verifier::ext_equal]
pub struct CsvSinkView {
    pub delimiter: u8,
    /// The number of cells of the first row, if there was one.
    pub field_count: Option<usize>,
    /// The cells of the rows that were refused since the last row that was written. They
    /// are in the output, and the next row goes on from them.
    pub partial: Seq<Seq<char>>,
    /// The bytes that were not taken yet.
    pub output: Seq<u8>,
    pub finished: bool,
}

impl CsvSinkView {
    /// The state at the start: with the low byte of the character as the delimiter, and
    /// with the header row in the output, unless there is to be none.
    pub open spec fn opened(
        fields: Seq<Seq<char>>,
        delimiter: char,
        no_header: bool,
    ) -> CsvSinkView {
        CsvSinkView {
            delimiter: (delimiter as u32 % 0x100) as u8,
            field_count: if no_header {
                None
            } else {
                Some(fields.len() as usize)
            },
            partial: Seq::empty(),
            output: if no_header {
                Seq::empty()
            } else {
                csv_line(encoded(fields), (delimiter as u32 % 0x100) as u8)
            },
            finished: false,
        }
    }

    /// The bytes that were not taken yet, and the state when they are.
    pub open spec fn taken(self) -> (Seq<u8>, CsvSinkView) {
        (self.output, CsvSinkView { output: Seq::empty(), ..self })
    }

    /// Whether the output has still to be flushed.
    pub open spec fn is_unfinished(self) -> bool {
        !self.finished
    }

    /// The state when the output was flushed.
    pub open spec fn closed_off(self) -> CsvSinkView {
        CsvSinkView { finished: true, ..self }
    }

    /// The state after a row, and what is wrong with the row, if anything. A row that is
    /// refused for its number of cells leaves its cells in the output.
    pub open spec fn written_row(self, row: Seq<Seq<char>>) -> (CsvSinkView, Option<CsvError>) {
        let all = self.partial + row;
        let len = all.len() as usize;
        let done = csv_unfinished(encoded(self.partial), self.delimiter).len() as int;
        match self.field_count {
            Some(expected) if expected != len => {
                let bytes = csv_unfinished(encoded(all), self.delimiter);
                (
                    CsvSinkView { partial: all, output: self.output + bytes.skip(done), ..self },
                    Some(CsvError::UnequalLengths { expected, len }),
                )
            },
            _ => {
                let bytes = csv_line(encoded(all), self.delimiter);
                (
                    CsvSinkView {
                        field_count: Some(len),
                        partial: Seq::empty(),
                        output: self.output + bytes.skip(done),
                        ..self
                    },
                    None,
                )
            },
        }
    }

    /// The state after the rows up to the first one that is refused, and what is wrong
    /// with that one.
    pub open spec fn written(self, rows: Seq<Seq<Seq<char>>>) -> (CsvSinkView, Option<CsvError>)
        decreases rows.len(),
    {
        if rows.len() == 0 {
            (self, None)
        } else {
            let (next, error) = self.written_row(rows[0]);
            if error is Some {
                (next, error)
            } else {
                next.written(rows.drop_first())
            }
        }
    }
}

/// The texts of the values of a record.
pub open spec fn csv_row(record: Seq<TypedValueView>) -> Seq<Seq<char>> {
    record.map_values(|v: TypedValueView| v.csv_text())
}

/// The texts of the values of some records.
pub open spec fn csv_rows(records: Seq<Seq<TypedValueView>>) -> Seq<Seq<Seq<char>>> {
    records.map_values(|record: Seq<TypedValueView>| csv_row(record))
}

/// Turns rows into the bytes of a CSV file.
///
/// A `csv::Writer` hands its bytes out only when it is given up, and an output may be larger
/// than memory. So each row is encoded by a writer of its own, and what spans the rows is
/// kept here: the number of cells, and the cells of refused rows.
#[derive(Debug)]
pub struct CsvSink {
    delimiter: u8,
    field_count: Option<usize>,
    partial: Vec<String>,
    output: Vec<u8>,
    finished: bool,
}

impl View for CsvSink {
    type V = CsvSinkView;

    closed spec fn view(&self) -> CsvSinkView {
        CsvSinkView {
            delimiter: self.delimiter,
            field_count: self.field_count,
            partial: texts(self.partial@),
            output: self.output@,
            finished: self.finished,
        }
    }
}

impl CsvSink {
    /// A sink with the low byte of the character as its delimiter, which has written the
    /// header row, unless there is to be none.
    pub fn new(fields: &[String], delimiter: char, no_header: bool) -> (r: CsvSink)
        ensures
            r@ == CsvSinkView::opened(texts(fields@), delimiter, no_header),
    {
        let byte: u8 = (delimiter as u32 % 0x100) as u8;
        let mut sink = CsvSink {
            delimiter: byte,
            field_count: None,
            partial: Vec::new(),
            output: Vec::new(),
            finished: false,
        };
        proof {
            assert(sink@.partial =~= Seq::empty());
        }
        if !no_header {
            let row: Vec<String> = copy_row(fields);
            sink.field_count = Some(fields.len());
            sink.output = encode_record(&row, byte);
        }
        sink
    }

    fn write_whole_record(&mut self, row: &Vec<String>) -> (r: Result<(), CsvError>)
        requires
            old(self)@.partial.len() == 0,
        ensures
            match r {
                Ok(()) => (final(self)@, None::<CsvError>) == old(self)@.written_row(texts(row@)),
                Err(e) => (final(self)@, Some(e)) == old(self)@.written_row(texts(row@)),
            },
    {
        proof {
            assert(self@.partial =~= Seq::empty());
            assert(self@.partial + texts(row@) =~= texts(row@));
            assert(csv_unfinished(encoded(self@.partial), self@.delimiter) =~= Seq::empty());
        }
        if let Some(expected) = self.field_count {
            if expected != row.len() {
                let mut bytes = unfinished(row, self.delimiter);
                proof {
                    assert(bytes@.skip(0) =~= bytes@);
                }
                self.output.append(&mut bytes);
                self.partial = copy_row(row.as_slice());
                return Err(CsvError::UnequalLengths { expected, len: row.len() });
            }
        }
        self.field_count = Some(row.len());
        let mut line = encode_record(row, self.delimiter);
        proof {
            assert(line@.skip(0) =~= line@);
        }
        self.output.append(&mut line);
        Ok(())
    }

    fn write_record(&mut self, row: &Vec<String>) -> (r: Result<(), CsvError>)
        ensures
            match r {
                Ok(()) => (final(self)@, None::<CsvError>) == old(self)@.written_row(texts(row@)),
                Err(e) => (final(self)@, Some(e)) == old(self)@.written_row(texts(row@)),
            },
    {
        if self.partial.len() == 0 {
            return self.write_whole_record(row);
        }
        let ghost before = self@;
        let mut all: Vec<String> = Vec::new();
        let done: usize = unfinished(&self.partial, self.delimiter).len();
        std::mem::swap(&mut all, &mut self.partial);
        append_row(&mut all, row);
        proof {
            assert(texts(self.partial@) =~= Seq::empty());
            assert(encoded(before.partial + texts(row@)) =~= encoded(before.partial) + encoded(
                texts(row@),
            ));
            lemma_unfinished_goes_on(
                encoded(before.partial),
                encoded(texts(row@)),
                before.delimiter,
            );
        }
        if let Some(expected) = self.field_count {
            if expected != all.len() {
                let len: usize = all.len();
                let bytes = unfinished(&all, self.delimiter);
                push_from(&mut self.output, &bytes, done);
                self.partial = all;
                return Err(CsvError::UnequalLengths { expected, len });
            }
        }
        self.field_count = Some(all.len());
        let line = encode_record(&all, self.delimiter);
        push_from(&mut self.output, &line, done);
        Ok(())
    }

    /// Writes rows of texts.
    pub fn write_rows(&mut self, rows: &[Vec<String>]) -> (r: Result<(), CsvError>)
        ensures
            match r {
                Ok(()) => (final(self)@, None::<CsvError>) == old(self)@.written(
                    row_texts(rows@),
                ),
                Err(e) => (final(self)@, Some(e)) == old(self)@.written(row_texts(rows@)),
            },
    {
        let ghost all = row_texts(rows@);
        let ghost outcome = self@.written(all);
        proof {
            assert(all.skip(0) =~= all);
        }
        let mut i: usize = 0;
        while i < rows.len()
            invariant
                i <= rows.len(),
                all == row_texts(rows@),
                outcome == old(self)@.written(all),
                self@.written(all.skip(i as int)) == outcome,
            ensures
                outcome == (self@, None::<CsvError>),
            decreases rows.len() - i,
        {
            proof {
                assert(all.skip(i as int)[0] == texts(rows@[i as int]@));
                assert(all.skip(i as int).drop_first() =~= all.skip(i + 1));
            }
            if let Err(e) = self.write_record(&rows[i]) {
                return Err(e);
            }
            i += 1;
        }
        Ok(())
    }

    /// Writes a batch of records.
    pub fn write_records(&mut self, records: &[Vec<TypedValue>]) -> (r: Result<(), CsvError>)
        ensures
            match r {
                Ok(()) => (final(self)@, None::<CsvError>) == old(self)@.written(
                    csv_rows(rows(records@)),
                ),
                Err(e) => (final(self)@, Some(e)) == old(self)@.written(
                    csv_rows(rows(records@)),
                ),
            },
    {
        let ghost all = csv_rows(rows(records@));
        let ghost outcome = self@.written(all);
        proof {
            assert(all.skip(0) =~= all);
        }
        let mut i: usize = 0;
        while i < records.len()
            invariant
                i <= records.len(),
                all == csv_rows(rows(records@)),
                outcome == old(self)@.written(all),
                self@.written(all.skip(i as int)) == outcome,
            ensures
                outcome == (self@, None::<CsvError>),
            decreases records.len() - i,
        {
            let row = record_row(&records[i]);
            proof {
                assert(all.skip(i as int)[0] == csv_row(rows(records@)[i as int]));
                assert(all.skip(i as int).drop_first() =~= all.skip(i + 1));
            }
            if let Err(e) = self.write_record(&row) {
                return Err(e);
            }
            i += 1;
        }
        Ok(())
    }

    /// Takes the bytes that were not taken yet.
    pub fn take_output(&mut self) -> (r: Vec<u8>)
        ensures
            (r@, final(self)@) == old(self)@.taken(),
    {
        let mut output: Vec<u8> = Vec::new();
        std::mem::swap(&mut output, &mut self.output);
        output
    }

    /// Whether the output has still to be flushed to finish the sink; `flushed` is to be
    /// called when that has succeeded.
    pub fn finish(&self) -> (r: bool)
        ensures
            r == self@.is_unfinished(),
    {
        !self.finished
    }

    /// Takes note that the output was flushed.
    pub fn flushed(&mut self)
        ensures
            final(self)@ == old(self)@.closed_off(),
    {
        self.finished = true;
    }
}

/// The bytes from a place on, at the end of other bytes.
fn push_from(out: &mut Vec<u8>, bytes: &Vec<u8>, from: usize)
    requires
        from <= bytes@.len(),
    ensures
        final(out)@ == old(out)@ + bytes@.skip(from as int),
{
    let mut i: usize = from;
    while i < bytes.len()
        invariant
            from <= i <= bytes.len(),
            out@ == old(out)@ + bytes@.subrange(from as int, i as int),
        decreases bytes.len() - i,
    {
        out.push(bytes[i]);
        proof {
            assert(bytes@.subrange(from as int, i + 1) =~= bytes@.subrange(
                from as int,
                i as int,
            ).push(bytes@[i as int]));
        }
        i += 1;
    }
    proof {
        assert(bytes@.subrange(from as int, i as int) =~= bytes@.skip(from as int));
    }
}

fn append_row(all: &mut Vec<String>, row: &Vec<String>)
    ensures
        texts(final(all)@) == texts(old(all)@) + texts(row@),
{
    let mut i: usize = 0;
    while i < row.len()
        invariant
            i <= row.len(),
            texts(all@) =~= texts(old(all)@) + texts(row@.take(i as int)),
        decreases row.len() - i,
    {
        let ghost before = all@;
        all.push(row[i].clone());
        proof {
            assert(texts(all@) =~= texts(before).push(row@[i as int]@));
            assert(texts(row@.take(i + 1)) =~= texts(row@.take(i as int)).push(
                row@[i as int]@,
            ));
        }
        i += 1;
    }
    proof {
        assert(row@.take(i as int) =~= row@);
    }
}

fn has_special(bytes: &[u8], delimiter: u8) -> (r: bool)
    ensures
        r == needs_quotes(bytes@, delimiter),
{
    let mut i: usize = 0;
    while i < bytes.len()
        invariant
            i <= bytes.len(),
            forall|j: int| 0 <= j < i ==> !is_special(#[trigger] bytes@[j], delimiter),
        decreases bytes.len() - i,
    {
        let b: u8 = bytes[i];
        if b == delimiter || b == QUOTE || b == LINE_FEED || b == 0x0d {
            proof {
                assert(is_special(bytes@[i as int], delimiter));
            }
            return true;
        }
        i += 1;
    }
    false
}

fn unfinished(row: &Vec<String>, delimiter: u8) -> (r: Vec<u8>)
    ensures
        r@ == csv_unfinished(encoded(texts(row@)), delimiter),
{
    let ghost bytes = encoded(texts(row@));
    let ghost cells = csv_cells(bytes, delimiter);
    if row.len() == 0 {
        return Vec::new();
    }
    let last: usize = row.len() - 1;
    let end = row[last].as_str().as_bytes();
    proof {
        assert(bytes.last() == end@);
    }
    if last == 0 && end.len() == 0 {
        proof {
            assert(cells =~= Seq::empty());
        }
        return Vec::new();
    }
    let mut line = encode_record(row, delimiter);
    proof {
        assert(cells.len() > 0) by {
            if row.len() == 1 {
                assert(cells == csv_cell(bytes[0], delimiter));
            }
        }
    }
    line.pop();
    proof {
        assert(line@ =~= cells);
    }
    if has_special(end, delimiter) {
        line.pop();
    }
    line
}

proof fn lemma_cells_of_both(a: Seq<Seq<u8>>, b: Seq<Seq<u8>>, delimiter: u8)
    requires
        a.len() > 0,
        b.len() > 0,
    ensures
        csv_cells(a + b, delimiter) == csv_cells(a, delimiter) + seq![delimiter] + csv_cells(
            b,
            delimiter,
        ),
    decreases a.len(),
{
    let all = a + b;
    assert(all[0] == a[0]);
    if a.len() == 1 {
        assert(all.drop_first() =~= b);
    } else {
        lemma_cells_of_both(a.drop_first(), b, delimiter);
        assert(all.drop_first() =~= a.drop_first() + b);
        assert(csv_cells(all, delimiter) =~= csv_cells(a, delimiter) + seq![delimiter] + csv_cells(
            b,
            delimiter,
        ));
    }
}

proof fn lemma_unfinished_goes_on(a: Seq<Seq<u8>>, b: Seq<Seq<u8>>, delimiter: u8)
    ensures
        csv_unfinished(a, delimiter).is_prefix_of(csv_unfinished(a + b, delimiter)),
        csv_unfinished(a, delimiter).is_prefix_of(csv_line(a + b, delimiter)),
{
    if a.len() == 0 {
        assert(csv_unfinished(a, delimiter) =~= Seq::empty());
    } else if b.len() == 0 {
        assert(a + b =~= a);
    } else {
        lemma_cells_of_both(a, b, delimiter);
        assert((a + b).last() == b.last());
        if needs_quotes(b.last(), delimiter) {
            lemma_quoted_row_ends(b, delimiter);
        }
    }
}

proof fn lemma_quoted_row_ends(row: Seq<Seq<u8>>, delimiter: u8)
    requires
        row.len() > 0,
        needs_quotes(row.last(), delimiter),
    ensures
        csv_cells(row, delimiter).len() > 0,
{
    if row.len() == 1 {
        assert(csv_cells(row, delimiter) == csv_cell(row[0], delimiter));
    }
}

/// A row that is refused is not lost: what it left in the output is the beginning of the
/// line that is written when the next row completes it.
pub proof fn law_refused_row_is_gone_on_from(a: Seq<Seq<u8>>, b: Seq<Seq<u8>>, delimiter: u8)
    ensures
        csv_unfinished(a, delimiter) + csv_line(a + b, delimiter).skip(
            csv_unfinished(a, delimiter).len() as int,
        ) == csv_line(a + b, delimiter),
{
    lemma_unfinished_goes_on(a, b, delimiter);
    let done = csv_unfinished(a, delimiter);
    let line = csv_line(a + b, delimiter);
    assert(done + line.skip(done.len() as int) =~= line);
}

fn copy_row(fields: &[String]) -> (r: Vec<String>)
    ensures
        texts(r@) == texts(fields@),
{
    let mut row: Vec<String> = Vec::new();
    let mut i: usize = 0;
    while i < fields.len()
        invariant
            i <= fields.len(),
            row.len() == i,
            forall|j: int| 0 <= j < i ==> (#[trigger] row@[j])@ == fields@[j]@,
        decreases fields.len() - i,
    {
        row.push(fields[i].clone());
        i += 1;
    }
    proof {
        assert(texts(row@) =~= texts(fields@));
    }
    row
}

fn record_row(record: &Vec<TypedValue>) -> (r: Vec<String>)
    ensures
        texts(r@) == csv_row(cells(record@)),
{
    let mut row: Vec<String> = Vec::new();
    let mut i: usize = 0;
    while i < record.len()
        invariant
            i <= record.len(),
            row.len() == i,
            forall|j: int| 0 <= j < i ==> (#[trigger] row@[j])@ == record@[j]@.csv_text(),
        decreases record.len() - i,
    {
        row.push(record[i].to_csv_string());
        i += 1;
    }
    proof {
        assert(texts(row@) =~= csv_row(cells(record@)));
    }
    row
}

/// What follows an opening double quote: the bytes up to the closing one, and the rest.
pub open spec fn read_quoted(s: Seq<u8>) -> (Seq<u8>, Seq<u8>)
    decreases s.len(),
{
    if s.len() == 0 {
        (Seq::empty(), s)
    } else if s[0] != QUOTE {
        let (cell, rest) = read_quoted(s.drop_first());
        (seq![s[0]] + cell, rest)
    } else if s.len() > 1 && s[1] == QUOTE {
        let (cell, rest) = read_quoted(s.skip(2));
        (seq![QUOTE] + cell, rest)
    } else {
        (Seq::empty(), s.drop_first())
    }
}

/// The bytes up to the next delimiter or line feed, and the rest.
pub open spec fn read_plain(s: Seq<u8>, delimiter: u8) -> (Seq<u8>, Seq<u8>)
    decreases s.len(),
{
    if s.len() == 0 || s[0] == delimiter || s[0] == LINE_FEED {
        (Seq::empty(), s)
    } else {
        let (cell, rest) = read_plain(s.drop_first(), delimiter);
        (seq![s[0]] + cell, rest)
    }
}

/// The cell that a row begins with, and the rest.
pub open spec fn read_cell(s: Seq<u8>, delimiter: u8) -> (Seq<u8>, Seq<u8>) {
    if s.len() > 0 && s[0] == QUOTE {
        read_quoted(s.drop_first())
    } else {
        read_plain(s, delimiter)
    }
}

/// The first row of a CSV text as a reader takes it, and the rest of the text.
pub open spec fn read_row(s: Seq<u8>, delimiter: u8) -> (Seq<Seq<u8>>, Seq<u8>)
    decreases s.len(),
    via read_row_terminates
{
    let (cell, rest) = read_cell(s, delimiter);
    if rest.len() > 0 && rest[0] == delimiter {
        let (row, after) = read_row(rest.drop_first(), delimiter);
        (seq![cell] + row, after)
    } else {
        (seq![cell], rest.skip(1))
    }
}

#[via_fn]
proof fn read_row_terminates(s: Seq<u8>, delimiter: u8) {
    lemma_read_cell_len(s, delimiter);
}

proof fn lemma_read_quoted_len(s: Seq<u8>)
    ensures
        read_quoted(s).1.len() <= s.len(),
    decreases s.len(),
{
    if s.len() > 0 {
        if s[0] != QUOTE {
            lemma_read_quoted_len(s.drop_first());
        } else if s.len() > 1 && s[1] == QUOTE {
            lemma_read_quoted_len(s.skip(2));
        }
    }
}

proof fn lemma_read_plain_len(s: Seq<u8>, delimiter: u8)
    ensures
        read_plain(s, delimiter).1.len() <= s.len(),
    decreases s.len(),
{
    if !(s.len() == 0 || s[0] == delimiter || s[0] == LINE_FEED) {
        lemma_read_plain_len(s.drop_first(), delimiter);
    }
}

proof fn lemma_read_cell_len(s: Seq<u8>, delimiter: u8)
    ensures
        read_cell(s, delimiter).1.len() <= s.len(),
{
    if s.len() > 0 && s[0] == QUOTE {
        lemma_read_quoted_len(s.drop_first());
    } else {
        lemma_read_plain_len(s, delimiter);
    }
}

proof fn lemma_quoted_is_read_back(cell: Seq<u8>, rest: Seq<u8>)
    requires
        rest.len() == 0 || rest[0] != QUOTE,
    ensures
        read_quoted(doubled(cell) + seq![QUOTE] + rest) == (cell, rest),
    decreases cell.len(),
{
    let s = doubled(cell) + seq![QUOTE] + rest;
    if cell.len() == 0 {
        assert(s.drop_first() =~= rest);
    } else {
        let tail = doubled(cell.drop_first()) + seq![QUOTE] + rest;
        lemma_quoted_is_read_back(cell.drop_first(), rest);
        assert(seq![cell[0]] + cell.drop_first() =~= cell);
        if cell[0] == QUOTE {
            assert(s.skip(2) =~= tail);
        } else {
            assert(s.drop_first() =~= tail);
        }
    }
}

proof fn lemma_plain_is_read_back(cell: Seq<u8>, rest: Seq<u8>, delimiter: u8)
    requires
        !needs_quotes(cell, delimiter),
        rest.len() > 0,
        rest[0] == delimiter || rest[0] == LINE_FEED,
    ensures
        read_plain(cell + rest, delimiter) == (cell, rest),
    decreases cell.len(),
{
    let s = cell + rest;
    if cell.len() == 0 {
        assert(s =~= rest);
    } else {
        let tail = cell.drop_first();
        assert(!is_special(cell[0], delimiter));
        assert forall|i: int| 0 <= i < tail.len() implies !is_special(
            #[trigger] tail[i],
            delimiter,
        ) by {
            assert(!is_special(cell[i + 1], delimiter));
        }
        lemma_plain_is_read_back(tail, rest, delimiter);
        assert(s.drop_first() =~= tail + rest);
        assert(seq![cell[0]] + tail =~= cell);
    }
}

proof fn lemma_cell_is_read_back(cell: Seq<u8>, rest: Seq<u8>, delimiter: u8)
    requires
        delimiter != QUOTE,
        rest.len() > 0,
        rest[0] == delimiter || rest[0] == LINE_FEED,
    ensures
        read_cell(csv_cell(cell, delimiter) + rest, delimiter) == (cell, rest),
{
    let s = csv_cell(cell, delimiter) + rest;
    if needs_quotes(cell, delimiter) {
        assert(s.drop_first() =~= doubled(cell) + seq![QUOTE] + rest);
        lemma_quoted_is_read_back(cell, rest);
    } else {
        if cell.len() > 0 {
            assert(!is_special(cell[0], delimiter));
        }
        lemma_plain_is_read_back(cell, rest, delimiter);
    }
}

proof fn lemma_cells_are_read_back(row: Seq<Seq<u8>>, rest: Seq<u8>, delimiter: u8)
    requires
        row.len() > 0,
        delimiter != QUOTE,
        delimiter != LINE_FEED,
    ensures
        read_row(csv_cells(row, delimiter) + seq![LINE_FEED] + rest, delimiter) == (row, rest),
    decreases row.len(),
{
    let s = csv_cells(row, delimiter) + seq![LINE_FEED] + rest;
    if row.len() == 1 {
        let after = seq![LINE_FEED] + rest;
        assert(s =~= csv_cell(row[0], delimiter) + after);
        lemma_cell_is_read_back(row[0], after, delimiter);
        assert(after.skip(1) =~= rest);
        assert(seq![row[0]] =~= row);
    } else {
        let tail = row.drop_first();
        let next = csv_cells(tail, delimiter) + seq![LINE_FEED] + rest;
        let after = seq![delimiter] + next;
        assert(s =~= csv_cell(row[0], delimiter) + after);
        lemma_cell_is_read_back(row[0], after, delimiter);
        assert(after.drop_first() =~= next);
        lemma_cells_are_read_back(tail, rest, delimiter);
        assert(seq![row[0]] + tail =~= row);
    }
}

/// A row is read back as it was written, whatever follows it, where the delimiter is
/// neither a double quote nor a line feed. (A row of no cells reads as one empty cell.)
pub proof fn law_row_is_read_back(row: Seq<Seq<u8>>, rest: Seq<u8>, delimiter: u8)
    requires
        row.len() > 0,
        delimiter != QUOTE,
        delimiter != LINE_FEED,
    ensures
        read_row(csv_line(row, delimiter) + rest, delimiter) == (row, rest),
{
    let s = csv_line(row, delimiter) + rest;
    if csv_cells(row, delimiter).len() == 0 {
        let after = seq![LINE_FEED] + rest;
        assert(row.len() == 1 && row[0].len() == 0) by {
            if row.len() > 1 {
                assert(csv_cells(row, delimiter).len() > 0);
            }
        }
        assert(s.drop_first() =~= doubled(row[0]) + seq![QUOTE] + after);
        lemma_quoted_is_read_back(row[0], after);
        assert(after.skip(1) =~= rest);
        assert(seq![row[0]] =~= row);
    } else {
        lemma_cells_are_read_back(row, rest, delimiter);
        assert(s =~= csv_cells(row, delimiter) + seq![LINE_FEED] + rest);
    }
}

/// The lines of some rows, one after the other.
pub open spec fn csv_lines(rows: Seq<Seq<Seq<char>>>, delimiter: u8) -> Seq<u8>
    decreases rows.len(),
{
    if rows.len() == 0 {
        Seq::empty()
    } else {
        csv_line(encoded(rows[0]), delimiter) + csv_lines(rows.drop_first(), delimiter)
    }
}

/// Rows of as many cells as the first row are all written, one line each, in their order.
pub proof fn law_equal_rows_are_all_written(sink: CsvSinkView, rows: Seq<Seq<Seq<char>>>)
    requires
        sink.partial.len() == 0,
        forall|i: int|
            0 <= i < rows.len() ==> (#[trigger] rows[i]).len() as usize == match sink.field_count {
                Some(n) => n,
                None => rows[0].len() as usize,
            },
    ensures
        sink.written(rows).1 is None,
        sink.written(rows).0.output == sink.output + csv_lines(rows, sink.delimiter),
        sink.written(rows).0.delimiter == sink.delimiter,
        sink.written(rows).0.partial.len() == 0,
        sink.written(rows).0.finished == sink.finished,
    decreases rows.len(),
{
    if rows.len() > 0 {
        let (next, error) = sink.written_row(rows[0]);
        let line = csv_line(encoded(rows[0]), sink.delimiter);
        let rest = rows.drop_first();
        assert(sink.partial + rows[0] =~= rows[0]);
        assert(csv_unfinished(encoded(sink.partial), sink.delimiter) =~= Seq::empty());
        assert(line.skip(0) =~= line);
        assert forall|i: int| 0 <= i < rest.len() implies (#[trigger] rest[i]).len() as usize
            == rows[0].len() as usize by {
            assert(rest[i] == rows[i + 1]);
        }
        law_equal_rows_are_all_written(next, rest);
        assert(next.output + csv_lines(rest, sink.delimiter) =~= sink.output + csv_lines(
            rows,
            sink.delimiter,
        ));
    } else {
        assert(sink.output + csv_lines(rows, sink.delimiter) =~= sink.output);
    }
}

/// Writing rows in two batches is the same as writing them in one, where no row of the
/// first batch is refused.
pub proof fn law_batches_do_not_matter(
    sink: CsvSinkView,
    first: Seq<Seq<Seq<char>>>,
    second: Seq<Seq<Seq<char>>>,
)
    requires
        sink.written(first).1 is None,
    ensures
        sink.written(first).0.written(second) == sink.written(first + second),
    decreases first.len(),
{
    let all = first + second;
    if first.len() == 0 {
        assert(all =~= second);
    } else {
        assert(all[0] == first[0]);
        assert(all.drop_first() =~= first.drop_first() + second);
        law_batches_do_not_matter(sink.written_row(first[0]).0, first.drop_first(), second);
    }
}

/// The first `n` rows of a CSV text as a reader takes them, and the rest of the text.
pub open spec fn read_rows(s: Seq<u8>, delimiter: u8, n: nat) -> (Seq<Seq<Seq<u8>>>, Seq<u8>)
    decreases n,
{
    if n == 0 {
        (Seq::empty(), s)
    } else {
        let (row, rest) = read_row(s, delimiter);
        let (rows, after) = read_rows(rest, delimiter, (n - 1) as nat);
        (seq![row] + rows, after)
    }
}

/// The rows of an output are read back from it, each cell in UTF-8, where the delimiter is
/// neither a double quote nor a line feed.
pub proof fn law_output_is_read_back(rows: Seq<Seq<Seq<char>>>, delimiter: u8)
    requires
        forall|i: int| 0 <= i < rows.len() ==> (#[trigger] rows[i]).len() > 0,
        delimiter != QUOTE,
        delimiter != LINE_FEED,
    ensures
        read_rows(csv_lines(rows, delimiter), delimiter, rows.len()) == (
            rows.map_values(|row: Seq<Seq<char>>| encoded(row)),
            Seq::<u8>::empty(),
        ),
    decreases rows.len(),
{
    let bytes = rows.map_values(|row: Seq<Seq<char>>| encoded(row));
    if rows.len() == 0 {
        assert(bytes =~= Seq::empty());
    } else {
        let rest = rows.drop_first();
        assert forall|i: int| 0 <= i < rest.len() implies (#[trigger] rest[i]).len() > 0 by {
            assert(rest[i] == rows[i + 1]);
        }
        law_row_is_read_back(encoded(rows[0]), csv_lines(rest, delimiter), delimiter);
        law_output_is_read_back(rest, delimiter);
        assert(seq![encoded(rows[0])] + rest.map_values(|row: Seq<Seq<char>>| encoded(row))
            =~= bytes);
    }
}

/// A cell is written as it is exactly where it holds no delimiter, double quote, line feed
/// or carriage return. Else it stands between two double quotes.
pub proof fn law_cells_are_quoted_where_they_need_it(cell: Seq<u8>, delimiter: u8)
    ensures
        ({
            let plain = !cell.contains(delimiter) && !cell.contains(0x22) && !cell.contains(0x0a)
                && !cell.contains(0x0d);
            &&& plain ==> csv_cell(cell, delimiter) == cell
            &&& !plain ==> csv_cell(cell, delimiter) == seq![0x22u8] + doubled(cell) + seq![0x22u8]
        }),
{
    if needs_quotes(cell, delimiter) {
        let i = choose|i: int| 0 <= i < cell.len() && is_special(#[trigger] cell[i], delimiter);
        assert(cell.contains(cell[i]));
    } else {
        assert forall|b: u8| is_special(b, delimiter) implies !#[trigger] cell.contains(b) by {
            if cell.contains(b) {
                let i = choose|i: int| 0 <= i < cell.len() && cell[i] == b;
                assert(is_special(cell[i], delimiter));
            }
        }
        assert(is_special(delimiter, delimiter) && is_special(0x22, delimiter));
        assert(is_special(0x0a, delimiter) && is_special(0x0d, delimiter));
    }
}

/// Each double quote is written twice and every other byte once, each in its place.
pub proof fn law_only_double_quotes_are_doubled(before: Seq<u8>, b: u8, after: Seq<u8>)
    ensures
        doubled(Seq::empty()).len() == 0,
        doubled(seq![b]) == if b == 0x22 {
            seq![b, b]
        } else {
            seq![b]
        },
        doubled(before + seq![b] + after) == doubled(before) + doubled(seq![b]) + doubled(after),
    decreases before.len(),
{
    let all = before + seq![b] + after;
    assert(seq![b].drop_first() =~= Seq::empty());
    assert(doubled(seq![b].drop_first()) =~= Seq::empty());
    assert(doubled(seq![b]) =~= if b == 0x22 {
        seq![b, b]
    } else {
        seq![b]
    });
    if before.len() == 0 {
        assert(all.drop_first() =~= after);
        assert(doubled(all) =~= doubled(before) + doubled(seq![b]) + doubled(after));
    } else {
        law_only_double_quotes_are_doubled(before.drop_first(), b, after);
        assert(all[0] == before[0]);
        assert(all.drop_first() =~= before.drop_first() + seq![b] + after);
        assert(doubled(all) =~= doubled(before) + doubled(seq![b]) + doubled(after));
    }
}

/// A row is its cells with one delimiter between each two of them, and then a line feed;
/// where that leaves no cell or an empty one alone, a pair of double quotes stands before
/// the line feed.
pub proof fn law_rows_are_cells_with_delimiters(row: Seq<Seq<u8>>, cell: Seq<u8>, delimiter: u8)
    ensures
        csv_line(Seq::empty(), delimiter) == seq![0x22u8, 0x22u8, 0x0au8],
        cell.len() == 0 ==> csv_line(seq![cell], delimiter) == seq![0x22u8, 0x22u8, 0x0au8],
        cell.len() > 0 ==> csv_line(seq![cell], delimiter) == csv_cell(cell, delimiter) + seq![
            0x0au8,
        ],
        row.len() > 0 ==> csv_cells(row.push(cell), delimiter) == csv_cells(row, delimiter) + seq![
            delimiter,
        ] + csv_cell(cell, delimiter),
        row.len() > 0 ==> csv_line(row.push(cell), delimiter) == csv_cells(
            row.push(cell),
            delimiter,
        ) + seq![0x0au8],
        csv_cells(seq![cell], delimiter) == csv_cell(cell, delimiter),
{
    if row.len() > 0 {
        lemma_cells_of_both(row, seq![cell], delimiter);
        assert(row + seq![cell] =~= row.push(cell));
    }
    assert(csv_cells(seq![cell], delimiter) == csv_cell(cell, delimiter));
    if cell.len() == 0 {
        assert(!needs_quotes(cell, delimiter));
    } else {
        assert(csv_cell(cell, delimiter).len() > 0);
    }
}

/// The bytes of a cell are those of its text in UTF-8, and there is a cell for each text.
pub proof fn law_cells_are_encoded_each_by_itself(row: Seq<Seq<char>>, i: int)
    requires
        0 <= i < row.len(),
    ensures
        encoded(row).len() == row.len(),
        encoded(row)[i] == encode_utf8(row[i]),
{
}

/// The text of each value of each record stands in its own cell, whole.
pub proof fn law_rows_hold_the_texts_of_the_values(
    records: Seq<Seq<TypedValueView>>,
    i: int,
    j: int,
)
    requires
        0 <= i < records.len(),
        0 <= j < records[i].len(),
    ensures
        csv_rows(records).len() == records.len(),
        csv_rows(records)[i].len() == records[i].len(),
        csv_rows(records)[i][j] == records[i][j].csv_text(),
{
}

/// A row is written exactly where it is the first one or has as many cells as the first
/// one, and its line is then added to the output. Else it is refused with both numbers,
/// its cells are in the output without a line feed, and the next row goes on from them.
pub proof fn law_rows_have_as_many_cells_as_the_first(sink: CsvSinkView, row: Seq<Seq<char>>)
    requires
        sink.partial.len() == 0,
        row.len() <= usize::MAX,
    ensures
        ({
            let (next, error) = sink.written_row(row);
            let line = csv_line(encoded(row), sink.delimiter);
            let begun = csv_unfinished(encoded(row), sink.delimiter);
            &&& next.delimiter == sink.delimiter && next.finished == sink.finished
            &&& sink.field_count is None ==> error is None && next.field_count == Some(
                row.len() as usize,
            ) && next.output == sink.output + line && next.partial.len() == 0
            &&& sink.field_count matches Some(n) ==> {
                &&& next.field_count == Some(n)
                &&& n == row.len() ==> error is None && next.output == sink.output + line
                    && next.partial.len() == 0
                &&& n != row.len() ==> error == Some(
                    CsvError::UnequalLengths { expected: n, len: row.len() as usize },
                ) && next.output == sink.output + begun && next.partial == row
            }
        }),
{
    let line = csv_line(encoded(row), sink.delimiter);
    let begun = csv_unfinished(encoded(row), sink.delimiter);
    assert(sink.partial =~= Seq::empty());
    assert(sink.partial + row =~= row);
    assert(csv_unfinished(encoded(sink.partial), sink.delimiter) =~= Seq::empty());
    assert(line.skip(0) =~= line);
    assert(begun.skip(0) =~= begun);
}

/// A row behind refused rows is one row with them: it is written where they have as many
/// cells together as the first row.
pub proof fn law_refused_cells_are_part_of_the_next_row(
    sink: CsvSinkView,
    expected: usize,
    a: Seq<Seq<char>>,
    b: Seq<Seq<char>>,
)
    requires
        sink.partial.len() == 0,
        sink.field_count == Some(expected),
        a.len() != expected,
        a.len() + b.len() <= usize::MAX,
    ensures
        sink.written_row(a).1 is Some,
        a.len() + b.len() == expected ==> sink.written_row(a).0.written_row(b) == sink.written_row(
            a + b,
        ),
        a.len() + b.len() != expected ==> sink.written_row(a).0.written_row(b).1 == Some(
            CsvError::UnequalLengths { expected, len: (a.len() + b.len()) as usize },
        ),
{
    law_rows_have_as_many_cells_as_the_first(sink, a);
    law_rows_have_as_many_cells_as_the_first(sink, a + b);
    let d = sink.delimiter;
    assert(encoded(a + b) =~= encoded(a) + encoded(b));
    law_refused_row_is_gone_on_from(encoded(a), encoded(b), d);
    let done = csv_unfinished(encoded(a), d);
    let line = csv_line(encoded(a + b), d);
    assert(sink.output + done + line.skip(done.len() as int) =~= sink.output + (done + line.skip(
        done.len() as int,
    )));
    assert(sink.written_row(a).0.partial =~= a);
    if a.len() + b.len() == expected {
        assert(sink.written_row(a).0.written_row(b).0 =~= sink.written_row(a + b).0);
    }
}

/// A row that has begun is all but the closing double quote of its last cell, where that
/// has one, and the line feed.
pub proof fn law_begun_rows_lack_their_ends(row: Seq<Seq<u8>>, delimiter: u8)
    requires
        csv_cells(row, delimiter).len() > 0,
    ensures
        csv_line(row, delimiter) == csv_unfinished(row, delimiter) + if needs_quotes(
            row.last(),
            delimiter,
        ) {
            seq![0x22u8, 0x0au8]
        } else {
            seq![0x0au8]
        },
    decreases row.len(),
{
    let bytes = csv_cells(row, delimiter);
    if needs_quotes(row.last(), delimiter) {
        let before = row.drop_last();
        assert(row =~= before + seq![row.last()]);
        assert(csv_cells(seq![row.last()], delimiter) == csv_cell(row.last(), delimiter));
        if before.len() > 0 {
            lemma_cells_of_both(before, seq![row.last()], delimiter);
        } else {
            assert(row =~= seq![row.last()]);
        }
        assert(bytes.last() == 0x22);
        assert(csv_line(row, delimiter) =~= bytes.drop_last() + seq![0x22u8, 0x0au8]);
    }
}

/// The header is the first row: a sink that is opened with one is as a sink without one
/// after that row. A delimiter of one byte is taken as it is.
pub proof fn law_header_is_the_first_row(fields: Seq<Seq<char>>, delimiter: char)
    requires
        fields.len() <= usize::MAX,
    ensures
        CsvSinkView::opened(fields, delimiter, false) == CsvSinkView::opened(
            fields,
            delimiter,
            true,
        ).written_row(fields).0,
        CsvSinkView::opened(fields, delimiter, true).written_row(fields).1 is None,
        CsvSinkView::opened(fields, delimiter, true) == (CsvSinkView {
            delimiter: CsvSinkView::opened(fields, delimiter, true).delimiter,
            field_count: None,
            partial: Seq::empty(),
            output: Seq::empty(),
            finished: false,
        }),
        delimiter <= '\u{ff}' ==> CsvSinkView::opened(fields, delimiter, true).delimiter
            == delimiter as u32,
{
    let sink = CsvSinkView::opened(fields, delimiter, true);
    law_rows_have_as_many_cells_as_the_first(sink, fields);
    assert(CsvSinkView::opened(fields, delimiter, false) =~= sink.written_row(fields).0);
}

/// Rows are written in turn up to the first one that is refused: no row behind it leaves a
/// byte.
pub proof fn law_nothing_is_written_behind_a_refused_row(
    sink: CsvSinkView,
    row: Seq<Seq<char>>,
    rest: Seq<Seq<Seq<char>>>,
)
    ensures
        sink.written(Seq::empty()) == (sink, None::<CsvError>),
        sink.written_row(row).1 is Some ==> sink.written(seq![row] + rest) == sink.written_row(row),
        sink.written_row(row).1 is None ==> sink.written(seq![row] + rest) == sink.written_row(
            row,
        ).0.written(rest),
{
    assert((seq![row] + rest).drop_first() =~= rest);
}

/// The reason in words names both numbers of cells, in digits.
pub proof fn law_reason_names_both_lengths(expected: usize, len: usize)
    ensures
        (CsvError::UnequalLengths { expected, len }).text() == "CSV error: found record with "@
            + integer_text(len as int) + " fields, but the previous record has "@ + integer_text(
            expected as int,
        ) + " fields"@,
{
}

/// Output may be taken at any time: what was taken before a row and what is there after it
/// are together what would be there, and taking it changes nothing else. Nothing is taken
/// twice.
pub proof fn law_output_may_be_taken_at_any_time(sink: CsvSinkView, row: Seq<Seq<char>>)
    ensures
        ({
            let (bytes, rest) = sink.taken();
            let (whole, error) = sink.written_row(row);
            let (after, same) = rest.written_row(row);
            &&& bytes + after.output == whole.output
            &&& error == same
            &&& after == (CsvSinkView { output: after.output, ..whole })
            &&& rest.taken().0.len() == 0
            &&& rest.taken().1 == rest
        }),
{
    let (bytes, rest) = sink.taken();
    let (whole, error) = sink.written_row(row);
    let (after, same) = rest.written_row(row);
    assert(bytes + after.output =~= whole.output);
    assert(after =~= (CsvSinkView { output: after.output, ..whole }));
}

/// A sink has to be flushed until it was, and no longer; to flush it takes no byte away,
/// and nothing but that finishes it.
pub proof fn law_sinks_are_flushed_once(
    sink: CsvSinkView,
    row: Seq<Seq<char>>,
    fields: Seq<Seq<char>>,
    delimiter: char,
    no_header: bool,
)
    ensures
        CsvSinkView::opened(fields, delimiter, no_header).is_unfinished(),
        !sink.closed_off().is_unfinished(),
        sink.closed_off().taken().0 == sink.taken().0,
        sink.taken().1.is_unfinished() == sink.is_unfinished(),
        sink.written_row(row).0.is_unfinished() == sink.is_unfinished(),
        sink.closed_off().written_row(row).0.output == sink.written_row(row).0.output,
{
}

} // verus!
