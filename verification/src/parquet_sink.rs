//! Parquet output: the schema, the codec, and the columns of a batch of records.

use crate::field_type::FieldType;
use crate::text::{optional_text, texts};
use crate::value::{cells, rows, TypedValue, TypedValueView};
use vstd::prelude::*;

verus! {

/// Parquet compression codec.
#[derive(Copy, Clone, Debug, PartialEq, Eq, Structural)]
pub enum ParquetCompression {
    Uncompressed,
    Snappy,
    Gzip,
    Zstd,
    Lz4,
}

/// A codec of the Parquet format, with its level where it has one.
#[derive(Copy, Clone, Debug, PartialEq, Eq, Structural)]
pub enum Codec {
    Uncompressed,
    Snappy,
    Gzip(u32),
    Zstd(i32),
    Lz4,
}

/// `parquet::basic::ZstdLevel::try_new` and the level that it gives: the level itself
/// from 1 to 22, nothing beyond.
#[verifier::external_body]
fn zstd_level(level: i32) -> (r: Option<i32>)
    ensures
        r == if 1 <= level <= 22 {
            Some(level)
        } else {
            None
        },
{
    parquet::basic::ZstdLevel::try_new(level).ok().map(|l| l.compression_level())
}

/// `Default` of `parquet::basic::ZstdLevel`, which is the level 1.
#[verifier::external_body]
fn default_zstd_level() -> (r: i32)
    ensures
        r == 1,
{
    parquet::basic::ZstdLevel::default().compression_level()
}

/// `Default` of `parquet::basic::GzipLevel`, which is the level 6.
#[verifier::external_body]
fn default_gzip_level() -> (r: u32)
    ensures
        r == 6,
{
    parquet::basic::GzipLevel::default().compression_level()
}

/// The codec of a compression, with the level that this library uses.
pub open spec fn codec_of(compression: ParquetCompression) -> Codec {
    match compression {
        ParquetCompression::Uncompressed => Codec::Uncompressed,
        ParquetCompression::Snappy => Codec::Snappy,
        ParquetCompression::Gzip => Codec::Gzip(6),
        ParquetCompression::Zstd => Codec::Zstd(3),
        ParquetCompression::Lz4 => Codec::Lz4,
    }
}

impl ParquetCompression {
    /// The codec, with the level that this library uses.
    pub fn to_parquet(self) -> (r: Codec)
        ensures
            r == codec_of(self),
    {
        match self {
            ParquetCompression::Uncompressed => Codec::Uncompressed,
            ParquetCompression::Snappy => Codec::Snappy,
            ParquetCompression::Gzip => Codec::Gzip(default_gzip_level()),
            ParquetCompression::Zstd => match zstd_level(3) {
                Some(level) => Codec::Zstd(level),
                None => Codec::Zstd(default_zstd_level()),
            },
            ParquetCompression::Lz4 => Codec::Lz4,
        }
    }
}

/// The Arrow type of a column.
#[derive(Copy, Clone, Debug, PartialEq, Eq, Structural)]
pub enum ColumnType {
    Utf8,
    Int32,
    Int64,
    Float64,
    Boolean,
    /// Milliseconds since epoch, in the time zone `UTC`.
    TimestampMillisecondUtc,
}

/// The Arrow type of the columns of a field type.
pub open spec fn column_type(ty: FieldType) -> ColumnType {
    match ty {
        FieldType::String => ColumnType::Utf8,
        FieldType::Int32 => ColumnType::Int32,
        FieldType::Int64 => ColumnType::Int64,
        FieldType::Double => ColumnType::Float64,
        FieldType::Bool => ColumnType::Boolean,
        FieldType::Timestamp => ColumnType::TimestampMillisecondUtc,
    }
}

/// The Arrow type of the columns of a field type.
pub fn arrow_data_type(ty: FieldType) -> (r: ColumnType)
    ensures
        r == column_type(ty),
{
    match ty {
        FieldType::String => ColumnType::Utf8,
        FieldType::Int32 => ColumnType::Int32,
        FieldType::Int64 => ColumnType::Int64,
        FieldType::Double => ColumnType::Float64,
        FieldType::Bool => ColumnType::Boolean,
        FieldType::Timestamp => ColumnType::TimestampMillisecondUtc,
    }
}

/// A column of a schema.
#[derive(Debug)]
pub struct SchemaField {
    pub name: String,
    pub data_type: ColumnType,
    pub nullable: bool,
}

/// A column of a schema, with its name as a sequence of characters.
pub struct SchemaFieldView {
    pub name: Seq<char>,
    pub data_type: ColumnType,
    pub nullable: bool,
}

impl View for SchemaField {
    type V = SchemaFieldView;

    open spec fn view(&self) -> SchemaFieldView {
        SchemaFieldView {
            name: self.name@,
            data_type: self.data_type,
            nullable: self.nullable,
        }
    }
}

/// The schema of fields with the given names and types: a nullable column for each.
pub open spec fn schema_of(names: Seq<Seq<char>>, types: Seq<FieldType>) -> Seq<
    SchemaFieldView,
> {
    Seq::new(
        names.len(),
        |i: int|
            SchemaFieldView {
                name: names[i],
                data_type: column_type(types[i]),
                nullable: true,
            },
    )
}

/// The values of a column, one for each record. A double is held by its 64 bits.
#[derive(Debug)]
pub enum Column {
    Utf8(Vec<Option<String>>),
    Int32(Vec<Option<i32>>),
    Int64(Vec<Option<i64>>),
    Float64(Vec<Option<u64>>),
    Boolean(Vec<Option<bool>>),
    TimestampMillisecondUtc(Vec<Option<i64>>),
}

/// The values of a column, with texts as sequences of characters.
pub enum ColumnView {
    Utf8(Seq<Option<Seq<char>>>),
    Int32(Seq<Option<i32>>),
    Int64(Seq<Option<i64>>),
    Float64(Seq<Option<u64>>),
    Boolean(Seq<Option<bool>>),
    TimestampMillisecondUtc(Seq<Option<i64>>),
}

impl View for Column {
    type V = ColumnView;

    open spec fn view(&self) -> ColumnView {
        match self {
            Column::Utf8(v) => ColumnView::Utf8(
                v@.map_values(|s: Option<String>| optional_text(s)),
            ),
            Column::Int32(v) => ColumnView::Int32(v@),
            Column::Int64(v) => ColumnView::Int64(v@),
            Column::Float64(v) => ColumnView::Float64(v@),
            Column::Boolean(v) => ColumnView::Boolean(v@),
            Column::TimestampMillisecondUtc(v) => ColumnView::TimestampMillisecondUtc(v@),
        }
    }
}

impl TypedValueView {
    /// The text, where the value is one.
    pub open spec fn text(self) -> Option<Seq<char>> {
        match self {
            TypedValueView::String(s) => Some(s),
            _ => None,
        }
    }

    /// The 32-bit integer, where the value is one.
    pub open spec fn int32(self) -> Option<i32> {
        match self {
            TypedValueView::Int32(v) => Some(v),
            _ => None,
        }
    }

    /// The 64-bit integer, where the value is one.
    pub open spec fn int64(self) -> Option<i64> {
        match self {
            TypedValueView::Int64(v) => Some(v),
            _ => None,
        }
    }

    /// The bits of the double, where the value is one.
    pub open spec fn double(self) -> Option<u64> {
        match self {
            TypedValueView::Double(v) => Some(v),
            _ => None,
        }
    }

    /// The truth value, where the value is one.
    pub open spec fn boolean(self) -> Option<bool> {
        match self {
            TypedValueView::Bool(v) => Some(v),
            _ => None,
        }
    }

    /// The point in time, where the value is one.
    pub open spec fn timestamp(self) -> Option<i64> {
        match self {
            TypedValueView::TimestampMs(v) => Some(v),
            _ => None,
        }
    }
}

/// The column of a type that holds what stands at one place of each record. A value of
/// another type is left out.
pub open spec fn column_of(
    ty: FieldType,
    records: Seq<Seq<TypedValueView>>,
    place: int,
) -> ColumnView {
    match ty {
        FieldType::String => ColumnView::Utf8(
            Seq::new(records.len(), |i: int| records[i][place].text()),
        ),
        FieldType::Int32 => ColumnView::Int32(
            Seq::new(records.len(), |i: int| records[i][place].int32()),
        ),
        FieldType::Int64 => ColumnView::Int64(
            Seq::new(records.len(), |i: int| records[i][place].int64()),
        ),
        FieldType::Double => ColumnView::Float64(
            Seq::new(records.len(), |i: int| records[i][place].double()),
        ),
        FieldType::Bool => ColumnView::Boolean(
            Seq::new(records.len(), |i: int| records[i][place].boolean()),
        ),
        FieldType::Timestamp => ColumnView::TimestampMillisecondUtc(
            Seq::new(records.len(), |i: int| records[i][place].timestamp()),
        ),
    }
}

/// The columns of some records, one for each type.
pub open spec fn columns_of(
    types: Seq<FieldType>,
    records: Seq<Seq<TypedValueView>>,
) -> Seq<ColumnView> {
    Seq::new(types.len(), |c: int| column_of(types[c], records, c))
}

/// The columns to write for a batch of records, if there is anything to write.
pub open spec fn batch_columns(
    types: Seq<FieldType>,
    records: Seq<Seq<TypedValueView>>,
) -> Option<Seq<ColumnView>> {
    if records.len() == 0 {
        None
    } else {
        Some(columns_of(types, records))
    }
}

/// Whether each record has a value at the place.
pub open spec fn reach(records: Seq<Seq<TypedValueView>>, place: int) -> bool {
    forall|i: int| 0 <= i < records.len() ==> place < (#[trigger] records[i]).len()
}

proof fn lemma_cell(records: Seq<Vec<TypedValue>>, i: int, place: int)
    requires
        0 <= i < records.len(),
        0 <= place,
        reach(rows(records), place),
    ensures
        rows(records).len() == records.len(),
        place < records[i]@.len(),
        rows(records)[i][place] == records[i]@[place]@,
{
    assert(rows(records)[i] == cells(records[i]@));
}

fn utf8_column(records: &[Vec<TypedValue>], place: usize) -> (r: Vec<Option<String>>)
    requires
        reach(rows(records@), place as int),
    ensures
        Column::Utf8(r)@ == column_of(FieldType::String, rows(records@), place as int),
{
    let mut column: Vec<Option<String>> = Vec::new();
    let mut i: usize = 0;
    while i < records.len()
        invariant
            i <= records.len(),
            reach(rows(records@), place as int),
            column.len() == i,
            rows(records@).len() == records.len(),
            forall|j: int|
                0 <= j < i ==> optional_text(#[trigger] column@[j]) == rows(records@)[j][place
                    as int].text(),
        decreases records.len() - i,
    {
        proof {
            lemma_cell(records@, i as int, place as int);
        }
        column.push(
            match &records[i][place] {
                TypedValue::String(s) => Some(s.clone()),
                _ => None,
            },
        );
        i += 1;
    }
    proof {
        assert(Column::Utf8(column)@->Utf8_0 =~= column_of(
            FieldType::String,
            rows(records@),
            place as int,
        )->Utf8_0);
    }
    column
}

fn int32_column(records: &[Vec<TypedValue>], place: usize) -> (r: Vec<Option<i32>>)
    requires
        reach(rows(records@), place as int),
    ensures
        Column::Int32(r)@ == column_of(FieldType::Int32, rows(records@), place as int),
{
    let mut column: Vec<Option<i32>> = Vec::new();
    let mut i: usize = 0;
    while i < records.len()
        invariant
            i <= records.len(),
            reach(rows(records@), place as int),
            column.len() == i,
            rows(records@).len() == records.len(),
            forall|j: int|
                0 <= j < i ==> #[trigger] column@[j] == rows(records@)[j][place as int].int32(),
        decreases records.len() - i,
    {
        proof {
            lemma_cell(records@, i as int, place as int);
        }
        column.push(
            match &records[i][place] {
                TypedValue::Int32(v) => Some(*v),
                _ => None,
            },
        );
        i += 1;
    }
    proof {
        assert(column@ =~= column_of(FieldType::Int32, rows(records@), place as int)->Int32_0);
    }
    column
}

fn int64_column(records: &[Vec<TypedValue>], place: usize) -> (r: Vec<Option<i64>>)
    requires
        reach(rows(records@), place as int),
    ensures
        Column::Int64(r)@ == column_of(FieldType::Int64, rows(records@), place as int),
{
    let mut column: Vec<Option<i64>> = Vec::new();
    let mut i: usize = 0;
    while i < records.len()
        invariant
            i <= records.len(),
            reach(rows(records@), place as int),
            column.len() == i,
            rows(records@).len() == records.len(),
            forall|j: int|
                0 <= j < i ==> #[trigger] column@[j] == rows(records@)[j][place as int].int64(),
        decreases records.len() - i,
    {
        proof {
            lemma_cell(records@, i as int, place as int);
        }
        column.push(
            match &records[i][place] {
                TypedValue::Int64(v) => Some(*v),
                _ => None,
            },
        );
        i += 1;
    }
    proof {
        assert(column@ =~= column_of(FieldType::Int64, rows(records@), place as int)->Int64_0);
    }
    column
}

fn float64_column(records: &[Vec<TypedValue>], place: usize) -> (r: Vec<Option<u64>>)
    requires
        reach(rows(records@), place as int),
    ensures
        Column::Float64(r)@ == column_of(FieldType::Double, rows(records@), place as int),
{
    let mut column: Vec<Option<u64>> = Vec::new();
    let mut i: usize = 0;
    while i < records.len()
        invariant
            i <= records.len(),
            reach(rows(records@), place as int),
            column.len() == i,
            rows(records@).len() == records.len(),
            forall|j: int|
                0 <= j < i ==> #[trigger] column@[j] == rows(records@)[j][place as int].double(),
        decreases records.len() - i,
    {
        proof {
            lemma_cell(records@, i as int, place as int);
        }
        column.push(
            match &records[i][place] {
                TypedValue::Double(bits) => Some(*bits),
                _ => None,
            },
        );
        i += 1;
    }
    proof {
        assert(column@ =~= column_of(FieldType::Double, rows(records@), place as int)->Float64_0);
    }
    column
}

fn boolean_column(records: &[Vec<TypedValue>], place: usize) -> (r: Vec<Option<bool>>)
    requires
        reach(rows(records@), place as int),
    ensures
        Column::Boolean(r)@ == column_of(FieldType::Bool, rows(records@), place as int),
{
    let mut column: Vec<Option<bool>> = Vec::new();
    let mut i: usize = 0;
    while i < records.len()
        invariant
            i <= records.len(),
            reach(rows(records@), place as int),
            column.len() == i,
            rows(records@).len() == records.len(),
            forall|j: int|
                0 <= j < i ==> #[trigger] column@[j] == rows(records@)[j][place as int].boolean(),
        decreases records.len() - i,
    {
        proof {
            lemma_cell(records@, i as int, place as int);
        }
        column.push(
            match &records[i][place] {
                TypedValue::Bool(v) => Some(*v),
                _ => None,
            },
        );
        i += 1;
    }
    proof {
        assert(column@ =~= column_of(FieldType::Bool, rows(records@), place as int)->Boolean_0);
    }
    column
}

fn timestamp_column(records: &[Vec<TypedValue>], place: usize) -> (r: Vec<Option<i64>>)
    requires
        reach(rows(records@), place as int),
    ensures
        Column::TimestampMillisecondUtc(r)@ == column_of(
            FieldType::Timestamp,
            rows(records@),
            place as int,
        ),
{
    let mut column: Vec<Option<i64>> = Vec::new();
    let mut i: usize = 0;
    while i < records.len()
        invariant
            i <= records.len(),
            reach(rows(records@), place as int),
            column.len() == i,
            rows(records@).len() == records.len(),
            forall|j: int|
                0 <= j < i ==> #[trigger] column@[j] == rows(records@)[j][place
                    as int].timestamp(),
        decreases records.len() - i,
    {
        proof {
            lemma_cell(records@, i as int, place as int);
        }
        column.push(
            match &records[i][place] {
                TypedValue::TimestampMs(ms) => Some(*ms),
                _ => None,
            },
        );
        i += 1;
    }
    proof {
        assert(column@ =~= column_of(
            FieldType::Timestamp,
            rows(records@),
            place as int,
        )->TimestampMillisecondUtc_0);
    }
    column
}

fn build_column(ty: FieldType, records: &[Vec<TypedValue>], place: usize) -> (r: Column)
    requires
        reach(rows(records@), place as int),
    ensures
        r@ == column_of(ty, rows(records@), place as int),
{
    match ty {
        FieldType::String => Column::Utf8(utf8_column(records, place)),
        FieldType::Int32 => Column::Int32(int32_column(records, place)),
        FieldType::Int64 => Column::Int64(int64_column(records, place)),
        FieldType::Double => Column::Float64(float64_column(records, place)),
        FieldType::Bool => Column::Boolean(boolean_column(records, place)),
        FieldType::Timestamp => Column::TimestampMillisecondUtc(timestamp_column(records, place)),
    }
}

/// The state of a `ParquetSink`.
pub struct ParquetSinkView {
    pub schema: Seq<SchemaFieldView>,
    pub field_types: Seq<FieldType>,
    pub codec: Codec,
    /// Whether the file writer is open.
    pub open: bool,
    pub finished: bool,
}

/// Turns batches of records into columns for a Parquet file writer, and keeps track of
/// whether that writer is open.
#[derive(Debug)]
pub struct ParquetSink {
    schema: Vec<SchemaField>,
    field_types: Vec<FieldType>,
    codec: Codec,
    open: bool,
    finished: bool,
}

impl View for ParquetSink {
    type V = ParquetSinkView;

    closed spec fn view(&self) -> ParquetSinkView {
        ParquetSinkView {
            schema: self.schema@.map_values(|f: SchemaField| f@),
            field_types: self.field_types@,
            codec: self.codec,
            open: self.open,
            finished: self.finished,
        }
    }
}

impl ParquetSinkView {
    /// Whether the schema has a nullable column of the right type for each field type,
    /// and the writer is not open after the sink is finished.
    pub open spec fn wf(self) -> bool {
        &&& self.schema.len() == self.field_types.len()
        &&& forall|i: int|
            0 <= i < self.schema.len() ==> (#[trigger] self.schema[i]).data_type == column_type(
                self.field_types[i],
            ) && self.schema[i].nullable
        &&& self.finished ==> !self.open
    }

    /// The state at the start, with the writer open.
    pub open spec fn opened(
        names: Seq<Seq<char>>,
        types: Seq<FieldType>,
        compression: ParquetCompression,
    ) -> ParquetSinkView {
        ParquetSinkView {
            schema: schema_of(names, types),
            field_types: types,
            codec: codec_of(compression),
            open: true,
            finished: false,
        }
    }

    /// Whether a batch of so many records can be written: the writer is open, unless there
    /// is nothing to write.
    pub open spec fn accepts(self, records: nat) -> bool {
        records > 0 && self.field_types.len() > 0 ==> self.open
    }

    /// The state when the writer was closed.
    pub open spec fn closed_off(self) -> ParquetSinkView {
        ParquetSinkView { finished: true, ..self }
    }

    /// What a request to finish does: whether the writer has to be closed now, and the
    /// state afterwards. The writer is given up before it is closed.
    pub open spec fn finish(self) -> (bool, ParquetSinkView) {
        if self.finished {
            (false, self)
        } else if self.open {
            (true, ParquetSinkView { open: false, ..self })
        } else {
            (false, ParquetSinkView { finished: true, ..self })
        }
    }
}

impl ParquetSink {
    /// A sink whose file writer is open and has written nothing.
    pub fn new(
        fields: &[String],
        field_types: &[FieldType],
        compression: ParquetCompression,
    ) -> (r: ParquetSink)
        requires
            fields@.len() == field_types@.len(),
        ensures
            r@.wf(),
            r@ == ParquetSinkView::opened(texts(fields@), field_types@, compression),
    {
        let mut schema: Vec<SchemaField> = Vec::new();
        let mut types: Vec<FieldType> = Vec::new();
        let mut i: usize = 0;
        while i < fields.len()
            invariant
                i <= fields.len(),
                fields@.len() == field_types@.len(),
                schema.len() == i,
                types@ == field_types@.take(i as int),
                forall|j: int|
                    0 <= j < i ==> (#[trigger] schema@[j])@ == (SchemaFieldView {
                        name: fields@[j]@,
                        data_type: column_type(field_types@[j]),
                        nullable: true,
                    }),
            decreases fields.len() - i,
        {
            let ty = field_types[i];
            schema.push(
                SchemaField {
                    name: fields[i].clone(),
                    data_type: arrow_data_type(ty),
                    nullable: true,
                },
            );
            types.push(ty);
            proof {
                assert(types@ =~= field_types@.take(i + 1));
            }
            i += 1;
        }
        let sink = ParquetSink {
            schema,
            field_types: types,
            codec: compression.to_parquet(),
            open: true,
            finished: false,
        };
        proof {
            assert(sink@.field_types =~= field_types@);
            assert(sink@.schema =~= schema_of(texts(fields@), field_types@));
        }
        sink
    }

    /// The columns of the file.
    pub fn schema(&self) -> (r: &Vec<SchemaField>)
        ensures
            r@.map_values(|f: SchemaField| f@) == self@.schema,
    {
        &self.schema
    }

    /// The codec of the file.
    pub fn codec(&self) -> (r: Codec)
        ensures
            r == self@.codec,
    {
        self.codec
    }

    /// The columns to write for a batch of records; nothing for an empty batch.
    pub fn write_records(&self, records: &[Vec<TypedValue>]) -> (r: Option<Vec<Column>>)
        requires
            self@.wf(),
            self@.accepts(records@.len()),
            forall|i: int|
                0 <= i < records@.len() ==> self@.field_types.len() <= (
                #[trigger] records@[i])@.len(),
        ensures
            match r {
                Some(columns) => batch_columns(self@.field_types, rows(records@)) == Some(
                    columns@.map_values(|c: Column| c@),
                ),
                None => batch_columns(self@.field_types, rows(records@)) is None,
            },
    {
        if records.len() == 0 {
            return None;
        }
        let mut columns: Vec<Column> = Vec::new();
        let mut place: usize = 0;
        while place < self.field_types.len()
            invariant
                place <= self.field_types.len(),
                columns.len() == place,
                forall|i: int|
                    0 <= i < records@.len() ==> self.field_types.len() <= (
                    #[trigger] records@[i])@.len(),
                forall|c: int|
                    0 <= c < place ==> (#[trigger] columns@[c])@ == column_of(
                        self.field_types@[c],
                        rows(records@),
                        c,
                    ),
            decreases self.field_types.len() - place,
        {
            proof {
                assert forall|i: int| 0 <= i < rows(records@).len() implies place < (
                #[trigger] rows(records@)[i]).len() by {
                    assert(rows(records@)[i] == cells(records@[i]@));
                }
            }
            columns.push(build_column(self.field_types[place], records, place));
            place += 1;
        }
        proof {
            assert(columns@.map_values(|c: Column| c@) =~= columns_of(
                self@.field_types,
                rows(records@),
            ));
        }
        Some(columns)
    }

    /// Finishes the sink. Where the result is `true` the writer has to be closed, and
    /// `closed` is to be called when that has succeeded.
    pub fn finish(&mut self) -> (r: bool)
        requires
            old(self)@.wf(),
        ensures
            final(self)@.wf(),
            (r, final(self)@) == old(self)@.finish(),
    {
        if self.finished {
            false
        } else if self.open {
            self.open = false;
            true
        } else {
            self.finished = true;
            false
        }
    }

    /// Takes note that the writer was closed.
    pub fn closed(&mut self)
        requires
            old(self)@.wf(),
            !old(self)@.open,
        ensures
            final(self)@.wf(),
            final(self)@ == old(self)@.closed_off(),
    {
        self.finished = true;
    }
}

/// The value that a column holds for a record.
pub open spec fn value_at(column: ColumnView, i: int) -> TypedValueView {
    match column {
        ColumnView::Utf8(v) => match v[i] {
            Some(s) => TypedValueView::String(s),
            None => TypedValueView::Null,
        },
        ColumnView::Int32(v) => match v[i] {
            Some(n) => TypedValueView::Int32(n),
            None => TypedValueView::Null,
        },
        ColumnView::Int64(v) => match v[i] {
            Some(n) => TypedValueView::Int64(n),
            None => TypedValueView::Null,
        },
        ColumnView::Float64(v) => match v[i] {
            Some(bits) => TypedValueView::Double(bits),
            None => TypedValueView::Null,
        },
        ColumnView::Boolean(v) => match v[i] {
            Some(b) => TypedValueView::Bool(b),
            None => TypedValueView::Null,
        },
        ColumnView::TimestampMillisecondUtc(v) => match v[i] {
            Some(ms) => TypedValueView::TimestampMs(ms),
            None => TypedValueView::Null,
        },
    }
}

/// A column gives back the value of each record where that value fits the type of the
/// column, and `Null` where it does not.
pub proof fn law_columns_give_back_what_fits(
    types: Seq<FieldType>,
    records: Seq<Seq<TypedValueView>>,
    i: int,
    c: int,
)
    requires
        0 <= i < records.len(),
        0 <= c < types.len(),
    ensures
        value_at(columns_of(types, records)[c], i) == if records[i][c].fits(types[c]) {
            records[i][c]
        } else {
            TypedValueView::Null
        },
{
}

/// The values of two columns of one type, one after the other.
pub open spec fn joined(a: ColumnView, b: ColumnView) -> ColumnView {
    match (a, b) {
        (ColumnView::Utf8(x), ColumnView::Utf8(y)) => ColumnView::Utf8(x + y),
        (ColumnView::Int32(x), ColumnView::Int32(y)) => ColumnView::Int32(x + y),
        (ColumnView::Int64(x), ColumnView::Int64(y)) => ColumnView::Int64(x + y),
        (ColumnView::Float64(x), ColumnView::Float64(y)) => ColumnView::Float64(x + y),
        (ColumnView::Boolean(x), ColumnView::Boolean(y)) => ColumnView::Boolean(x + y),
        (
            ColumnView::TimestampMillisecondUtc(x),
            ColumnView::TimestampMillisecondUtc(y),
        ) => ColumnView::TimestampMillisecondUtc(x + y),
        _ => a,
    }
}

/// The columns of batches that are written one after the other, joined column by column.
pub open spec fn columns_of_batches(
    types: Seq<FieldType>,
    batches: Seq<Seq<Seq<TypedValueView>>>,
) -> Seq<ColumnView>
    decreases batches.len(),
{
    if batches.len() == 0 {
        columns_of(types, Seq::empty())
    } else {
        let rest = columns_of_batches(types, batches.drop_first());
        Seq::new(types.len(), |c: int| joined(columns_of(types, batches[0])[c], rest[c]))
    }
}

proof fn lemma_column_of_both(
    ty: FieldType,
    a: Seq<Seq<TypedValueView>>,
    b: Seq<Seq<TypedValueView>>,
    place: int,
)
    ensures
        column_of(ty, a + b, place) == joined(column_of(ty, a, place), column_of(ty, b, place)),
{
    let whole = column_of(ty, a + b, place);
    let parts = joined(column_of(ty, a, place), column_of(ty, b, place));
    match ty {
        FieldType::String => assert(whole->Utf8_0 =~= parts->Utf8_0),
        FieldType::Int32 => assert(whole->Int32_0 =~= parts->Int32_0),
        FieldType::Int64 => assert(whole->Int64_0 =~= parts->Int64_0),
        FieldType::Double => assert(whole->Float64_0 =~= parts->Float64_0),
        FieldType::Bool => assert(whole->Boolean_0 =~= parts->Boolean_0),
        FieldType::Timestamp => assert(whole->TimestampMillisecondUtc_0
            =~= parts->TimestampMillisecondUtc_0),
    }
}

/// Records may be written in batches: the columns of two batches, joined column by column,
/// are the columns of the batches joined.
pub proof fn law_columns_of_two_batches_join(
    types: Seq<FieldType>,
    a: Seq<Seq<TypedValueView>>,
    b: Seq<Seq<TypedValueView>>,
)
    ensures
        columns_of(types, a + b) == Seq::new(
            types.len(),
            |c: int| joined(columns_of(types, a)[c], columns_of(types, b)[c]),
        ),
{
    let parts = Seq::new(
        types.len(),
        |c: int| joined(columns_of(types, a)[c], columns_of(types, b)[c]),
    );
    assert forall|c: int| 0 <= c < types.len() implies columns_of(types, a + b)[c] == parts[c] by {
        lemma_column_of_both(types[c], a, b, c);
    }
    assert(columns_of(types, a + b) =~= parts);
}

/// However the records are divided into batches, the columns that are written hold them
/// all, in their order.
pub proof fn law_columns_do_not_depend_on_the_batches(
    types: Seq<FieldType>,
    batches: Seq<Seq<Seq<TypedValueView>>>,
)
    ensures
        columns_of_batches(types, batches) == columns_of(types, batches.flatten()),
    decreases batches.len(),
{
    if batches.len() == 0 {
        assert(batches.flatten() =~= Seq::<Seq<TypedValueView>>::empty());
    } else {
        let rest = batches.drop_first();
        law_columns_do_not_depend_on_the_batches(types, rest);
        law_columns_of_two_batches_join(types, batches[0], rest.flatten());
        assert(columns_of_batches(types, batches) =~= columns_of(types, batches.flatten()));
    }
}

/// After a request to finish no record can be written, so that none is silently lost,
/// whatever further requests follow.
pub proof fn law_finished_sink_takes_no_records(sink: ParquetSinkView, records: nat)
    requires
        sink.wf(),
        records > 0,
        sink.field_types.len() > 0,
    ensures
        !sink.finish().1.accepts(records),
        !sink.finish().1.finish().1.accepts(records),
        !(ParquetSinkView { finished: true, ..sink.finish().1 }).accepts(records),
{
}

/// The writer is closed once at most, whatever number of requests to finish there is:
/// after a request that has it closed, no further one does, whether closing it succeeded
/// or not.
pub proof fn law_the_writer_is_closed_once(sink: ParquetSinkView)
    requires
        sink.wf(),
        sink.finish().0,
    ensures
        !sink.finish().1.finish().0,
        sink.finish().1.finish().1 == (ParquetSinkView { finished: true, ..sink.finish().1 }),
        (ParquetSinkView { finished: true, ..sink.finish().1 }).finish() == (
            false,
            ParquetSinkView { finished: true, ..sink.finish().1 },
        ),
{
}

/// Each compression has a codec of its own, gzip at level 6 and Zstandard at level 3.
pub proof fn law_compressions_have_their_codecs(a: ParquetCompression, b: ParquetCompression)
    ensures
        codec_of(a) == codec_of(b) ==> a == b,
        a is Uncompressed ==> codec_of(a) is Uncompressed,
        a is Snappy ==> codec_of(a) is Snappy,
        a is Gzip ==> codec_of(a) == Codec::Gzip(6),
        a is Zstd ==> codec_of(a) == Codec::Zstd(3),
        a is Lz4 ==> codec_of(a) is Lz4,
{
}

/// Each field type has an Arrow type of its own.
pub proof fn law_field_types_have_their_column_types(a: FieldType, b: FieldType)
    ensures
        column_type(a) == column_type(b) ==> a == b,
        a is String ==> column_type(a) is Utf8,
        a is Int32 ==> column_type(a) is Int32,
        a is Int64 ==> column_type(a) is Int64,
        a is Double ==> column_type(a) is Float64,
        a is Bool ==> column_type(a) is Boolean,
        a is Timestamp ==> column_type(a) is TimestampMillisecondUtc,
{
}

/// The schema has one column for each field, in order, under its whole name; every column
/// may hold nothing.
pub proof fn law_schema_names_each_field(
    names: Seq<Seq<char>>,
    types: Seq<FieldType>,
    i: int,
)
    requires
        0 <= i < names.len(),
        names.len() == types.len(),
    ensures
        schema_of(names, types).len() == names.len(),
        schema_of(names, types)[i].name == names[i],
        schema_of(names, types)[i].data_type == column_type(types[i]),
        schema_of(names, types)[i].nullable,
{
}

/// The column of a field holds, for each record in turn, exactly the value that the record
/// has there, if that is of the type of the column, and else nothing.
pub proof fn law_columns_hold_the_values_of_their_type(
    types: Seq<FieldType>,
    records: Seq<Seq<TypedValueView>>,
    c: int,
    i: int,
)
    requires
        0 <= c < types.len(),
        0 <= i < records.len(),
    ensures
        columns_of(types, records).len() == types.len(),
        match columns_of(types, records)[c] {
            ColumnView::Utf8(v) => types[c] is String && v.len() == records.len() && match v[i] {
                Some(s) => records[i][c] == TypedValueView::String(s),
                None => !(records[i][c] is String),
            },
            ColumnView::Int32(v) => types[c] is Int32 && v.len() == records.len() && match v[i] {
                Some(n) => records[i][c] == TypedValueView::Int32(n),
                None => !(records[i][c] is Int32),
            },
            ColumnView::Int64(v) => types[c] is Int64 && v.len() == records.len() && match v[i] {
                Some(n) => records[i][c] == TypedValueView::Int64(n),
                None => !(records[i][c] is Int64),
            },
            ColumnView::Float64(v) => types[c] is Double && v.len() == records.len()
                && match v[i] {
                Some(bits) => records[i][c] == TypedValueView::Double(bits),
                None => !(records[i][c] is Double),
            },
            ColumnView::Boolean(v) => types[c] is Bool && v.len() == records.len() && match v[i] {
                Some(b) => records[i][c] == TypedValueView::Bool(b),
                None => !(records[i][c] is Bool),
            },
            ColumnView::TimestampMillisecondUtc(v) => types[c] is Timestamp && v.len()
                == records.len() && match v[i] {
                Some(ms) => records[i][c] == TypedValueView::TimestampMs(ms),
                None => !(records[i][c] is TimestampMs),
            },
        },
{
}

/// There is something to write for every batch but the empty one.
pub proof fn law_every_record_is_written(
    types: Seq<FieldType>,
    records: Seq<Seq<TypedValueView>>,
)
    ensures
        records.len() == 0 ==> batch_columns(types, records) is None,
        records.len() > 0 ==> batch_columns(types, records) == Some(columns_of(types, records)),
{
}

/// Records can be written exactly while the writer is open; nothing can always be.
pub proof fn law_records_are_written_while_the_writer_is_open(
    sink: ParquetSinkView,
    records: nat,
)
    ensures
        sink.open ==> sink.accepts(records),
        sink.accepts(0),
        !sink.open && records > 0 && sink.field_types.len() > 0 ==> !sink.accepts(records),
{
}

/// A request to finish has the writer closed exactly where it is open, gives it up, and
/// leaves the columns and the codec as they are. Where it is not open the sink is finished
/// by the request itself.
pub proof fn law_finish_closes_an_open_writer(sink: ParquetSinkView)
    requires
        sink.wf(),
    ensures
        sink.finish().0 <==> sink.open,
        !sink.finish().1.open,
        sink.finish().1.finished <==> !sink.open,
        sink.finish().1.schema == sink.schema,
        sink.finish().1.field_types == sink.field_types,
        sink.finish().1.codec == sink.codec,
{
}

/// A column is seen with all its values, and a column of a schema with its whole name.
pub proof fn law_columns_are_seen_whole(column: Column, field: SchemaField)
    ensures
        match column {
            Column::Utf8(v) => column@ matches ColumnView::Utf8(s) && s.len() == v@.len() && (
            forall|i: int| 0 <= i < v@.len() ==> #[trigger] s[i] == optional_text(v@[i])),
            Column::Int32(v) => column@ == ColumnView::Int32(v@),
            Column::Int64(v) => column@ == ColumnView::Int64(v@),
            Column::Float64(v) => column@ == ColumnView::Float64(v@),
            Column::Boolean(v) => column@ == ColumnView::Boolean(v@),
            Column::TimestampMillisecondUtc(v) => column@
                == ColumnView::TimestampMillisecondUtc(v@),
        },
        field@.name == field.name@,
        field@.data_type == field.data_type,
        field@.nullable == field.nullable,
{
}

/// A sink begins with its writer open, takes any number of records, and keeps the types and
/// the compression that it was made with.
pub proof fn law_sinks_begin_open(
    names: Seq<Seq<char>>,
    types: Seq<FieldType>,
    compression: ParquetCompression,
    records: nat,
)
    requires
        names.len() == types.len(),
    ensures
        ({
            let sink = ParquetSinkView::opened(names, types, compression);
            &&& sink.wf() && sink.accepts(records) && !sink.finished
            &&& sink.field_types == types
            &&& sink.schema == schema_of(names, types)
            &&& sink.codec == codec_of(compression)
            &&& sink.finish().0
        }),
{
}

/// A sink is finished when its writer was closed, and nothing else of it changes then.
pub proof fn law_closed_sinks_are_finished(sink: ParquetSinkView)
    ensures
        sink.closed_off().finished,
        sink.closed_off().finish() == (false, sink.closed_off()),
        sink.closed_off().open == sink.open,
        sink.closed_off().schema == sink.schema,
        sink.closed_off().field_types == sink.field_types,
        sink.closed_off().codec == sink.codec,
{
}

} // verus!
