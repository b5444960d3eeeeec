# bson2csv

Converts BSON dumps (concatenated documents, as `mongodump` writes them) to CSV, with
field selection by dotted paths and filtering, and typed rows to CSV or Parquet chunk
files. The logic is a library that is verified with [Verus](https://github.com/verus-lang/verus);
files, threads, the command line and the Parquet file writer are ordinary Rust around it.

## Layout

- `src/`: the verified library.
  - `text`: splitting, trimming, decimal numbers and placeholders, on sequences of characters.
  - `double`: double-precision numbers by their bits.
  - `field_type`: column types and `name:type` declarations.
  - `value`: single values, their texts, and their coercion to a column type.
  - `document`: BSON documents and dotted paths.
  - `frame`: cutting a stream of bytes into documents.
  - `filter`: arguments and files of filters.
  - `record`: which documents are kept, and their rows.
  - `pipeline`: batches of documents and progress counts.
  - `csv_sink`, `parquet_sink`: rows as CSV bytes and as Parquet columns.
  - `rotating_sink`: splitting output into chunk files, and the upload hook.
- `tests/`: tests of the library.
- `app/`: the command line tool, the sinks that do the input and output, and a generator of
  sample dumps.

## What is proved and what is trusted

Each public function states its result in an `ensures` clause over mathematical models:
a text is a `Seq<char>`, a document is a map from field names to values, a stream is a
`Seq<u8>`. The functions named `law_..` are theorems about the library as a whole, such as
that a stream is cut into the same documents whatever number of bytes each read delivers,
that the rows of a CSV file are read back from it, or that row `k` of a split output is in
chunk `k / max_rows`.

The functions marked `#[verifier::external_body]` call the crates `bson`, `csv` and
`parquet`, or `std`. Their contracts are trusted; the comment above each says what it
claims of the outside function. Where the result of an outside function takes pages to
state it has a name, such as `decoded` for the document that some bytes encode.

Doubles are held by their 64 bits. The text of a double and the double that a text spells
come from outside; conversion between doubles and integers is proved.

In `app/` nothing is verified: it performs what the library decides and hands back what
came of it.
