//! From documents to rows: which documents are kept, and which cells they give.

use crate::document::{
    document_fields, flattened, get_flattened, law_text_at_a_path_is_that_of_the_value, lookup,
    Node,
};
use crate::filter::ValueSet;
use crate::text::{equal, row_texts, texts};
use crate::value::ValueView;
use vstd::prelude::*;

verus! {

/// A filter on one field, with its texts as sequences of characters.
pub open spec fn filter_view(filter: Option<(String, String)>) -> Option<(Seq<char>, Seq<char>)> {
    match filter {
        Some((key, value)) => Some((key@, value@)),
        None => None,
    }
}

/// Set filters, with their keys as sequences of characters.
pub open spec fn set_filter_views(filters: Seq<(String, ValueSet)>) -> Seq<
    (Seq<char>, Set<Seq<char>>),
> {
    filters.map_values(|f: (String, ValueSet)| (f.0@, f.1@))
}

/// Whether the text at a path is there and in the set.
pub open spec fn is_in(
    fields: Map<Seq<char>, Node>,
    path: Seq<char>,
    values: Set<Seq<char>>,
) -> bool {
    flattened(fields, path) matches Some(text) && values.contains(text)
}

/// Whether a document is kept: where there is a filter, the text at its key is there and
/// equal to its value, and the text at the key of each set filter is there and in its set.
pub open spec fn is_kept(
    fields: Map<Seq<char>, Node>,
    filter: Option<(Seq<char>, Seq<char>)>,
    sets: Seq<(Seq<char>, Set<Seq<char>>)>,
) -> bool {
    &&& filter matches Some((key, value)) ==> flattened(fields, key) == Some(value)
    &&& forall|i: int|
        0 <= i < sets.len() ==> is_in(fields, (#[trigger] sets[i]).0, sets[i].1)
}

/// The row of a document: the text at each path, which is empty where the path does not
/// exist.
pub open spec fn row_of(fields: Map<Seq<char>, Node>, paths: Seq<Seq<char>>) -> Seq<Seq<char>> {
    paths.map_values(
        |path: Seq<char>|
            match flattened(fields, path) {
                Some(text) => text,
                None => Seq::empty(),
            },
    )
}

/// The row of a document, where the document is kept.
pub fn process_document(
    doc: &bson::Document,
    fields: &[String],
    filter: &Option<(String, String)>,
    set_filters: &[(String, ValueSet)],
) -> (r: Option<Vec<String>>)
    ensures
        match r {
            Some(row) => is_kept(
                document_fields(*doc),
                filter_view(*filter),
                set_filter_views(set_filters@),
            ) && texts(row@) == row_of(document_fields(*doc), texts(fields@)),
            None => !is_kept(
                document_fields(*doc),
                filter_view(*filter),
                set_filter_views(set_filters@),
            ),
        },
{
    if let Some((key, expected)) = filter {
        match get_flattened(doc, key.as_str()) {
            Some(v) => if !equal(v.as_str(), expected.as_str()) {
                return None;
            },
            None => {
                return None;
            },
        }
    }
    let ghost sets = set_filter_views(set_filters@);
    let mut i: usize = 0;
    while i < set_filters.len()
        invariant
            i <= set_filters.len(),
            sets == set_filter_views(set_filters@),
            filter_view(*filter) matches Some((key, value)) ==> flattened(
                document_fields(*doc),
                key,
            ) == Some(value),
            forall|j: int|
                0 <= j < i ==> is_in(document_fields(*doc), (#[trigger] sets[j]).0, sets[j].1),
        decreases set_filters.len() - i,
    {
        proof {
            assert(sets[i as int] == (set_filters@[i as int].0@, set_filters@[i as int].1@));
        }
        match get_flattened(doc, set_filters[i].0.as_str()) {
            Some(v) => if !set_filters[i].1.contains(v.as_str()) {
                return None;
            },
            None => {
                return None;
            },
        }
        i += 1;
    }
    let ghost paths = texts(fields@);
    let mut row: Vec<String> = Vec::new();
    let mut j: usize = 0;
    while j < fields.len()
        invariant
            j <= fields.len(),
            paths == texts(fields@),
            row.len() == j,
            forall|k: int|
                0 <= k < j ==> (#[trigger] row@[k])@ == row_of(document_fields(*doc), paths)[k],
        decreases fields.len() - j,
    {
        proof {
            assert(paths[j as int] == fields@[j as int]@);
        }
        row.push(
            match get_flattened(doc, fields[j].as_str()) {
                Some(text) => text,
                None => String::new(),
            },
        );
        j += 1;
    }
    proof {
        assert(texts(row@) =~= row_of(document_fields(*doc), paths));
    }
    Some(row)
}

/// What some documents hold.
pub open spec fn all_fields(docs: Seq<bson::Document>) -> Seq<Map<Seq<char>, Node>> {
    docs.map_values(|doc: bson::Document| document_fields(doc))
}

/// The rows of the documents that are kept, in the order of the documents.
pub open spec fn rows_of(
    docs: Seq<Map<Seq<char>, Node>>,
    paths: Seq<Seq<char>>,
    filter: Option<(Seq<char>, Seq<char>)>,
    sets: Seq<(Seq<char>, Set<Seq<char>>)>,
) -> Seq<Seq<Seq<char>>>
    decreases docs.len(),
{
    if docs.len() == 0 {
        Seq::empty()
    } else {
        let before = rows_of(docs.drop_last(), paths, filter, sets);
        if is_kept(docs.last(), filter, sets) {
            before.push(row_of(docs.last(), paths))
        } else {
            before
        }
    }
}

/// What comes of the documents of a chunk: the rows of those that are kept, and the number
/// of all of them.
pub open spec fn processed(
    docs: Seq<Map<Seq<char>, Node>>,
    paths: Seq<Seq<char>>,
    filter: Option<(Seq<char>, Seq<char>)>,
    sets: Seq<(Seq<char>, Set<Seq<char>>)>,
) -> (Seq<Seq<Seq<char>>>, int) {
    (rows_of(docs, paths, filter, sets), docs.len() as int)
}

/// What came of two chunks, one after the other.
pub open spec fn appended(
    first: (Seq<Seq<Seq<char>>>, int),
    next: (Seq<Seq<Seq<char>>>, int),
) -> (Seq<Seq<Seq<char>>>, int) {
    (first.0 + next.0, first.1 + next.1)
}

/// A processed chunk ready to be written to CSV.
#[derive(Debug)]
pub struct ProcessedChunk {
    /// Records to write (already filtered, in document order).
    pub records: Vec<Vec<String>>,
    /// Total documents read in the chunk (for stats).
    pub total: u64,
}

/// The rows of the documents of a chunk that are kept, in the order of the documents.
pub fn process_chunk(
    docs: &[bson::Document],
    fields: &[String],
    filter: &Option<(String, String)>,
    set_filters: &[(String, ValueSet)],
) -> (r: ProcessedChunk)
    ensures
        (row_texts(r.records@), r.total as int) == processed(
            all_fields(docs@),
            texts(fields@),
            filter_view(*filter),
            set_filter_views(set_filters@),
        ),
{
    let mut records: Vec<Vec<String>> = Vec::new();
    let ghost all = all_fields(docs@);
    let ghost paths = texts(fields@);
    let ghost one = filter_view(*filter);
    let ghost sets = set_filter_views(set_filters@);
    proof {
        assert(row_texts(records@) =~= rows_of(all.take(0), paths, one, sets));
    }
    let mut i: usize = 0;
    while i < docs.len()
        invariant
            i <= docs.len(),
            all == all_fields(docs@),
            paths == texts(fields@),
            one == filter_view(*filter),
            sets == set_filter_views(set_filters@),
            row_texts(records@) == rows_of(all.take(i as int), paths, one, sets),
        decreases docs.len() - i,
    {
        proof {
            assert(all.take(i + 1).drop_last() =~= all.take(i as int));
            assert(all.take(i + 1).last() == document_fields(docs@[i as int]));
        }
        if let Some(row) = process_document(&docs[i], fields, filter, set_filters) {
            let ghost before = records@;
            records.push(row);
            proof {
                assert(row_texts(records@) =~= row_texts(before).push(texts(row@)));
            }
        }
        i += 1;
    }
    proof {
        assert(all.take(i as int) =~= all);
    }
    ProcessedChunk { records, total: docs.len() as u64 }
}

impl ProcessedChunk {
    /// Adds the chunk that follows.
    pub fn append(&mut self, mut next: ProcessedChunk)
        requires
            old(self).total + next.total <= u64::MAX,
        ensures
            (row_texts(final(self).records@), final(self).total as int) == appended(
                (row_texts(old(self).records@), old(self).total as int),
                (row_texts(next.records@), next.total as int),
            ),
    {
        let ghost before = self.records@;
        let ghost more = next.records@;
        self.records.append(&mut next.records);
        self.total = self.total + next.total;
        proof {
            assert(row_texts(self.records@) =~= row_texts(before) + row_texts(more));
        }
    }
}

/// Documents may be processed in parts: the rows of two parts, one after the other, are
/// the rows of the whole.
pub proof fn law_parts_keep_the_order(
    first: Seq<Map<Seq<char>, Node>>,
    second: Seq<Map<Seq<char>, Node>>,
    paths: Seq<Seq<char>>,
    filter: Option<(Seq<char>, Seq<char>)>,
    sets: Seq<(Seq<char>, Set<Seq<char>>)>,
)
    ensures
        rows_of(first + second, paths, filter, sets) == rows_of(first, paths, filter, sets)
            + rows_of(second, paths, filter, sets),
    decreases second.len(),
{
    let all = first + second;
    if second.len() == 0 {
        assert(all =~= first);
        assert(rows_of(first, paths, filter, sets) + rows_of(second, paths, filter, sets)
            =~= rows_of(first, paths, filter, sets));
    } else {
        law_parts_keep_the_order(first, second.drop_last(), paths, filter, sets);
        assert(all.drop_last() =~= first + second.drop_last());
        assert(all.last() == second.last());
        assert(rows_of(all, paths, filter, sets) =~= rows_of(first, paths, filter, sets)
            + rows_of(second, paths, filter, sets));
    }
}

/// However the documents are divided into chunks, the rows of the chunks, one after the
/// other, are the rows of all documents.
pub proof fn law_chunks_do_not_matter(
    chunks: Seq<Seq<Map<Seq<char>, Node>>>,
    paths: Seq<Seq<char>>,
    filter: Option<(Seq<char>, Seq<char>)>,
    sets: Seq<(Seq<char>, Set<Seq<char>>)>,
)
    ensures
        chunks.map_values(
            |docs: Seq<Map<Seq<char>, Node>>| rows_of(docs, paths, filter, sets),
        ).flatten() == rows_of(chunks.flatten(), paths, filter, sets),
    decreases chunks.len(),
{
    let rows = chunks.map_values(
        |docs: Seq<Map<Seq<char>, Node>>| rows_of(docs, paths, filter, sets),
    );
    if chunks.len() == 0 {
        assert(rows.flatten() =~= Seq::empty());
    } else {
        let rest = chunks.drop_first();
        law_chunks_do_not_matter(rest, paths, filter, sets);
        assert(rows.drop_first() =~= rest.map_values(
            |docs: Seq<Map<Seq<char>, Node>>| rows_of(docs, paths, filter, sets),
        ));
        law_parts_keep_the_order(chunks[0], rest.flatten(), paths, filter, sets);
    }
}

/// Every row has a cell for each path, so no row is refused for its length after a header
/// of the paths.
pub proof fn law_rows_have_a_cell_for_each_path(
    docs: Seq<Map<Seq<char>, Node>>,
    paths: Seq<Seq<char>>,
    filter: Option<(Seq<char>, Seq<char>)>,
    sets: Seq<(Seq<char>, Set<Seq<char>>)>,
)
    ensures
        rows_of(docs, paths, filter, sets).len() <= docs.len(),
        forall|i: int|
            0 <= i < rows_of(docs, paths, filter, sets).len() ==> (
            #[trigger] rows_of(docs, paths, filter, sets)[i]).len() == paths.len(),
    decreases docs.len(),
{
    if docs.len() > 0 {
        law_rows_have_a_cell_for_each_path(docs.drop_last(), paths, filter, sets);
    }
}

/// Without filters every document gives its row.
pub proof fn law_without_filters_all_are_kept(
    docs: Seq<Map<Seq<char>, Node>>,
    paths: Seq<Seq<char>>,
)
    ensures
        rows_of(docs, paths, None, Seq::empty()) == docs.map_values(
            |fields: Map<Seq<char>, Node>| row_of(fields, paths),
        ),
    decreases docs.len(),
{
    let rows = docs.map_values(|fields: Map<Seq<char>, Node>| row_of(fields, paths));
    if docs.len() > 0 {
        law_without_filters_all_are_kept(docs.drop_last(), paths);
        assert(rows.drop_last() =~= docs.drop_last().map_values(
            |fields: Map<Seq<char>, Node>| row_of(fields, paths),
        ));
        assert(rows =~= rows.drop_last().push(row_of(docs.last(), paths)));
    } else {
        assert(rows =~= Seq::empty());
    }
}

/// A set filter keeps a document exactly where the other filters keep it and the text at
/// its key is in its set: the filters are combined by AND.
pub proof fn law_filters_are_combined_by_and(
    fields: Map<Seq<char>, Node>,
    filter: Option<(Seq<char>, Seq<char>)>,
    sets: Seq<(Seq<char>, Set<Seq<char>>)>,
    key: Seq<char>,
    values: Set<Seq<char>>,
)
    ensures
        is_kept(fields, filter, sets.push((key, values))) == (is_kept(fields, filter, sets)
            && is_in(fields, key, values)),
{
    let more = sets.push((key, values));
    assert(more[sets.len() as int] == (key, values));
    assert forall|i: int| 0 <= i < sets.len() implies more[i] == sets[i] by {}
    if is_kept(fields, filter, more) {
        assert forall|i: int| 0 <= i < sets.len() implies is_in(
            fields,
            (#[trigger] sets[i]).0,
            sets[i].1,
        ) by {
            assert(is_in(fields, more[i].0, more[i].1));
        }
    }
}

/// An equality filter is a set filter with the one value.
pub proof fn law_equality_is_membership_in_one_value(
    fields: Map<Seq<char>, Node>,
    key: Seq<char>,
    value: Seq<char>,
)
    ensures
        is_kept(fields, Some((key, value)), Seq::empty()) == is_kept(
            fields,
            None,
            seq![(key, set![value])],
        ),
{
    let sets = seq![(key, set![value])];
    assert(sets[0] == (key, set![value]));
    if is_kept(fields, None, sets) {
        assert(is_in(fields, sets[0].0, sets[0].1));
    }
}

/// A row has a cell for each path, and each cell depends on its own path alone.
pub proof fn law_cells_are_independent(
    fields: Map<Seq<char>, Node>,
    before: Seq<Seq<char>>,
    after: Seq<Seq<char>>,
)
    ensures
        row_of(fields, before + after) == row_of(fields, before) + row_of(fields, after),
        row_of(fields, before).len() == before.len(),
{
    assert(row_of(fields, before + after) =~= row_of(fields, before) + row_of(fields, after));
}

/// A filter `key=value` keeps a document exactly where the text at the key is there and is
/// the value, character by character; without filters every document is kept.
pub proof fn law_filter_keeps_equal_texts(
    fields: Map<Seq<char>, Node>,
    key: Seq<char>,
    value: Seq<char>,
)
    ensures
        is_kept(fields, Some((key, value)), Seq::empty()) <==> flattened(fields, key) == Some(
            value,
        ),
        is_kept(fields, None, Seq::empty()),
{
}

/// A set filter keeps a document exactly where the text at its key is there and the set
/// holds that very text.
pub proof fn law_set_filter_keeps_texts_of_the_set(
    fields: Map<Seq<char>, Node>,
    key: Seq<char>,
    values: Set<Seq<char>>,
)
    ensures
        is_kept(fields, None, seq![(key, values)]) <==> match flattened(fields, key) {
            Some(text) => values.contains(text),
            None => false,
        },
{
    let sets = seq![(key, values)];
    assert(sets[0] == (key, values));
    if is_kept(fields, None, sets) {
        assert(is_in(fields, sets[0].0, sets[0].1));
    }
}

/// A document is kept by a filter and set filters together exactly where each of them keeps
/// it by itself.
pub proof fn law_each_filter_has_its_say(
    fields: Map<Seq<char>, Node>,
    key: Seq<char>,
    value: Seq<char>,
    sets: Seq<(Seq<char>, Set<Seq<char>>)>,
)
    ensures
        is_kept(fields, Some((key, value)), sets) <==> flattened(fields, key) == Some(value)
            && is_kept(fields, None, sets),
        is_kept(fields, None, sets) <==> forall|i: int|
            0 <= i < sets.len() ==> match flattened(fields, (#[trigger] sets[i]).0) {
                Some(text) => sets[i].1.contains(text),
                None => false,
            },
{
    if is_kept(fields, None, sets) {
        assert forall|i: int| 0 <= i < sets.len() implies match flattened(
            fields,
            (#[trigger] sets[i]).0,
        ) {
            Some(text) => sets[i].1.contains(text),
            None => false,
        } by {
            assert(is_in(fields, sets[i].0, sets[i].1));
        }
    }
}

/// Each cell of a row is the whole text at its path, and empty where there is none.
pub proof fn law_cells_are_the_texts_at_the_paths(
    fields: Map<Seq<char>, Node>,
    paths: Seq<Seq<char>>,
    i: int,
)
    requires
        0 <= i < paths.len(),
    ensures
        row_of(fields, paths).len() == paths.len(),
        forall|text: Seq<char>|
            flattened(fields, paths[i]) == Some(text) ==> #[trigger] row_of(fields, paths)[i]
                == text,
        flattened(fields, paths[i]) is None ==> row_of(fields, paths)[i].len() == 0,
{
}

/// A text in a document stands whole in the cell of its path.
pub proof fn law_texts_stand_whole_in_their_cells(
    fields: Map<Seq<char>, Node>,
    paths: Seq<Seq<char>>,
    i: int,
    s: Seq<char>,
)
    requires
        0 <= i < paths.len(),
        lookup(fields, paths[i]) == Some(Node::Leaf(ValueView::String(s))),
    ensures
        row_of(fields, paths)[i] == s,
        is_kept(fields, Some((paths[i], s)), Seq::empty()),
{
    law_text_at_a_path_is_that_of_the_value(fields, paths[i]);
}

/// A document that is kept gives one row, its own, behind the rows of the documents before
/// it; one that is not kept gives none.
pub proof fn law_kept_documents_give_their_rows(
    before: Seq<Map<Seq<char>, Node>>,
    fields: Map<Seq<char>, Node>,
    paths: Seq<Seq<char>>,
    filter: Option<(Seq<char>, Seq<char>)>,
    sets: Seq<(Seq<char>, Set<Seq<char>>)>,
)
    ensures
        rows_of(Seq::empty(), paths, filter, sets).len() == 0,
        is_kept(fields, filter, sets) ==> rows_of(before.push(fields), paths, filter, sets)
            == rows_of(before, paths, filter, sets) + seq![row_of(fields, paths)],
        !is_kept(fields, filter, sets) ==> rows_of(before.push(fields), paths, filter, sets)
            == rows_of(before, paths, filter, sets),
{
    assert(before.push(fields).drop_last() =~= before);
    assert(rows_of(before, paths, filter, sets).push(row_of(fields, paths)) =~= rows_of(
        before,
        paths,
        filter,
        sets,
    ) + seq![row_of(fields, paths)]);
}

/// Filters are seen with the whole of their texts, and documents with all their fields, each
/// in its place.
pub proof fn law_filters_and_documents_are_seen_whole(
    key: String,
    value: String,
    filters: Seq<(String, ValueSet)>,
    docs: Seq<bson::Document>,
    i: int,
)
    ensures
        filter_view(Some((key, value))) == Some((key@, value@)),
        filter_view(None) is None,
        set_filter_views(filters).len() == filters.len(),
        0 <= i < filters.len() ==> set_filter_views(filters)[i] == (filters[i].0@, filters[i].1@),
        all_fields(docs).len() == docs.len(),
        0 <= i < docs.len() ==> all_fields(docs)[i] == document_fields(docs[i]),
{
}

/// A chunk counts every document, kept or not, and gives the rows of those that are kept.
/// Two chunks, one appended to the other, are as one chunk of the documents of both.
pub proof fn law_appended_chunks_are_as_one(
    first: Seq<Map<Seq<char>, Node>>,
    second: Seq<Map<Seq<char>, Node>>,
    paths: Seq<Seq<char>>,
    filter: Option<(Seq<char>, Seq<char>)>,
    sets: Seq<(Seq<char>, Set<Seq<char>>)>,
)
    ensures
        processed(first, paths, filter, sets).0 == rows_of(first, paths, filter, sets),
        processed(first, paths, filter, sets).1 == first.len(),
        appended(
            processed(first, paths, filter, sets),
            processed(second, paths, filter, sets),
        ) == processed(first + second, paths, filter, sets),
{
    law_parts_keep_the_order(first, second, paths, filter, sets);
}

/// Appended rows stand behind those that were there, all of them in their order, and the
/// counts add up.
pub proof fn law_appended_rows_stand_behind(
    first: (Seq<Seq<Seq<char>>>, int),
    next: (Seq<Seq<Seq<char>>>, int),
)
    ensures
        appended(first, next).0 == first.0 + next.0,
        appended(first, next).1 == first.1 + next.1,
{
}

} // verus!
