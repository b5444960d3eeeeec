//! The run over a dump: documents in batches, and counts of what was processed.

use crate::text::{integer_text, unsigned_to_text};
use vstd::prelude::*;

verus! {

/// The size of the batches where `n` was asked for: one document at least.
pub open spec fn batch_size(n: nat) -> nat {
    if n == 0 {
        1
    } else {
        n
    }
}

/// Collects documents into batches of a fixed size.
pub struct Batcher {
    size: usize,
    pending: Vec<bson::Document>,
}

impl Batcher {
    /// The number of documents of a full batch.
    pub closed spec fn size(self) -> nat {
        self.size as nat
    }

    /// The documents that are in no batch yet.
    pub closed spec fn pending(self) -> Seq<bson::Document> {
        self.pending@
    }

    /// Whether there is room for another document.
    pub open spec fn wf(self) -> bool {
        self.pending().len() < self.size()
    }

    /// A batcher for batches of the given size, of one document at least.
    pub fn new(chunk_size: usize) -> (r: Batcher)
        ensures
            r.wf(),
            r.size() == batch_size(chunk_size as nat),
            r.pending() == Seq::<bson::Document>::empty(),
    {
        let size: usize = if chunk_size == 0 {
            1
        } else {
            chunk_size
        };
        Batcher { size, pending: Vec::new() }
    }

    /// Takes a document, and gives the batch that it completes, if it does.
    pub fn push(&mut self, doc: bson::Document) -> (r: Option<Vec<bson::Document>>)
        requires
            old(self).wf(),
        ensures
            final(self).wf(),
            final(self).size() == old(self).size(),
            match r {
                Some(batch) => batch@.len() == old(self).size() && batch@
                    == old(self).pending().push(doc) && final(self).pending()
                    == Seq::<bson::Document>::empty(),
                None => old(self).pending().len() + 1 < old(self).size() && final(self).pending()
                    == old(self).pending().push(doc),
            },
            forall|rest: Seq<bson::Document>|
                batches(old(self).pending() + seq![doc] + rest, old(self).size()) == match r {
                    Some(batch) => seq![batch@],
                    None => Seq::empty(),
                } + #[trigger] batches(final(self).pending() + rest, old(self).size()),
    {
        let ghost before = self.pending();
        let ghost size = self.size();
        self.pending.push(doc);
        if self.pending.len() >= self.size {
            let mut full: Vec<bson::Document> = Vec::new();
            std::mem::swap(&mut full, &mut self.pending);
            proof {
                assert forall|rest: Seq<bson::Document>|
                    batches(before + seq![doc] + rest, size) == seq![full@] + #[trigger] batches(
                        self.pending() + rest,
                        size,
                    ) by {
                    lemma_batches_step(before, doc, rest, size);
                    assert(self.pending() + rest =~= Seq::empty() + rest);
                }
            }
            Some(full)
        } else {
            proof {
                assert forall|rest: Seq<bson::Document>|
                    batches(before + seq![doc] + rest, size) == Seq::empty() + #[trigger] batches(
                        self.pending() + rest,
                        size,
                    ) by {
                    lemma_batches_step(before, doc, rest, size);
                    assert(Seq::empty() + batches(self.pending() + rest, size) =~= batches(
                        self.pending() + rest,
                        size,
                    ));
                }
            }
            None
        }
    }

    /// The last batch, if documents are left.
    pub fn finish(self) -> (r: Option<Vec<bson::Document>>)
        ensures
            match r {
                Some(batch) => batch@.len() > 0 && batch@ == self.pending(),
                None => self.pending().len() == 0,
            },
            self.wf() ==> batches(self.pending(), self.size()) == match r {
                Some(batch) => seq![batch@],
                None => Seq::empty(),
            },
    {
        if self.pending.len() == 0 {
            None
        } else {
            Some(self.pending)
        }
    }
}

/// The batches of some documents: full ones, and the rest, if any.
pub open spec fn batches<T>(documents: Seq<T>, size: nat) -> Seq<Seq<T>>
    decreases documents.len(),
{
    if size == 0 || documents.len() == 0 {
        Seq::empty()
    } else if documents.len() <= size {
        seq![documents]
    } else {
        seq![documents.take(size as int)] + batches(documents.skip(size as int), size)
    }
}

/// Batches keep every document, in order, and each but the last one is full.
pub proof fn law_batches_keep_every_document<T>(documents: Seq<T>, size: nat)
    requires
        size > 0,
    ensures
        batches(documents, size).flatten() == documents,
        forall|i: int|
            0 <= i < batches(documents, size).len() - 1 ==> (
            #[trigger] batches(documents, size)[i]).len() == size,
        forall|i: int|
            0 <= i < batches(documents, size).len() ==> 0 < (
            #[trigger] batches(documents, size)[i]).len() <= size,
    decreases documents.len(),
{
    let all = batches(documents, size);
    if documents.len() == 0 {
        assert(all.flatten() =~= documents);
    } else if documents.len() <= size {
        assert(all.drop_first() =~= Seq::empty());
        reveal_with_fuel(Seq::flatten, 2);
        assert(all.flatten() =~= documents);
    } else {
        let rest = documents.skip(size as int);
        law_batches_keep_every_document(rest, size);
        assert(all.drop_first() =~= batches(rest, size));
        assert(all.flatten() =~= documents.take(size as int) + rest);
        assert(documents.take(size as int) + rest =~= documents);
        assert forall|i: int| 0 <= i < all.len() - 1 implies (#[trigger] all[i]).len() == size by {
            if i > 0 {
                assert(all[i] == batches(rest, size)[i - 1]);
            }
        }
        assert forall|i: int| 0 <= i < all.len() implies 0 < (#[trigger] all[i]).len() <= size by {
            if i > 0 {
                assert(all[i] == batches(rest, size)[i - 1]);
            }
        }
    }
}

/// What a batcher gives for some documents, one after the other, and then at the end:
/// the batches that `push` completes, and the one that `finish` gives.
pub open spec fn pushed<T>(pending: Seq<T>, documents: Seq<T>, size: nat) -> Seq<Seq<T>>
    decreases documents.len(),
{
    if documents.len() == 0 {
        if pending.len() == 0 {
            Seq::empty()
        } else {
            seq![pending]
        }
    } else {
        let more = pending.push(documents[0]);
        if more.len() >= size {
            seq![more] + pushed(Seq::empty(), documents.drop_first(), size)
        } else {
            pushed(more, documents.drop_first(), size)
        }
    }
}

/// A batcher gives the batches of its documents.
pub proof fn law_batcher_gives_the_batches<T>(pending: Seq<T>, documents: Seq<T>, size: nat)
    requires
        pending.len() < size,
    ensures
        pushed(pending, documents, size) == batches(pending + documents, size),
    decreases documents.len(),
{
    let all = pending + documents;
    if documents.len() == 0 {
        assert(all =~= pending);
    } else {
        let more = pending.push(documents[0]);
        let rest = documents.drop_first();
        assert(all =~= more + rest);
        if more.len() >= size {
            law_batcher_gives_the_batches(Seq::empty(), rest, size);
            assert(Seq::<T>::empty() + rest =~= rest);
            assert(all.take(size as int) =~= more);
            assert(all.skip(size as int) =~= rest);
            if rest.len() == 0 {
                assert(all =~= more);
                assert(seq![more] + batches(rest, size) =~= seq![more]);
            }
        } else {
            law_batcher_gives_the_batches(more, rest, size);
        }
    }
}

proof fn lemma_batches_step<T>(pending: Seq<T>, document: T, rest: Seq<T>, size: nat)
    requires
        pending.len() < size,
    ensures
        batches(pending + seq![document] + rest, size) == if pending.len() + 1 >= size {
            seq![pending.push(document)] + batches(Seq::empty() + rest, size)
        } else {
            batches(pending.push(document) + rest, size)
        },
{
    let all = pending + seq![document] + rest;
    assert(all =~= pending.push(document) + rest);
    assert(Seq::<T>::empty() + rest =~= rest);
    if pending.len() + 1 >= size {
        assert(all.take(size as int) =~= pending.push(document));
        assert(all.skip(size as int) =~= rest);
        if rest.len() == 0 {
            assert(all =~= pending.push(document));
            assert(seq![all] + batches(rest, size) =~= seq![all]);
        }
    }
}

/// The number of batches is the number of documents divided by the size, rounded up, and
/// each batch holds the documents from so many sizes on.
pub proof fn law_batches_are_cut_at_multiples_of_the_size<T>(
    documents: Seq<T>,
    size: nat,
    i: int,
    j: int,
)
    requires
        size > 0,
        0 <= i,
        0 <= j < size,
        i * size + j < documents.len(),
    ensures
        i < batches(documents, size).len(),
        j < batches(documents, size)[i].len(),
        batches(documents, size)[i][j] == documents[i * size + j],
    decreases documents.len(),
{
    if i > 0 {
        assert(i * size == size + (i - 1) * size && (i - 1) * size >= 0) by (nonlinear_arith)
            requires
                i > 0,
        ;
        let rest = documents.skip(size as int);
        law_batches_are_cut_at_multiples_of_the_size(rest, size, i - 1, j);
    }
}

/// The state of a `Progress`.
pub struct ProgressView {
    pub every: int,
    pub total: int,
    pub kept: int,
    pub last_reported: int,
}

impl ProgressView {
    /// Whether what was reported last lies behind, and no more was kept than processed.
    pub open spec fn wf(self) -> bool {
        0 <= self.last_reported <= self.total && 0 <= self.kept <= self.total
    }

    /// No documents yet, and a report every so many documents.
    pub open spec fn begun(every: int) -> ProgressView {
        ProgressView { every, total: 0, kept: 0, last_reported: 0 }
    }

    /// After another batch: the counts, and whether they are to be reported, which is
    /// where so many documents were processed since the last report; never where that
    /// number is 0.
    pub open spec fn added(self, total: int, kept: int) -> (ProgressView, bool) {
        let next = ProgressView { total: self.total + total, kept: self.kept + kept, ..self };
        if self.every > 0 && next.total - next.last_reported >= self.every {
            (ProgressView { last_reported: next.total, ..next }, true)
        } else {
            (next, false)
        }
    }

    /// The line that reports the counts.
    pub open spec fn report(self) -> Seq<char> {
        "Processed "@ + integer_text(self.total) + " documents, kept "@ + integer_text(self.kept)
    }

    /// The line that closes the run.
    pub open spec fn summary(self) -> Seq<char> {
        "Done. Total: "@ + integer_text(self.total) + " documents, kept: "@ + integer_text(
            self.kept,
        )
    }
}

/// Counts the documents that were processed and kept.
#[derive(Debug)]
pub struct Progress {
    every: u64,
    total: u64,
    kept: u64,
    last_reported: u64,
}

impl View for Progress {
    type V = ProgressView;

    closed spec fn view(&self) -> ProgressView {
        ProgressView {
            every: self.every as int,
            total: self.total as int,
            kept: self.kept as int,
            last_reported: self.last_reported as int,
        }
    }
}

impl Progress {
    /// No documents yet; a report is due every so many documents, never for 0.
    pub fn new(every: u64) -> (r: Progress)
        ensures
            r@.wf(),
            r@ == ProgressView::begun(every as int),
    {
        Progress { every, total: 0, kept: 0, last_reported: 0 }
    }

    /// The number of documents that were processed.
    pub fn total(&self) -> (r: u64)
        ensures
            r == self@.total,
    {
        self.total
    }

    /// Counts a batch, and gives the line to report, if a report is due.
    pub fn add_batch(&mut self, total: u64, kept: u64) -> (r: Option<String>)
        requires
            old(self)@.wf(),
            kept <= total,
            old(self)@.total + total <= u64::MAX,
        ensures
            final(self)@.wf(),
            final(self)@ == old(self)@.added(total as int, kept as int).0,
            match r {
                Some(line) => old(self)@.added(total as int, kept as int).1 && line@
                    == final(self)@.report(),
                None => !old(self)@.added(total as int, kept as int).1,
            },
    {
        self.kept = self.kept + kept;
        self.total = self.total + total;
        if self.every > 0 && self.total - self.last_reported >= self.every {
            self.last_reported = self.total;
            let total = unsigned_to_text(self.total);
            let kept = unsigned_to_text(self.kept);
            Some(
                "Processed ".to_owned().concat(total.as_str()).concat(" documents, kept ").concat(
                    kept.as_str(),
                ),
            )
        } else {
            None
        }
    }

    /// The line that closes the run.
    pub fn summary(&self) -> (r: String)
        ensures
            r@ == self@.summary(),
    {
        let total = unsigned_to_text(self.total);
        let kept = unsigned_to_text(self.kept);
        "Done. Total: ".to_owned().concat(total.as_str()).concat(" documents, kept: ").concat(
            kept.as_str(),
        )
    }
}

/// After each batch, fewer documents are unreported than a report is due for.
pub proof fn law_progress_is_reported_in_time(p: ProgressView, total: int, kept: int)
    requires
        p.wf(),
        p.every > 0,
        0 <= kept <= total,
    ensures
        p.added(total, kept).0.wf(),
        p.added(total, kept).0.total - p.added(total, kept).0.last_reported < p.every,
        p.added(total, kept).1 ==> p.added(total, kept).0.total - p.last_reported >= p.every,
{
}

/// Batches add up: every document that was processed or kept is counted once, whatever is
/// reported in between.
pub proof fn law_counts_add_up(p: ProgressView, total: int, kept: int, t: int, k: int)
    ensures
        p.added(total, kept).0.total == p.total + total,
        p.added(total, kept).0.kept == p.kept + kept,
        p.added(total, kept).0.every == p.every,
        p.added(total, kept).0.added(t, k).0.total == p.added(total + t, kept + k).0.total,
        p.added(total, kept).0.added(t, k).0.kept == p.added(total + t, kept + k).0.kept,
{
}

/// A report is due exactly where at least so many documents were processed since the last
/// one, and never where that number is 0; it is the last one then, and else the last one
/// stays.
pub proof fn law_reports_are_due_after_so_many_documents(p: ProgressView, total: int, kept: int)
    ensures
        p.added(total, kept).1 <==> p.every > 0 && p.total + total >= p.last_reported + p.every,
        p.every == 0 ==> !p.added(total, kept).1,
        p.added(total, kept).1 ==> p.added(total, kept).0.last_reported == p.total + total,
        !p.added(total, kept).1 ==> p.added(total, kept).0.last_reported == p.last_reported,
{
}

/// The lines hold both counts, in digits.
pub proof fn law_lines_hold_the_counts(p: ProgressView)
    ensures
        p.report() == "Processed "@ + integer_text(p.total) + " documents, kept "@ + integer_text(
            p.kept,
        ),
        p.summary() == "Done. Total: "@ + integer_text(p.total) + " documents, kept: "@
            + integer_text(p.kept),
{
}

/// Batches are of the size that was asked for, but never empty.
pub proof fn law_batches_are_of_the_size_asked_for(n: nat)
    ensures
        n > 0 ==> batch_size(n) == n,
        batch_size(0) == 1,
{
}

/// At the start nothing is counted, and the first report is due after as many documents as
/// were asked for.
pub proof fn law_first_report_is_due_in_time(every: int, total: int, kept: int)
    requires
        every >= 0,
        0 <= kept <= total,
    ensures
        ProgressView::begun(every).wf(),
        ProgressView::begun(every).added(total, kept).0.total == total,
        ProgressView::begun(every).added(total, kept).0.kept == kept,
        ProgressView::begun(every).added(total, kept).1 <==> every > 0 && total >= every,
{
}

} // verus!
