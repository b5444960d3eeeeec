//! Splitting the output into chunk files by a number of rows, with a command that is run
//! on each chunk file after it is closed, typically to upload it.

use crate::text::{
    from_chars, index_to_text, law_first_occurrence_is_replaced, law_five_digits,
    law_nothing_to_replace, law_padded_is_read_back, law_padded_numbers_sort, law_padding_is_zeros,
    occurs, optional_text, padded, replace, replace_text, sorts_before, to_chars,
};
use vstd::prelude::*;

verus! {

/// The place of the last dot, or -1.
pub open spec fn last_dot(s: Seq<char>) -> int
    decreases s.len(),
{
    if s.len() == 0 {
        -1
    } else if s.last() == '.' {
        s.len() - 1
    } else {
        last_dot(s.drop_last())
    }
}

/// A file name without its extension: what stands before the last dot, or the whole name
/// where it has no dot but one that it begins with. Without a name it is `part`.
pub open spec fn file_stem(file_name: Option<Seq<char>>) -> Seq<char> {
    match file_name {
        None => "part"@,
        Some(name) => if name == ".."@ || last_dot(name) <= 0 {
            name
        } else {
            name.take(last_dot(name))
        },
    }
}

/// The name of the chunk file with the given index: `<stem>-NNNNN.<extension>`.
pub open spec fn chunk_name(stem: Seq<char>, index: nat, extension: Seq<char>) -> Seq<char> {
    stem + "-"@ + padded(index, 5) + "."@ + extension
}

/// The command for a chunk file: the template with the path in place of each `{file}`,
/// and then with the index, padded to five digits, in place of each `{index}`.
pub open spec fn upload_text(template: Seq<char>, path: Seq<char>, index: nat) -> Seq<char> {
    replace(replace(template, "{file}"@, path), "{index}"@, padded(index, 5))
}

fn stem_of(file_name: Option<&str>) -> (r: String)
    ensures
        r@ == file_stem(
            match file_name {
                Some(name) => Some(name@),
                None => None,
            },
        ),
{
    match file_name {
        None => "part".to_owned(),
        Some(name) => {
            let chars = to_chars(name);
            let mut end: usize = chars.len();
            proof {
                assert(chars@.take(end as int) =~= chars@);
            }
            while end > 0 && chars[end - 1] != '.'
                invariant
                    end <= chars.len(),
                    last_dot(chars@.take(end as int)) == last_dot(chars@),
                ensures
                    end == last_dot(chars@) + 1,
                    end <= chars.len(),
                decreases end,
            {
                proof {
                    assert(chars@.take(end as int).drop_last() =~= chars@.take(end - 1));
                }
                end -= 1;
            }
            proof {
                reveal_strlit("..");
            }
            let dots = chars.len() == 2 && chars[0] == '.' && chars[1] == '.';
            proof {
                assert(dots == (name@ =~= ".."@));
            }
            if dots || end <= 1 {
                name.to_owned()
            } else {
                from_chars(&chars, 0, end - 1)
            }
        },
    }
}

/// The command for a chunk file. The placeholders `{file}` and `{index}` are substituted
/// before the command is handed to the system shell.
pub fn upload_command(template: &str, path: &str, index: u64) -> (r: String)
    ensures
        r@ == upload_text(template@, path@, index as nat),
{
    proof {
        reveal_strlit("{file}");
        reveal_strlit("{index}");
    }
    let number = index_to_text(index);
    let named = replace_text(template, "{file}", path);
    replace_text(named.as_str(), "{index}", number.as_str())
}

/// What is to be done next, outside.
#[derive(Debug, PartialEq, Eq)]
pub enum Action {
    /// Open a chunk file with this name, beside the prefix.
    Open { name: String },
    /// Write the records from `start` to `end` into the open chunk.
    Write { start: usize, end: usize },
    /// Finish the open chunk.
    Close,
    /// Run this command on the chunk that was closed.
    Upload { command: String },
    /// Remove the chunk file with this path, which was uploaded.
    Remove { path: String },
    /// Nothing: the call is complete.
    Done,
}

/// An action, with its texts as sequences of characters.
pub enum ActionView {
    Open { name: Seq<char> },
    Write { start: int, end: int },
    Close,
    Upload { command: Seq<char> },
    Remove { path: Seq<char> },
    Done,
}

impl View for Action {
    type V = ActionView;

    open spec fn view(&self) -> ActionView {
        match self {
            Action::Open { name } => ActionView::Open { name: name@ },
            Action::Write { start, end } => ActionView::Write {
                start: *start as int,
                end: *end as int,
            },
            Action::Close => ActionView::Close,
            Action::Upload { command } => ActionView::Upload { command: command@ },
            Action::Remove { path } => ActionView::Remove { path: path@ },
            Action::Done => ActionView::Done,
        }
    }
}

/// What came of the action.
#[derive(Debug)]
pub enum Event {
    /// The chunk file was opened; its path.
    Opened(String),
    Written,
    Closed,
    Uploaded,
    Removed,
    /// The action failed, whichever it was.
    Failed,
}

/// What came of the action, with the path as a sequence of characters.
pub enum EventView {
    Opened(Seq<char>),
    Written,
    Closed,
    Uploaded,
    Removed,
    Failed,
}

impl View for Event {
    type V = EventView;

    open spec fn view(&self) -> EventView {
        match self {
            Event::Opened(path) => EventView::Opened(path@),
            Event::Written => EventView::Written,
            Event::Closed => EventView::Closed,
            Event::Uploaded => EventView::Uploaded,
            Event::Removed => EventView::Removed,
            Event::Failed => EventView::Failed,
        }
    }
}

/// The action that is under way.
#[derive(Copy, Clone, Debug, PartialEq, Eq, Structural)]
pub enum Phase {
    Idle,
    Opening,
    Writing,
    Closing,
    Uploading,
    Removing,
}

/// The state of a `RotatingSink`.
#[verifier::ext_equal]
pub struct Rotation {
    pub stem: Seq<char>,
    pub extension: Seq<char>,
    pub max_rows: int,
    pub upload_cmd: Option<Seq<char>>,
    pub remove_after_upload: bool,
    /// Whether a chunk is open.
    pub open: bool,
    /// The path of the chunk that is open or being closed.
    pub path: Option<Seq<char>>,
    /// The path of the chunk that is being uploaded or removed.
    pub closed_path: Option<Seq<char>>,
    /// The number of rows in the last chunk that was opened.
    pub rows: int,
    /// The index of the open chunk, or of the next one.
    pub index: int,
    pub finished: bool,
    pub phase: Phase,
    /// The number of records of the call that is under way.
    pub total: int,
    /// The number of those records that are written.
    pub start: int,
    /// The end of the records that are being written.
    pub end: int,
    /// Whether the call that is under way finishes the sink.
    pub finishing: bool,
}

impl Rotation {
    /// Whether the parts of the state agree with each other.
    pub open spec fn wf(self) -> bool {
        &&& 0 <= self.rows <= self.max_rows
        &&& 0 <= self.index
        &&& 0 <= self.start <= self.total
        &&& self.open ==> self.path is Some
        &&& match self.phase {
            Phase::Idle => true,
            Phase::Opening => !self.open && self.start < self.total && !self.finishing,
            Phase::Writing => {
                &&& self.open && !self.finishing
                &&& self.start < self.end <= self.total
                &&& self.rows + (self.end - self.start) <= self.max_rows
            },
            Phase::Closing => !self.open && self.path is Some,
            Phase::Uploading => !self.open && self.upload_cmd is Some && self.closed_path is Some,
            Phase::Removing => {
                &&& !self.open && self.upload_cmd is Some && self.remove_after_upload
                &&& self.closed_path is Some
            },
        }
    }

    /// The state at the start, before any chunk.
    pub open spec fn begun(
        file_name: Option<Seq<char>>,
        extension: Seq<char>,
        max_rows: int,
        upload_cmd: Option<Seq<char>>,
        remove_after_upload: bool,
    ) -> Rotation {
        Rotation {
            stem: file_stem(file_name),
            extension,
            max_rows,
            upload_cmd,
            remove_after_upload,
            open: false,
            path: None,
            closed_path: None,
            rows: 0,
            index: 0,
            finished: false,
            phase: Phase::Idle,
            total: 0,
            start: 0,
            end: 0,
            finishing: false,
        }
    }

    /// What comes next while records are left to write: a chunk is opened where none
    /// is open, and closed where it is full; else as many records are written as the
    /// chunk has room for.
    pub open spec fn proceed(self) -> (Rotation, ActionView) {
        if self.start >= self.total {
            (Rotation { phase: Phase::Idle, ..self }, ActionView::Done)
        } else if !self.open {
            (
                Rotation { phase: Phase::Opening, ..self },
                ActionView::Open {
                    name: chunk_name(self.stem, self.index as nat, self.extension),
                },
            )
        } else if self.rows >= self.max_rows {
            self.close()
        } else {
            let room = self.max_rows - self.rows;
            let end = if self.start + room < self.total {
                self.start + room
            } else {
                self.total
            };
            (
                Rotation { phase: Phase::Writing, end, ..self },
                ActionView::Write { start: self.start, end },
            )
        }
    }

    /// The open chunk is given up and closed.
    pub open spec fn close(self) -> (Rotation, ActionView)
        recommends
            self.open,
    {
        (Rotation { phase: Phase::Closing, open: false, ..self }, ActionView::Close)
    }

    /// The chunk is done with, and the next one has the next index.
    pub open spec fn complete(self) -> (Rotation, ActionView) {
        let next = Rotation { index: self.index + 1, closed_path: None, ..self };
        if self.finishing {
            (Rotation { phase: Phase::Idle, finished: true, ..next }, ActionView::Done)
        } else {
            next.proceed()
        }
    }

    /// A call to write a number of records.
    pub open spec fn write(self, total: int) -> (Rotation, ActionView) {
        (Rotation { total, start: 0, finishing: false, ..self }).proceed()
    }

    /// A call to finish the sink.
    pub open spec fn finish(self) -> (Rotation, ActionView) {
        if self.finished {
            (self, ActionView::Done)
        } else if self.open {
            (Rotation { finishing: true, ..self }).close()
        } else {
            (Rotation { finished: true, ..self }, ActionView::Done)
        }
    }

    /// Whether the event can come of the action that is under way.
    pub open spec fn awaits(self, event: EventView) -> bool {
        match event {
            EventView::Opened(_) => self.phase is Opening,
            EventView::Written => self.phase is Writing,
            EventView::Closed => self.phase is Closing,
            EventView::Uploaded => self.phase is Uploading,
            EventView::Removed => self.phase is Removing,
            EventView::Failed => !(self.phase is Idle),
        }
    }

    /// Whether the chunk is done with after the event, so that its index is counted up.
    pub open spec fn completes(self, event: EventView) -> bool {
        match event {
            EventView::Closed => self.upload_cmd is None,
            EventView::Uploaded => !self.remove_after_upload,
            EventView::Removed => true,
            _ => false,
        }
    }

    /// What comes of an event: the next state, and what is to be done next. After a
    /// failure the call is over.
    pub open spec fn step(self, event: EventView) -> (Rotation, ActionView) {
        match event {
            EventView::Opened(path) => (Rotation {
                open: true,
                path: Some(path),
                rows: 0,
                ..self
            }).proceed(),
            EventView::Written => {
                let next = Rotation {
                    rows: self.rows + (self.end - self.start),
                    start: self.end,
                    ..self
                };
                if next.rows >= next.max_rows {
                    next.close()
                } else {
                    next.proceed()
                }
            },
            EventView::Closed => {
                let next = Rotation { path: None, ..self };
                match self.upload_cmd {
                    Some(template) => (
                        Rotation { phase: Phase::Uploading, closed_path: self.path, ..next },
                        ActionView::Upload {
                            command: upload_text(
                                template,
                                self.path->0,
                                self.index as nat,
                            ),
                        },
                    ),
                    None => next.complete(),
                }
            },
            EventView::Uploaded => if self.remove_after_upload {
                (
                    Rotation { phase: Phase::Removing, ..self },
                    ActionView::Remove { path: self.closed_path->0 },
                )
            } else {
                self.complete()
            },
            EventView::Removed => self.complete(),
            EventView::Failed => (
                Rotation { phase: Phase::Idle, closed_path: None, ..self },
                ActionView::Done,
            ),
        }
    }
}

/// Splits output into multiple files based on a max row count, and optionally
/// has a shell command run after each chunk is closed (typically to move the
/// file to a bucket).
///
/// A call to write or to finish is carried out step by step: each step says what is to be
/// done, and takes what came of it.
#[derive(Debug)]
pub struct RotatingSink {
    stem: String,
    extension: String,
    max_rows: u64,
    upload_cmd: Option<String>,
    remove_after_upload: bool,
    open: bool,
    current_path: Option<String>,
    closed_path: Option<String>,
    current_rows: u64,
    chunk_index: u64,
    finished: bool,
    phase: Phase,
    total: usize,
    start: usize,
    end: usize,
    finishing: bool,
}

impl View for RotatingSink {
    type V = Rotation;

    closed spec fn view(&self) -> Rotation {
        Rotation {
            stem: self.stem@,
            extension: self.extension@,
            max_rows: self.max_rows as int,
            upload_cmd: optional_text(self.upload_cmd),
            remove_after_upload: self.remove_after_upload,
            open: self.open,
            path: optional_text(self.current_path),
            closed_path: optional_text(self.closed_path),
            rows: self.current_rows as int,
            index: self.chunk_index as int,
            finished: self.finished,
            phase: self.phase,
            total: self.total as int,
            start: self.start as int,
            end: self.end as int,
            finishing: self.finishing,
        }
    }
}

impl RotatingSink {
    /// A sink that has opened no chunk yet. `file_name` is the last part of the path
    /// that the names of the chunk files are made of, if it has one; an extension of its
    /// own is ignored.
    pub fn new(
        file_name: Option<&str>,
        extension: &str,
        max_rows: u64,
        upload_cmd: Option<String>,
        remove_after_upload: bool,
    ) -> (r: RotatingSink)
        ensures
            r@.wf(),
            r@ == Rotation::begun(
                match file_name {
                    Some(name) => Some(name@),
                    None => None,
                },
                extension@,
                max_rows as int,
                optional_text(upload_cmd),
                remove_after_upload,
            ),
    {
        RotatingSink {
            stem: stem_of(file_name),
            extension: extension.to_owned(),
            max_rows,
            upload_cmd,
            remove_after_upload,
            open: false,
            current_path: None,
            closed_path: None,
            current_rows: 0,
            chunk_index: 0,
            finished: false,
            phase: Phase::Idle,
            total: 0,
            start: 0,
            end: 0,
            finishing: false,
        }
    }

    /// Whether no call is under way.
    pub fn is_idle(&self) -> (r: bool)
        ensures
            r == (self@.phase is Idle),
    {
        match self.phase {
            Phase::Idle => true,
            _ => false,
        }
    }

    /// The index of the open chunk, or of the next one.
    pub fn chunk_index(&self) -> (r: u64)
        ensures
            r == self@.index,
    {
        self.chunk_index
    }

    /// The number of rows in the last chunk that was opened.
    pub fn current_rows(&self) -> (r: u64)
        ensures
            r == self@.rows,
    {
        self.current_rows
    }

    /// The name of the chunk file with the given index: `<stem>-NNNNN.<extension>`.
    pub fn chunk_file_name(&self, index: u64) -> (r: String)
        ensures
            r@ == chunk_name(self@.stem, index as nat, self@.extension),
    {
        let number = index_to_text(index);
        self.stem.clone().concat("-").concat(number.as_str()).concat(".").concat(
            self.extension.as_str(),
        )
    }

    fn close_current_chunk(&mut self) -> (r: Action)
        requires
            old(self)@.open,
        ensures
            (final(self)@, r@) == old(self)@.close(),
    {
        self.open = false;
        self.phase = Phase::Closing;
        Action::Close
    }

    fn proceed(&mut self) -> (r: Action)
        requires
            old(self)@.rows <= old(self)@.max_rows,
        ensures
            (final(self)@, r@) == old(self)@.proceed(),
    {
        if self.start >= self.total {
            self.phase = Phase::Idle;
            Action::Done
        } else if !self.open {
            self.phase = Phase::Opening;
            Action::Open { name: self.chunk_file_name(self.chunk_index) }
        } else if self.current_rows >= self.max_rows {
            self.close_current_chunk()
        } else {
            let room: u64 = self.max_rows - self.current_rows;
            let left: usize = self.total - self.start;
            let end: usize = if room < left as u64 {
                self.start + room as usize
            } else {
                self.total
            };
            self.phase = Phase::Writing;
            self.end = end;
            Action::Write { start: self.start, end }
        }
    }

    fn complete(&mut self) -> (r: Action)
        requires
            old(self)@.rows <= old(self)@.max_rows,
            old(self)@.index < u64::MAX,
        ensures
            (final(self)@, r@) == old(self)@.complete(),
    {
        self.chunk_index = self.chunk_index + 1;
        self.closed_path = None;
        if self.finishing {
            self.finished = true;
            self.phase = Phase::Idle;
            Action::Done
        } else {
            self.proceed()
        }
    }

    /// Begins to write a number of records.
    pub fn write_records(&mut self, total: usize) -> (r: Action)
        requires
            old(self)@.wf(),
            old(self)@.phase is Idle,
        ensures
            final(self)@.wf(),
            (final(self)@, r@) == old(self)@.write(total as int),
    {
        self.total = total;
        self.start = 0;
        self.finishing = false;
        self.proceed()
    }

    /// Begins to finish the sink: the open chunk is closed, if there is one.
    pub fn finish(&mut self) -> (r: Action)
        requires
            old(self)@.wf(),
            old(self)@.phase is Idle,
        ensures
            final(self)@.wf(),
            (final(self)@, r@) == old(self)@.finish(),
    {
        if self.finished {
            return Action::Done;
        }
        if self.open {
            self.finishing = true;
            self.close_current_chunk()
        } else {
            self.finished = true;
            Action::Done
        }
    }

    /// Whether the chunk is done with after the event, so that its index is counted up.
    pub fn completes_chunk(&self, event: &Event) -> (r: bool)
        ensures
            r == self@.completes(event@),
    {
        match event {
            Event::Closed => self.upload_cmd.is_none(),
            Event::Uploaded => !self.remove_after_upload,
            Event::Removed => true,
            _ => false,
        }
    }

    /// Takes what came of the last action.
    pub fn resume(&mut self, event: Event) -> (r: Action)
        requires
            old(self)@.wf(),
            old(self)@.awaits(event@),
            old(self)@.completes(event@) ==> old(self)@.index < u64::MAX,
        ensures
            final(self)@.wf(),
            (final(self)@, r@) == old(self)@.step(event@),
    {
        match event {
            Event::Opened(path) => {
                self.open = true;
                self.current_path = Some(path);
                self.current_rows = 0;
                self.proceed()
            },
            Event::Written => {
                self.current_rows = self.current_rows + (self.end - self.start) as u64;
                self.start = self.end;
                if self.current_rows >= self.max_rows {
                    self.close_current_chunk()
                } else {
                    self.proceed()
                }
            },
            Event::Closed => {
                let path = self.current_path.take();
                let command: Option<String> = match (&self.upload_cmd, &path) {
                    (Some(template), Some(path)) => Some(
                        upload_command(template.as_str(), path.as_str(), self.chunk_index),
                    ),
                    _ => None,
                };
                match command {
                    Some(command) => {
                        self.phase = Phase::Uploading;
                        self.closed_path = path;
                        Action::Upload { command }
                    },
                    None => self.complete(),
                }
            },
            Event::Uploaded => if self.remove_after_upload {
                let path: String = match &self.closed_path {
                    Some(path) => path.clone(),
                    None => unreached(),
                };
                self.phase = Phase::Removing;
                Action::Remove { path }
            } else {
                self.complete()
            },
            Event::Removed => self.complete(),
            Event::Failed => {
                self.phase = Phase::Idle;
                self.closed_path = None;
                Action::Done
            },
        }
    }
}

/// Records that are written into a chunk by one action.
pub struct Slice {
    pub chunk: int,
    pub start: int,
    pub end: int,
}

impl Phase {
    /// How many actions may still follow before records are written.
    pub open spec fn rank(self) -> nat {
        match self {
            Phase::Idle => 0,
            Phase::Writing => 1,
            Phase::Opening => 2,
            Phase::Removing => 3,
            Phase::Uploading => 4,
            Phase::Closing => 5,
        }
    }
}

impl Rotation {
    /// The event that says that the action under way succeeded; `paths` gives the path of
    /// each chunk.
    pub open spec fn success(self, paths: spec_fn(int) -> Seq<char>) -> EventView {
        match self.phase {
            Phase::Idle => EventView::Failed,
            Phase::Opening => EventView::Opened(paths(self.index)),
            Phase::Writing => EventView::Written,
            Phase::Closing => EventView::Closed,
            Phase::Uploading => EventView::Uploaded,
            Phase::Removing => EventView::Removed,
        }
    }

    /// The call under way, carried out to its end with every action succeeding: what is
    /// written, and the state afterwards.
    pub open spec fn run(self, paths: spec_fn(int) -> Seq<char>) -> (Seq<Slice>, Rotation)
        decreases self.total - self.start, self.phase.rank(),
            when self.wf() && self.max_rows > 0
    {
        if self.phase is Idle {
            (Seq::empty(), self)
        } else {
            let next = self.step(self.success(paths)).0;
            let (slices, last) = next.run(paths);
            if self.phase is Writing {
                (
                    seq![Slice { chunk: self.index, start: self.start, end: self.end }] + slices,
                    last,
                )
            } else {
                (slices, last)
            }
        }
    }

    /// The names of the chunk files that are opened in the call under way, carried out to
    /// its end with every action succeeding.
    pub open spec fn opened(self, paths: spec_fn(int) -> Seq<char>) -> Seq<Seq<char>>
        decreases self.total - self.start, self.phase.rank(),
            when self.wf() && self.max_rows > 0
    {
        if self.phase is Idle {
            Seq::empty()
        } else {
            let names = self.step(self.success(paths)).0.opened(paths);
            if self.phase is Opening {
                seq![chunk_name(self.stem, self.index as nat, self.extension)] + names
            } else {
                names
            }
        }
    }

    /// The index of the chunk that is to be opened next.
    pub open spec fn next_chunk(self) -> int {
        match self.phase {
            Phase::Idle => if self.open {
                self.index + 1
            } else {
                self.index
            },
            Phase::Opening => self.index,
            _ => self.index + 1,
        }
    }

    /// Whether the chunks so far hold `n` rows, each full but for the open one, which is
    /// neither full nor, between calls, empty.
    pub open spec fn holds(self, n: int) -> bool {
        &&& self.wf()
        &&& self.max_rows > 0
        &&& match self.phase {
            Phase::Idle => n == self.index * self.max_rows + (if self.open {
                self.rows
            } else {
                0
            }) && (self.open ==> 0 < self.rows < self.max_rows),
            Phase::Opening => n == self.index * self.max_rows,
            Phase::Writing => n == self.index * self.max_rows + self.rows,
            _ => !self.finishing && self.rows == self.max_rows && n == self.index * self.max_rows
                + self.max_rows,
        }
    }
}

/// Whether the slices, in their order, are made of the records from `from` to `to`, each
/// record once, where record `k` is row `n + k` of the whole output and goes to the chunk
/// that this row belongs to.
pub open spec fn fill(slices: Seq<Slice>, from: int, to: int, n: int, max_rows: int) -> bool
    decreases slices.len(),
{
    if slices.len() == 0 {
        from == to
    } else {
        let s = slices[0];
        &&& s.start == from && from < s.end <= to
        &&& forall|k: int|
            s.start <= k < s.end ==> s.chunk == #[trigger] ((n + k) / max_rows)
        &&& fill(slices.drop_first(), s.end, to, n, max_rows)
    }
}

proof fn lemma_chunk_of_row(row: int, chunk: int, max_rows: int)
    requires
        max_rows > 0,
        chunk * max_rows <= row < chunk * max_rows + max_rows,
    ensures
        row / max_rows == chunk,
{
    vstd::arithmetic::div_mod::lemma_fundamental_div_mod_converse(
        row,
        max_rows,
        chunk,
        row - chunk * max_rows,
    );
}

proof fn lemma_next_chunk(index: int, max_rows: int)
    ensures
        (index + 1) * max_rows == index * max_rows + max_rows,
{
    assert((index + 1) * max_rows == index * max_rows + max_rows) by (nonlinear_arith);
}

/// Whether two states are those of a sink that was made in the same way.
pub open spec fn same_settings(a: Rotation, b: Rotation) -> bool {
    &&& a.stem == b.stem
    &&& a.extension == b.extension
    &&& a.max_rows == b.max_rows
    &&& a.upload_cmd == b.upload_cmd
    &&& a.remove_after_upload == b.remove_after_upload
}

proof fn lemma_run_fills(v: Rotation, n: int, paths: spec_fn(int) -> Seq<char>)
    requires
        v.holds(n + v.start),
        v.phase is Idle ==> v.start == v.total,
    ensures
        v.run(paths).1.phase is Idle,
        v.run(paths).1.holds(n + v.total),
        same_settings(v.run(paths).1, v),
        v.run(paths).1.finished == v.finished,
        fill(v.run(paths).0, v.start, v.total, n, v.max_rows),
    decreases v.total - v.start, v.phase.rank(),
{
    if !(v.phase is Idle) {
        let next = v.step(v.success(paths)).0;
        lemma_next_chunk(v.index, v.max_rows);
        lemma_run_fills(next, n, paths);
        if v.phase is Writing {
            let (slices, last) = v.run(paths);
            assert(slices.drop_first() =~= next.run(paths).0);
            assert forall|k: int| v.start <= k < v.end implies v.index == #[trigger] ((n + k)
                / v.max_rows) by {
                lemma_chunk_of_row(n + k, v.index, v.max_rows);
            }
        }
    }
}

/// Every row is written once, in order, and row `k` of the whole output goes to chunk
/// `k / max_rows`: where no action fails, a call that writes `total` records after `n`
/// rows cuts them at the chunk boundaries, and leaves `n + total` rows behind. How the sink
/// was made, and whether it is finished, stays as it is, so that the next call goes on from
/// there.
pub proof fn law_rows_fill_the_chunks(
    v: Rotation,
    n: int,
    total: int,
    paths: spec_fn(int) -> Seq<char>,
)
    requires
        v.phase is Idle,
        v.holds(n),
        total >= 0,
    ensures
        v.write(total).0.run(paths).1.phase is Idle,
        v.write(total).0.run(paths).1.holds(n + total),
        same_settings(v.write(total).0.run(paths).1, v),
        v.write(total).0.run(paths).1.finished == v.finished,
        fill(v.write(total).0.run(paths).0, 0, total, n, v.max_rows),
{
    lemma_run_fills(v.write(total).0, n, paths);
}

/// The number of chunks that `n` rows take.
pub open spec fn chunk_count(n: int, max_rows: int) -> int {
    (n + max_rows - 1) / max_rows
}

/// The names of the chunks from one index up to another.
pub open spec fn chunk_names(
    stem: Seq<char>,
    from: int,
    to: int,
    extension: Seq<char>,
) -> Seq<Seq<char>> {
    Seq::new(
        if from <= to {
            (to - from) as nat
        } else {
            0
        },
        |i: int| chunk_name(stem, (from + i) as nat, extension),
    )
}

proof fn lemma_chunk_count(chunks: int, rest: int, max_rows: int)
    requires
        0 <= rest < max_rows,
    ensures
        chunk_count(chunks * max_rows + rest, max_rows) == if rest == 0 {
            chunks
        } else {
            chunks + 1
        },
{
    lemma_next_chunk(chunks, max_rows);
    if rest == 0 {
        lemma_chunk_of_row(chunks * max_rows + max_rows - 1, chunks, max_rows);
    } else {
        lemma_next_chunk(chunks + 1, max_rows);
        lemma_chunk_of_row(chunks * max_rows + rest + max_rows - 1, chunks + 1, max_rows);
    }
}

proof fn lemma_run_opens(v: Rotation, n: int, paths: spec_fn(int) -> Seq<char>)
    requires
        v.holds(n + v.start),
        v.phase is Idle ==> v.start == v.total,
    ensures
        v.opened(paths) == chunk_names(
            v.stem,
            v.next_chunk(),
            chunk_count(n + v.total, v.max_rows),
            v.extension,
        ),
        v.next_chunk() <= chunk_count(n + v.total, v.max_rows),
    decreases v.total - v.start, v.phase.rank(),
{
    let to = chunk_count(n + v.total, v.max_rows);
    let names = chunk_names(v.stem, v.next_chunk(), to, v.extension);
    if v.phase is Idle {
        lemma_chunk_count(
            v.index,
            if v.open {
                v.rows
            } else {
                0
            },
            v.max_rows,
        );
        assert(names =~= Seq::empty());
    } else {
        let next = v.step(v.success(paths)).0;
        lemma_next_chunk(v.index, v.max_rows);
        lemma_run_opens(next, n, paths);
        if v.phase is Opening {
            assert(next.next_chunk() == v.index + 1);
            assert(names =~= seq![chunk_name(v.stem, v.index as nat, v.extension)] + chunk_names(
                v.stem,
                v.index + 1,
                to,
                v.extension,
            ));
        }
    }
}

/// Where no action fails, a call that writes `total` records after `n` rows opens exactly
/// the chunks that the rows need beyond those that there are, one after the other, each
/// under the name of its index.
pub proof fn law_calls_open_the_next_chunks(
    v: Rotation,
    n: int,
    total: int,
    paths: spec_fn(int) -> Seq<char>,
)
    requires
        v.phase is Idle,
        v.holds(n),
        total >= 0,
    ensures
        v.write(total).0.opened(paths) == chunk_names(
            v.stem,
            chunk_count(n, v.max_rows),
            chunk_count(n + total, v.max_rows),
            v.extension,
        ),
        chunk_count(n, v.max_rows) <= chunk_count(n + total, v.max_rows),
{
    lemma_chunk_count(
        v.index,
        if v.open {
            v.rows
        } else {
            0
        },
        v.max_rows,
    );
    lemma_run_opens(v.write(total).0, n, paths);
}

/// Finishing closes the open chunk and no other, so that the number of chunks is the
/// least that has room for all rows: it is the final index.
pub proof fn law_finish_closes_the_last_chunk(
    v: Rotation,
    n: int,
    paths: spec_fn(int) -> Seq<char>,
)
    requires
        v.phase is Idle,
        v.holds(n),
        !v.finished,
    ensures
        ({
            let (slices, last) = v.finish().0.run(paths);
            &&& slices.len() == 0
            &&& last.phase is Idle
            &&& last.finished
            &&& !last.open
            &&& n <= last.index * v.max_rows
            &&& n > (last.index - 1) * v.max_rows
            &&& last.finish() == (last, ActionView::Done)
        }),
{
    reveal_with_fuel(Rotation::run, 4);
    lemma_next_chunk(v.index, v.max_rows);
    lemma_next_chunk(v.index - 1, v.max_rows);
    if v.open {
        let closing = v.finish().0;
        let next = closing.step(closing.success(paths)).0;
        if next.phase is Uploading {
            let after = next.step(next.success(paths)).0;
            assert(next.run(paths).1 == after.run(paths).1);
        }
        assert(closing.run(paths).1 == next.run(paths).1);
    }
}

/// A call that writes no records does nothing.
pub proof fn law_empty_batch_does_nothing(v: Rotation)
    requires
        v.wf(),
        v.phase is Idle,
    ensures
        v.write(0).1 is Done,
        v.write(0).0 == (Rotation { total: 0, start: 0, finishing: false, ..v }),
{
}

/// The names of two chunks with different indices are different.
pub proof fn law_chunk_names_differ(stem: Seq<char>, extension: Seq<char>, i: nat, j: nat)
    requires
        chunk_name(stem, i, extension) == chunk_name(stem, j, extension),
    ensures
        i == j,
{
    let a = padded(i, 5);
    let b = padded(j, 5);
    let x = chunk_name(stem, i, extension);
    let y = chunk_name(stem, j, extension);
    let from = (stem + "-"@).len() as int;
    assert(x.len() == from + a.len() + ("."@ + extension).len());
    assert(y.len() == from + b.len() + ("."@ + extension).len());
    assert(a =~= x.subrange(from, from + a.len()));
    assert(b =~= y.subrange(from, from + b.len()));
    law_padded_is_read_back(i, 5);
    law_padded_is_read_back(j, 5);
}

/// As long as the indices have five digits at most, the names of the chunks sort as texts
/// in the order of the chunks.
pub proof fn law_chunk_names_sort(stem: Seq<char>, extension: Seq<char>, i: nat, j: nat)
    requires
        i < j <= 99999,
    ensures
        sorts_before(chunk_name(stem, i, extension), chunk_name(stem, j, extension)),
{
    let before = stem + "-"@;
    let after = "."@ + extension;
    law_five_digits(j);
    law_padded_numbers_sort(i, j, 5, before, after);
    assert(chunk_name(stem, i, extension) =~= before + padded(i, 5) + after);
    assert(chunk_name(stem, j, extension) =~= before + padded(j, 5) + after);
}

proof fn lemma_last_dot(before: Seq<char>, after: Seq<char>)
    requires
        !after.contains('.'),
    ensures
        last_dot(before + seq!['.'] + after) == before.len(),
    decreases after.len(),
{
    let s = before + seq!['.'] + after;
    if after.len() > 0 {
        let rest = after.drop_last();
        assert(after.contains(after.last()));
        assert forall|i: int| 0 <= i < rest.len() implies rest[i] != '.' by {
            assert(after.contains(after[i]));
        }
        lemma_last_dot(before, rest);
        assert(s.drop_last() =~= before + seq!['.'] + rest);
    }
}

/// An extension of the file name that the chunks are named after is ignored.
pub proof fn law_extension_of_the_prefix_is_ignored(base: Seq<char>, extension: Seq<char>)
    requires
        base.len() > 0,
        base != seq!['.'] || extension.len() > 0,
        !extension.contains('.'),
    ensures
        file_stem(Some(base + seq!['.'] + extension)) == base,
{
    let name = base + seq!['.'] + extension;
    lemma_last_dot(base, extension);
    assert(name.take(base.len() as int) =~= base);
    reveal_strlit("..");
    if name == ".."@ {
        assert(name.len() == 2 && extension.len() == 0);
        assert(base =~= seq!['.']) by {
            assert(name[0] == base[0]);
        }
    }
}

/// A command without placeholders is run as it is.
pub proof fn law_commands_without_placeholders_stay(
    template: Seq<char>,
    path: Seq<char>,
    index: nat,
)
    requires
        !occurs(template, "{file}"@),
        !occurs(template, "{index}"@),
    ensures
        upload_text(template, path, index) == template,
{
    law_nothing_to_replace(template, "{file}"@, path);
    law_nothing_to_replace(template, "{index}"@, padded(index, 5));
}

/// A chunk file is removed only after its upload has succeeded, and only where that was
/// asked for; it is the file whose path the upload command was made of.
pub proof fn law_only_uploaded_chunks_are_removed(v: Rotation, event: EventView)
    requires
        v.wf(),
        v.awaits(event),
        v.step(event).1 is Remove,
    ensures
        v.phase is Uploading,
        event is Uploaded,
        v.upload_cmd is Some,
        v.remove_after_upload,
        v.step(event).1 == (ActionView::Remove { path: v.closed_path->0 }),
{
}

/// The path of a chunk that is closed is the one that it was opened with: it is what the
/// upload command is made of, and what is kept for the removal.
pub proof fn law_closed_chunk_is_uploaded(v: Rotation)
    requires
        v.wf(),
        v.phase is Closing,
        v.upload_cmd is Some,
    ensures
        v.step(EventView::Closed).1 == (ActionView::Upload {
            command: upload_text(v.upload_cmd->0, v.path->0, v.index as nat),
        }),
        v.step(EventView::Closed).0.closed_path == v.path,
        v.remove_after_upload ==> v.step(EventView::Closed).0.step(EventView::Uploaded).1 == (
        ActionView::Remove { path: v.path->0 }),
{
}

/// A chunk whose closing, upload or removal failed keeps its index: the next records
/// begin a chunk of the same name.
pub proof fn law_failed_chunk_is_begun_again(v: Rotation, total: int)
    requires
        v.wf(),
        v.phase is Closing || v.phase is Uploading || v.phase is Removing,
        total > 0,
    ensures
        v.step(EventView::Failed).0.write(total).1 == (ActionView::Open {
            name: chunk_name(v.stem, v.index as nat, v.extension),
        }),
{
}

/// The calls of a sink keep its parts in agreement with each other, whatever comes of
/// the actions.
pub proof fn law_steps_keep_the_state_valid(v: Rotation, event: EventView)
    requires
        v.wf(),
        v.awaits(event),
    ensures
        v.step(event).0.wf(),
        (v.step(event).1 is Done) == (v.step(event).0.phase is Idle),
{
}

proof fn lemma_no_dot(s: Seq<char>)
    requires
        !s.contains('.'),
    ensures
        last_dot(s) == -1,
    decreases s.len(),
{
    if s.len() > 0 {
        let rest = s.drop_last();
        assert(s.contains(s.last()));
        assert forall|i: int| 0 <= i < rest.len() implies rest[i] != '.' by {
            assert(s.contains(s[i]));
        }
        lemma_no_dot(rest);
    }
}

/// A file name without a dot, or with no dot but one that it begins with, is taken whole.
/// Without a name the chunks are named `part`.
pub proof fn law_names_without_extension_are_taken_whole(name: Seq<char>)
    requires
        !name.contains('.'),
    ensures
        file_stem(Some(name)) == name,
        file_stem(Some(seq!['.'] + name)) == seq!['.'] + name,
        file_stem(None) == "part"@,
{
    lemma_no_dot(name);
    lemma_last_dot(Seq::empty(), name);
    assert(Seq::<char>::empty() + seq!['.'] + name =~= seq!['.'] + name);
}

/// The name of a chunk is the stem, a hyphen, the index in digits, with zeros before it up
/// to five of them, a dot and the extension.
pub proof fn law_chunk_names_are_made_of_stem_and_index(
    stem: Seq<char>,
    index: nat,
    extension: Seq<char>,
)
    ensures
        ({
            let name = chunk_name(stem, index, extension);
            let number = name.subrange(
                stem.len() as int + 1,
                name.len() - extension.len() - 1,
            );
            &&& name == stem + seq!['-'] + number + seq!['.'] + extension
            &&& number == padded(index, 5)
            &&& index <= 99999 ==> name.len() == stem.len() + extension.len() + 7
        }),
{
    reveal_strlit("-");
    reveal_strlit(".");
    assert("-"@ =~= seq!['-']);
    assert("."@ =~= seq!['.']);
    let name = chunk_name(stem, index, extension);
    assert(name.subrange(stem.len() as int + 1, name.len() - extension.len() - 1) =~= padded(
        index,
        5,
    ));
    if index <= 99999 {
        law_five_digits(index);
        law_padding_is_zeros(index, 5);
    }
}

/// The path is filled in before the index is: an index placeholder in the path is filled in
/// too, and a command that is a placeholder alone is what stands for it.
pub proof fn law_path_is_filled_in_before_the_index(
    template: Seq<char>,
    path: Seq<char>,
    index: nat,
)
    ensures
        upload_text("{file}"@, path, index) == replace(path, "{index}"@, padded(index, 5)),
        upload_text("{index}"@, path, index) == padded(index, 5),
        !occurs(template, "{file}"@) ==> upload_text(template, path, index) == replace(
            template,
            "{index}"@,
            padded(index, 5),
        ),
        !occurs(replace(template, "{file}"@, path), "{index}"@) ==> upload_text(
            template,
            path,
            index,
        ) == replace(template, "{file}"@, path),
{
    reveal_strlit("{file}");
    reveal_strlit("{index}");
    let file = "{file}"@;
    let place = "{index}"@;
    let number = padded(index, 5);
    assert(file.subrange(0, 0 + file.len() as int) =~= file);
    law_first_occurrence_is_replaced(file, file, path, 0);
    assert(file.skip(0 + file.len() as int) =~= Seq::empty());
    assert(file.take(0) + path + replace(Seq::empty(), file, path) =~= path);
    assert(place.subrange(0, 0 + place.len() as int) =~= place);
    law_first_occurrence_is_replaced(place, place, number, 0);
    assert(place.skip(0 + place.len() as int) =~= Seq::empty());
    assert(place.take(0) + number + replace(Seq::empty(), place, number) =~= number);
    if occurs(place, file) {
        assert(place[1] == 'i' && file[1] == 'f' && place[0] == '{' && place.len() == 7);
    }
    law_nothing_to_replace(place, file, path);
    if !occurs(template, file) {
        law_nothing_to_replace(template, file, path);
    }
    if !occurs(replace(template, file, path), place) {
        law_nothing_to_replace(replace(template, file, path), place, number);
    }
}

/// A sink begins with no chunk, and the first records open the chunk with the index 0,
/// under the settings that the sink was made with.
pub proof fn law_first_records_open_the_first_chunk(
    file_name: Option<Seq<char>>,
    extension: Seq<char>,
    max_rows: int,
    upload_cmd: Option<Seq<char>>,
    remove_after_upload: bool,
    total: int,
)
    requires
        max_rows >= 0,
    ensures
        ({
            let v = Rotation::begun(
                file_name,
                extension,
                max_rows,
                upload_cmd,
                remove_after_upload,
            );
            &&& v.wf() && v.phase is Idle && !v.open && !v.finished && v.index == 0
            &&& max_rows > 0 ==> v.holds(0)
            &&& v.stem == file_stem(file_name) && v.extension == extension
            &&& v.max_rows == max_rows && v.upload_cmd == upload_cmd
            &&& v.remove_after_upload == remove_after_upload
            &&& total > 0 ==> v.write(total).1 == (ActionView::Open {
                name: chunk_name(file_stem(file_name), 0, extension),
            })
        }),
{
}

/// No call and no event changes the settings that the sink was made with.
pub proof fn law_settings_stay(v: Rotation, total: int, event: EventView)
    ensures
        same_settings(v.write(total).0, v),
        same_settings(v.finish().0, v),
        same_settings(v.step(event).0, v),
        v.write(total).0.finished == v.finished,
        !v.finishing ==> v.step(event).0.finished == v.finished,
{
}

/// The index is counted up by one exactly where a chunk is done with: closed where there is
/// no command, uploaded where it is not to be removed, or removed.
pub proof fn law_chunks_are_counted_once(v: Rotation, event: EventView)
    requires
        v.wf(),
        v.awaits(event),
    ensures
        ({
            let done = (event is Closed && v.upload_cmd is None) || (event is Uploaded
                && !v.remove_after_upload) || event is Removed;
            &&& v.completes(event) <==> done
            &&& done ==> v.step(event).0.index == v.index + 1
            &&& !done ==> v.step(event).0.index == v.index
        }),
{
}

/// A chunk that is closed is uploaded exactly where there is a command, and one that was
/// uploaded is removed exactly where that was asked for.
pub proof fn law_commands_decide_what_follows(v: Rotation)
    requires
        v.wf(),
    ensures
        v.phase is Closing ==> (v.step(EventView::Closed).1 is Upload <==> v.upload_cmd is Some),
        v.phase is Uploading ==> (v.step(EventView::Uploaded).1 is Remove
            <==> v.remove_after_upload),
        v.phase is Closing || v.phase is Uploading || v.phase is Removing ==> !v.open,
{
}

/// A failure ends the call and changes nothing that was done before it: the chunk that is
/// open stays open, with its path and its rows, under its index.
pub proof fn law_failure_ends_the_call(v: Rotation)
    ensures
        v.step(EventView::Failed).1 is Done,
        ({
            let next = v.step(EventView::Failed).0;
            &&& next.phase is Idle
            &&& next.open == v.open && next.path == v.path && next.rows == v.rows
            &&& next.index == v.index && next.finished == v.finished
            &&& next.total == v.total && next.start == v.start
            &&& next.closed_path is None
        }),
{
}

/// A call to finish closes the chunk that is open and does nothing where none is. Once the
/// sink is finished it does nothing at all.
pub proof fn law_finish_closes_what_is_open(v: Rotation)
    ensures
        v.finished ==> v.finish() == (v, ActionView::Done),
        !v.finished && v.open ==> v.finish().1 is Close && v.finish().0 == (Rotation {
            phase: Phase::Closing,
            open: false,
            finishing: true,
            ..v
        }),
        !v.finished && !v.open ==> v.finish().1 is Done && v.finish().0 == (Rotation {
            finished: true,
            ..v
        }),
{
}

/// The sink is finished when the last chunk is done with, and by no failure.
pub proof fn law_sink_is_finished_with_its_last_chunk(v: Rotation, event: EventView)
    requires
        v.wf(),
        v.awaits(event),
        v.finishing,
        !v.finished,
        v.phase is Closing || v.phase is Uploading || v.phase is Removing,
    ensures
        v.step(event).0.finished <==> v.completes(event),
        v.completes(event) ==> v.step(event).1 is Done,
{
}

/// A chunk begins with no rows under the path that it was opened with, and takes at once as
/// many of the records that are left as it has room for; one without room is closed.
pub proof fn law_opened_chunks_are_filled(v: Rotation, path: Seq<char>)
    requires
        v.wf(),
        v.phase is Opening,
    ensures
        ({
            let (next, action) = v.step(EventView::Opened(path));
            let left = v.total - v.start;
            &&& next.path == Some(path) && next.rows == 0
            &&& v.max_rows == 0 ==> action is Close
            &&& v.max_rows > 0 ==> action == (ActionView::Write {
                start: v.start,
                end: v.start + if left < v.max_rows {
                    left
                } else {
                    v.max_rows
                },
            })
        }),
{
}

/// Rows that were written are counted, and the records go on behind them. The chunk is
/// closed exactly where it is full, also where no records are left.
pub proof fn law_full_chunks_are_closed(v: Rotation)
    requires
        v.wf(),
        v.phase is Writing,
    ensures
        ({
            let (next, action) = v.step(EventView::Written);
            let rows = v.rows + v.end - v.start;
            &&& next.rows == rows && next.start == v.end && next.total == v.total
            &&& next.path == v.path
            &&& action is Close <==> rows == v.max_rows
            &&& rows < v.max_rows ==> next.open
            &&& rows < v.max_rows && v.end == v.total ==> action is Done
        }),
{
}

/// An action is seen with the whole of its texts.
pub proof fn law_actions_are_seen_whole(a: Action)
    ensures
        match a {
            Action::Open { name } => a@ == (ActionView::Open { name: name@ }),
            Action::Write { start, end } => a@ == (ActionView::Write {
                start: start as int,
                end: end as int,
            }),
            Action::Close => a@ is Close,
            Action::Upload { command } => a@ == (ActionView::Upload { command: command@ }),
            Action::Remove { path } => a@ == (ActionView::Remove { path: path@ }),
            Action::Done => a@ is Done,
        },
{
}

/// An event is seen with the whole of its path.
pub proof fn law_events_are_seen_whole(e: Event)
    ensures
        match e {
            Event::Opened(path) => e@ == EventView::Opened(path@),
            Event::Written => e@ is Written,
            Event::Closed => e@ is Closed,
            Event::Uploaded => e@ is Uploaded,
            Event::Removed => e@ is Removed,
            Event::Failed => e@ is Failed,
        },
{
}

} // verus!
