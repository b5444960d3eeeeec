//! The documents of a dump: a stream of BSON documents, one after the other, each
//! beginning with its own length.

use crate::document::{
    decode_document, decoded, document_fields, is_encoding, DecodeError, Node,
};
use crate::text::{integer_text, integer_to_text};
use vstd::prelude::*;

verus! {

/// The signed number that four bytes encode, the low byte first.
pub open spec fn length_prefix(b: Seq<u8>) -> int {
    let u = b[0] + 0x100 * b[1] + 0x1_0000 * b[2] + 0x100_0000 * b[3];
    if u < 0x8000_0000 {
        u
    } else {
        u - 0x1_0000_0000
    }
}

/// Why a stream is no sequence of documents.
#[derive(Copy, Clone, Debug, PartialEq, Eq, Structural)]
pub enum FrameFault {
    /// The stream ends within a length.
    TruncatedPrefix,
    /// A length that is too small for any document.
    InvalidLength(i32),
    /// The stream ends within a document.
    TruncatedBody,
}

/// What a stream begins with.
pub enum Frame {
    Document(Seq<u8>),
    End,
    Fault(FrameFault),
}

/// What a stream begins with: the bytes of a document, its end, or a fault. The length
/// of a document counts its own four bytes, and the smallest document has five.
pub open spec fn next_frame(stream: Seq<u8>) -> Frame {
    if stream.len() == 0 {
        Frame::End
    } else if stream.len() < 4 {
        Frame::Fault(FrameFault::TruncatedPrefix)
    } else {
        let n = length_prefix(stream);
        if n < 5 {
            Frame::Fault(FrameFault::InvalidLength(n as i32))
        } else if stream.len() < n {
            Frame::Fault(FrameFault::TruncatedBody)
        } else {
            Frame::Document(stream.take(n))
        }
    }
}

/// The documents of a stream, and the fault that it ends with, if any.
pub open spec fn frames(stream: Seq<u8>) -> (Seq<Seq<u8>>, Option<FrameFault>)
    decreases stream.len(),
{
    match next_frame(stream) {
        Frame::End => (Seq::empty(), None),
        Frame::Fault(f) => (Seq::empty(), Some(f)),
        Frame::Document(d) => {
            let rest = frames(stream.skip(d.len() as int));
            (seq![d] + rest.0, rest.1)
        },
    }
}

/// What comes of bytes that are read from the stream.
#[derive(Debug)]
pub enum FrameStep {
    /// More bytes are wanted.
    More,
    /// The bytes of a document.
    Document(Vec<u8>),
    /// The stream has ended, after a document or before the first one.
    End,
    Fault(FrameFault),
}

/// What comes of bytes, with those of a document as a sequence.
pub enum FrameStepView {
    More,
    Document(Seq<u8>),
    End,
    Fault(FrameFault),
}

impl View for FrameStep {
    type V = FrameStepView;

    open spec fn view(&self) -> FrameStepView {
        match self {
            FrameStep::More => FrameStepView::More,
            FrameStep::Document(d) => FrameStepView::Document(d@),
            FrameStep::End => FrameStepView::End,
            FrameStep::Fault(f) => FrameStepView::Fault(*f),
        }
    }
}

/// Whether `held` can be what was read of a document that is not yet complete.
pub open spec fn is_partial(held: Seq<u8>) -> bool {
    held.len() >= 4 ==> 5 <= length_prefix(held) && held.len() < length_prefix(held)
}

/// How many bytes may be read next, after `held`: up to the end of the length, then up
/// to the end of the document.
pub open spec fn wanted_after(held: Seq<u8>) -> int {
    if held.len() < 4 {
        4 - held.len()
    } else {
        length_prefix(held) - held.len()
    }
}

/// What comes of reading `chunk` after `held`; an empty chunk is the end of the stream.
pub open spec fn step(held: Seq<u8>, chunk: Seq<u8>) -> FrameStepView {
    let all = held + chunk;
    if chunk.len() == 0 {
        if held.len() == 0 {
            FrameStepView::End
        } else if held.len() < 4 {
            FrameStepView::Fault(FrameFault::TruncatedPrefix)
        } else {
            FrameStepView::Fault(FrameFault::TruncatedBody)
        }
    } else if all.len() < 4 {
        FrameStepView::More
    } else if length_prefix(all) < 5 {
        FrameStepView::Fault(FrameFault::InvalidLength(length_prefix(all) as i32))
    } else if all.len() < length_prefix(all) {
        FrameStepView::More
    } else {
        FrameStepView::Document(all)
    }
}

/// What is held after reading `chunk`.
pub open spec fn held_after(held: Seq<u8>, chunk: Seq<u8>) -> Seq<u8> {
    if step(held, chunk) is More {
        held + chunk
    } else {
        Seq::empty()
    }
}

fn read_length(b: &Vec<u8>) -> (r: i32)
    requires
        b.len() >= 4,
    ensures
        r == length_prefix(b@),
{
    let u: i64 = b[0] as i64 + 0x100 * (b[1] as i64) + 0x1_0000 * (b[2] as i64) + 0x100_0000 * (
    b[3] as i64);
    if u < 0x8000_0000 {
        u as i32
    } else {
        (u - 0x1_0000_0000) as i32
    }
}

/// Why no document was read.
#[derive(Debug)]
pub enum ReadError {
    Frame(FrameFault),
    Document(DecodeError),
}

impl ReadError {
    /// The reason in words.
    pub open spec fn text(self) -> Seq<char> {
        match self {
            ReadError::Frame(FrameFault::TruncatedPrefix) => {
                "Unexpected EOF in the middle of BSON size prefix"@
            },
            ReadError::Frame(FrameFault::InvalidLength(n)) => {
                "Invalid BSON document length: "@ + integer_text(n as int)
            },
            ReadError::Frame(FrameFault::TruncatedBody) => {
                "Unexpected EOF while reading BSON document body"@
            },
            ReadError::Document(_) => "Failed to parse BSON document"@,
        }
    }

    /// The reason in words.
    pub fn message(&self) -> (r: String)
        ensures
            r@ == self.text(),
    {
        match self {
            ReadError::Frame(FrameFault::TruncatedPrefix) => {
                "Unexpected EOF in the middle of BSON size prefix".to_owned()
            },
            ReadError::Frame(FrameFault::InvalidLength(n)) => {
                let number = integer_to_text(*n as i64);
                "Invalid BSON document length: ".to_owned().concat(number.as_str())
            },
            ReadError::Frame(FrameFault::TruncatedBody) => {
                "Unexpected EOF while reading BSON document body".to_owned()
            },
            ReadError::Document(_) => "Failed to parse BSON document".to_owned(),
        }
    }
}

/// What comes of bytes that are read from the stream, with documents decoded.
#[derive(Debug)]
pub enum ReadState {
    /// More bytes are wanted.
    More,
    Document(bson::Document),
    /// The stream has ended.
    Eof,
}

/// Cuts a stream into documents. It says how many bytes it wants, and takes what was
/// read of them, whatever number that was.
#[derive(Debug)]
pub struct DocumentReader {
    held: Vec<u8>,
}

impl View for DocumentReader {
    type V = Seq<u8>;

    closed spec fn view(&self) -> Seq<u8> {
        self.held@
    }
}

impl DocumentReader {
    /// Whether what is held is part of one document.
    pub open spec fn wf(&self) -> bool {
        is_partial(self@)
    }

    /// A reader at the start of a stream.
    pub fn new() -> (r: DocumentReader)
        ensures
            r.wf(),
            r@ == Seq::<u8>::empty(),
    {
        DocumentReader { held: Vec::new() }
    }

    /// How many bytes to read next, at most.
    pub fn wanted(&self) -> (r: usize)
        requires
            self.wf(),
        ensures
            r == wanted_after(self@),
            r > 0,
    {
        if self.held.len() < 4 {
            4 - self.held.len()
        } else {
            read_length(&self.held) as usize - self.held.len()
        }
    }

    /// Whether the length of the next document is read, and its body is wanted.
    pub fn in_body(&self) -> (r: bool)
        ensures
            r == (self@.len() >= 4),
    {
        self.held.len() >= 4
    }

    /// Takes the bytes that were read; none at the end of the stream.
    pub fn advance(&mut self, chunk: &[u8]) -> (r: FrameStep)
        requires
            old(self).wf(),
            chunk@.len() <= wanted_after(old(self)@),
        ensures
            final(self).wf(),
            r@ == step(old(self)@, chunk@),
            final(self)@ == held_after(old(self)@, chunk@),
    {
        if chunk.len() == 0 {
            let held = self.held.len();
            self.held = Vec::new();
            return if held == 0 {
                FrameStep::End
            } else if held < 4 {
                FrameStep::Fault(FrameFault::TruncatedPrefix)
            } else {
                FrameStep::Fault(FrameFault::TruncatedBody)
            };
        }
        let ghost before = self.held@;
        self.held.extend_from_slice(chunk);
        proof {
            assert(self.held@ =~= before + chunk@);
        }
        if self.held.len() < 4 {
            return FrameStep::More;
        }
        let n = read_length(&self.held);
        if n < 5 {
            self.held = Vec::new();
            return FrameStep::Fault(FrameFault::InvalidLength(n));
        }
        if self.held.len() < n as usize {
            return FrameStep::More;
        }
        let mut document: Vec<u8> = Vec::new();
        std::mem::swap(&mut document, &mut self.held);
        FrameStep::Document(document)
    }

    /// Takes the bytes that were read, and decodes the document that they complete, if
    /// they do; none were read at the end of the stream.
    pub fn read_next_document(&mut self, chunk: &[u8]) -> (r: Result<ReadState, ReadError>)
        requires
            old(self).wf(),
            chunk@.len() <= wanted_after(old(self)@),
        ensures
            final(self).wf(),
            final(self)@ == held_after(old(self)@, chunk@),
            match step(old(self)@, chunk@) {
                FrameStepView::More => r matches Ok(ReadState::More),
                FrameStepView::End => r matches Ok(ReadState::Eof),
                FrameStepView::Fault(f) => r matches Err(ReadError::Frame(g)) && f == g,
                FrameStepView::Document(bytes) => match decoded(bytes) {
                    Some(fields) => r matches Ok(ReadState::Document(d)) && document_fields(d)
                        == fields,
                    None => r matches Err(ReadError::Document(_)),
                },
            },
    {
        match self.advance(chunk) {
            FrameStep::More => Ok(ReadState::More),
            FrameStep::End => Ok(ReadState::Eof),
            FrameStep::Fault(f) => Err(ReadError::Frame(f)),
            FrameStep::Document(bytes) => match decode_document(bytes.as_slice()) {
                Ok(d) => Ok(ReadState::Document(d)),
                Err(e) => Err(ReadError::Document(e)),
            },
        }
    }
}

/// Whether the chunks can be what was read, one after the other, after `held`: none is
/// empty, and none is longer than what was wanted.
pub open spec fn deliverable(held: Seq<u8>, chunks: Seq<Seq<u8>>) -> bool
    decreases chunks.len(),
{
    chunks.len() > 0 ==> {
        &&& 0 < chunks[0].len() <= wanted_after(held)
        &&& !(step(held, chunks[0]) is Fault) ==> deliverable(
            held_after(held, chunks[0]),
            chunks.drop_first(),
        )
    }
}

/// What comes of reading the chunks and then the end of the stream, up to the first
/// fault: the documents, and the fault.
pub open spec fn read_all(held: Seq<u8>, chunks: Seq<Seq<u8>>) -> (
    Seq<Seq<u8>>,
    Option<FrameFault>,
)
    decreases chunks.len(),
{
    if chunks.len() == 0 {
        match step(held, Seq::empty()) {
            FrameStepView::Fault(f) => (Seq::empty(), Some(f)),
            _ => (Seq::empty(), None),
        }
    } else {
        match step(held, chunks[0]) {
            FrameStepView::Fault(f) => (Seq::empty(), Some(f)),
            FrameStepView::Document(d) => {
                let rest = read_all(Seq::empty(), chunks.drop_first());
                (seq![d] + rest.0, rest.1)
            },
            _ => read_all(held + chunks[0], chunks.drop_first()),
        }
    }
}

/// The documents of a stream do not depend on how many bytes each read delivers.
pub proof fn law_documents_do_not_depend_on_the_reads(held: Seq<u8>, chunks: Seq<Seq<u8>>)
    requires
        is_partial(held),
        deliverable(held, chunks),
    ensures
        read_all(held, chunks) == frames(held + chunks.flatten()),
    decreases chunks.len(),
{
    let stream = held + chunks.flatten();
    if chunks.len() == 0 {
        assert(stream =~= held);
    } else {
        let all = held + chunks[0];
        let rest = chunks.drop_first();
        assert(stream =~= all + rest.flatten());
        match step(held, chunks[0]) {
            FrameStepView::Fault(f) => {},
            FrameStepView::Document(d) => {
                assert(length_prefix(stream) == all.len());
                assert(stream.take(all.len() as int) =~= all);
                assert(stream.skip(all.len() as int) =~= Seq::<u8>::empty() + rest.flatten());
                law_documents_do_not_depend_on_the_reads(Seq::empty(), rest);
            },
            _ => {
                law_documents_do_not_depend_on_the_reads(all, rest);
            },
        }
    }
}

/// Whether the bytes begin with their own number.
pub open spec fn is_framed(d: Seq<u8>) -> bool {
    5 <= d.len() && length_prefix(d) == d.len()
}

/// Documents that are written one after the other are read back, in their order.
pub proof fn law_written_documents_are_read_back(documents: Seq<Seq<u8>>)
    requires
        forall|i: int| 0 <= i < documents.len() ==> is_framed(#[trigger] documents[i]),
    ensures
        frames(documents.flatten()) == (documents, None::<FrameFault>),
    decreases documents.len(),
{
    if documents.len() > 0 {
        let d = documents[0];
        let rest = documents.drop_first();
        let stream = documents.flatten();
        assert(stream =~= d + rest.flatten());
        assert(is_framed(d));
        assert forall|i: int| 0 <= i < rest.len() implies is_framed(#[trigger] rest[i]) by {
            assert(is_framed(documents[i + 1]));
        }
        law_written_documents_are_read_back(rest);
        assert(stream.take(d.len() as int) =~= d);
        assert(stream.skip(d.len() as int) =~= rest.flatten());
        assert(seq![d] + rest =~= documents);
    } else {
        assert(documents =~= Seq::empty());
        assert(documents.flatten() =~= Seq::<u8>::empty());
    }
}

/// Why reading documents from a stream ends before the end of the stream.
pub enum StreamFault {
    Frame(FrameFault),
    /// The bytes of a document do not decode.
    Malformed,
}

/// The documents that are read from a stream, each by its fields, and the fault that
/// reading ends with, if any.
pub open spec fn documents(stream: Seq<u8>) -> (Seq<Map<Seq<char>, Node>>, Option<StreamFault>)
    decreases stream.len(),
{
    match next_frame(stream) {
        Frame::End => (Seq::empty(), None),
        Frame::Fault(f) => (Seq::empty(), Some(StreamFault::Frame(f))),
        Frame::Document(d) => match decoded(d) {
            None => (Seq::empty(), Some(StreamFault::Malformed)),
            Some(fields) => {
                let rest = documents(stream.skip(d.len() as int));
                (seq![fields] + rest.0, rest.1)
            },
        },
    }
}

/// What is read from a stream is what its frames decode to, up to the first one that does
/// not: all of them, where each does.
pub proof fn law_documents_are_the_decoded_frames(stream: Seq<u8>)
    requires
        forall|i: int|
            0 <= i < frames(stream).0.len() ==> decoded(#[trigger] frames(stream).0[i]) is Some,
    ensures
        documents(stream).0 == frames(stream).0.map_values(|d: Seq<u8>| decoded(d)->0),
        documents(stream).1 == match frames(stream).1 {
            Some(f) => Some(StreamFault::Frame(f)),
            None => None,
        },
    decreases stream.len(),
{
    let contents = frames(stream).0.map_values(|d: Seq<u8>| decoded(d)->0);
    match next_frame(stream) {
        Frame::Document(d) => {
            let rest = stream.skip(d.len() as int);
            let all = frames(stream).0;
            assert(all[0] == d);
            assert forall|i: int| 0 <= i < frames(rest).0.len() implies decoded(
                #[trigger] frames(rest).0[i],
            ) is Some by {
                assert(all[i + 1] == frames(rest).0[i]);
            }
            law_documents_are_the_decoded_frames(rest);
            assert(contents =~= seq![decoded(d)->0] + frames(rest).0.map_values(
                |d: Seq<u8>| decoded(d)->0,
            ));
        },
        _ => {
            assert(contents =~= Seq::empty());
        },
    }
}

/// Documents whose encodings follow each other in a stream are read back from it, each
/// once and in their order, and then the end; after the end there is nothing but the end.
pub proof fn law_encoded_documents_are_read_back(
    encodings: Seq<Seq<u8>>,
    contents: Seq<Map<Seq<char>, Node>>,
)
    requires
        encodings.len() == contents.len(),
        forall|i: int|
            0 <= i < encodings.len() ==> is_encoding(#[trigger] encodings[i], contents[i]),
    ensures
        documents(encodings.flatten()) == (contents, None::<StreamFault>),
        step(Seq::empty(), Seq::empty()) == FrameStepView::End,
        held_after(Seq::empty(), Seq::empty()) == Seq::<u8>::empty(),
{
    assert forall|i: int| 0 <= i < encodings.len() implies is_framed(#[trigger] encodings[i]) by {
        assert(is_encoding(encodings[i], contents[i]));
    }
    law_written_documents_are_read_back(encodings);
    let stream = encodings.flatten();
    assert forall|i: int| 0 <= i < frames(stream).0.len() implies decoded(
        #[trigger] frames(stream).0[i],
    ) is Some by {
        assert(is_encoding(encodings[i], contents[i]));
    }
    law_documents_are_the_decoded_frames(stream);
    assert forall|i: int| 0 <= i < contents.len() implies decoded(encodings[i])->0
        == contents[i] by {
        assert(is_encoding(encodings[i], contents[i]));
    }
    assert(encodings.map_values(|d: Seq<u8>| decoded(d)->0) =~= contents);
}

/// The documents of a stream are what it begins with, and all of it where it has no
/// fault. Each begins with its own length.
pub proof fn law_no_byte_is_lost(stream: Seq<u8>)
    ensures
        frames(stream).0.flatten().is_prefix_of(stream),
        frames(stream).1 is None ==> frames(stream).0.flatten() == stream,
        forall|i: int|
            0 <= i < frames(stream).0.len() ==> is_framed(#[trigger] frames(stream).0[i]),
    decreases stream.len(),
{
    match next_frame(stream) {
        Frame::End => {},
        Frame::Fault(_) => {},
        Frame::Document(d) => {
            let rest = stream.skip(d.len() as int);
            let (documents, fault) = frames(rest);
            law_no_byte_is_lost(rest);
            assert(frames(stream).0.drop_first() =~= documents);
            assert(frames(stream).0.flatten() =~= d + documents.flatten());
            assert(stream =~= d + rest);
            assert forall|i: int| 0 <= i < frames(stream).0.len() implies is_framed(
                #[trigger] frames(stream).0[i],
            ) by {
                if i > 0 {
                    assert(frames(stream).0[i] == documents[i - 1]);
                }
            }
        },
    }
}

/// The length that four bytes give is the number whose digits in base 256 they are, the low
/// one first, in two's complement; whatever follows them does not matter.
pub proof fn law_length_is_little_endian(b0: u8, b1: u8, b2: u8, b3: u8, rest: Seq<u8>)
    ensures
        ({
            let n = length_prefix(seq![b0, b1, b2, b3] + rest);
            let unsigned = b0 as int + 256 * (b1 as int) + 256 * 256 * (b2 as int) + 256 * 256
                * 256 * (b3 as int);
            &&& b3 < 128 ==> n == unsigned
            &&& b3 >= 128 ==> n == unsigned - 256 * 256 * 256 * 256
            &&& i32::MIN <= n <= i32::MAX
        }),
{
}

/// The byte of a number that stands at a place of its little-endian bytes.
pub open spec fn little_endian_byte(n: int, place: nat) -> int
    decreases place,
{
    if place == 0 {
        n % 256
    } else {
        little_endian_byte(n / 256, (place - 1) as nat)
    }
}

/// A stream that begins with the four little-endian bytes of a length from 5 on, and is just
/// so long, is one document: all of it.
pub proof fn law_sized_stream_is_one_document(stream: Seq<u8>)
    requires
        5 <= stream.len() <= i32::MAX,
        forall|i: int|
            0 <= i < 4 ==> #[trigger] stream[i] == little_endian_byte(
                stream.len() as int,
                i as nat,
            ),
    ensures
        frames(stream) == (seq![stream], None::<FrameFault>),
        next_frame(stream) == Frame::Document(stream),
{
    let n = stream.len() as int;
    reveal_with_fuel(little_endian_byte, 5);
    assert(stream[0] == n % 256);
    assert(stream[1] == little_endian_byte(n, 1));
    assert(stream[2] == little_endian_byte(n, 2));
    assert(stream[3] == little_endian_byte(n, 3));
    assert(little_endian_byte(n, 1) == (n / 256) % 256);
    assert(little_endian_byte(n, 2) == (n / 256 / 256) % 256);
    assert(little_endian_byte(n, 3) == (n / 256 / 256 / 256) % 256);
    assert(length_prefix(stream) == n);
    assert(stream.take(n) =~= stream);
    let rest = stream.skip(n);
    assert(rest =~= Seq::<u8>::empty());
    assert(frames(rest).0 =~= Seq::empty());
    assert(seq![stream] + frames(rest).0 =~= seq![stream]);
}

/// A stream ends cleanly only where nothing is left; it is faulty where it ends within a
/// length, where the length is below five, which is then told, or where it ends before the
/// document does. In every other case it begins with a document of the length that its
/// first four bytes give.
pub proof fn law_streams_begin_with_a_document_or_a_fault(stream: Seq<u8>)
    ensures
        (next_frame(stream) is End) == (stream.len() == 0),
        0 < stream.len() < 4 ==> next_frame(stream) == Frame::Fault(FrameFault::TruncatedPrefix),
        stream.len() >= 4 ==> ({
            let unsigned = stream[0] as int + 256 * (stream[1] as int) + 65536 * (
            stream[2] as int) + 16777216 * (stream[3] as int);
            let n = if stream[3] >= 128 {
                unsigned - 4294967296
            } else {
                unsigned
            };
            &&& n < 5 ==> (next_frame(stream) matches Frame::Fault(FrameFault::InvalidLength(m))
                && m == n)
            &&& n >= 5 && stream.len() < n ==> next_frame(stream) == Frame::Fault(
                FrameFault::TruncatedBody,
            )
            &&& n >= 5 && stream.len() >= n ==> (next_frame(stream) matches Frame::Document(d)
                && d.len() == n && d.is_prefix_of(stream))
        }),
{
}

/// A document at the beginning of a stream is the first one that is read, and the rest is
/// read as if the stream began there; a fault at the beginning is all that is read.
pub proof fn law_streams_are_read_from_the_front(d: Seq<u8>, rest: Seq<u8>)
    requires
        is_framed(d),
    ensures
        frames(d + rest).0 == seq![d] + frames(rest).0,
        frames(d + rest).1 == frames(rest).1,
        (next_frame(rest) matches Frame::Fault(f) ==> frames(rest) == (
            Seq::<Seq<u8>>::empty(),
            Some(f),
        )),
        rest.len() == 0 ==> frames(rest) == (Seq::<Seq<u8>>::empty(), None::<FrameFault>),
{
    let stream = d + rest;
    assert(stream.take(d.len() as int) =~= d);
    assert(stream.skip(d.len() as int) =~= rest);
}

/// After some bytes of a document no more is asked for than the length and the document
/// have left, and at least one byte.
pub proof fn law_no_byte_of_the_next_document_is_asked_for(held: Seq<u8>)
    requires
        is_partial(held),
    ensures
        wanted_after(held) > 0,
        held.len() < 4 ==> held.len() + wanted_after(held) == 4,
        held.len() >= 4 ==> held.len() + wanted_after(held) == length_prefix(held),
{
}

/// Reading from a stream of one document that does not decode ends with that fault, and
/// a document that decodes is given before anything that follows.
pub proof fn law_documents_are_decoded_in_turn(d: Seq<u8>, rest: Seq<u8>)
    requires
        is_framed(d),
    ensures
        decoded(d) is None ==> documents(d + rest).0.len() == 0 && documents(d + rest).1 == Some(
            StreamFault::Malformed,
        ),
        decoded(d) is Some ==> documents(d + rest).0 == seq![decoded(d)->0] + documents(rest).0
            && documents(d + rest).1 == documents(rest).1,
{
    let stream = d + rest;
    assert(stream.take(d.len() as int) =~= d);
    assert(stream.skip(d.len() as int) =~= rest);
}

/// What comes of each read agrees with the stream that was read so far: a document as soon
/// as the stream has one, and a length that is too small as soon as it is read. Where the
/// stream has neither, more is read and nothing is lost.
pub proof fn law_reads_agree_with_the_stream(held: Seq<u8>, chunk: Seq<u8>)
    requires
        is_partial(held),
        0 < chunk.len() <= wanted_after(held),
    ensures
        match next_frame(held + chunk) {
            Frame::Document(d) => step(held, chunk) == FrameStepView::Document(d) && d == held
                + chunk && held_after(held, chunk).len() == 0,
            Frame::Fault(FrameFault::InvalidLength(n)) => step(held, chunk)
                == FrameStepView::Fault(FrameFault::InvalidLength(n)) && held_after(
                held,
                chunk,
            ).len() == 0,
            Frame::Fault(_) => step(held, chunk) is More && held_after(held, chunk) == held
                + chunk && is_partial(held + chunk),
            Frame::End => false,
        },
{
    let all = held + chunk;
    if all.len() >= 4 {
        if held.len() >= 4 {
            assert(length_prefix(all) == length_prefix(held));
        }
        if length_prefix(all) >= 5 && all.len() >= length_prefix(all) {
            assert(all.take(length_prefix(all)) =~= all);
        }
    }
}

/// Where the stream ends, what is held tells whether it ended well: it did where nothing is
/// held, and else it ended within a length or within a document.
pub proof fn law_ends_agree_with_the_stream(held: Seq<u8>)
    requires
        is_partial(held),
    ensures
        match next_frame(held) {
            Frame::End => step(held, Seq::empty()) is End && held.len() == 0,
            Frame::Fault(f) => step(held, Seq::empty()) == FrameStepView::Fault(f),
            Frame::Document(_) => false,
        },
        held_after(held, Seq::empty()).len() == 0,
{
}

/// A document is framed exactly where a stream of it alone begins with the whole of it.
pub proof fn law_framed_documents_are_whole_frames(d: Seq<u8>)
    ensures
        is_framed(d) <==> next_frame(d) == Frame::Document(d),
{
    if d.len() >= 4 && 5 <= length_prefix(d) <= d.len() {
        assert(d.take(length_prefix(d)).len() == length_prefix(d));
        if length_prefix(d) == d.len() {
            assert(d.take(length_prefix(d)) =~= d);
        }
    }
}

/// What comes of bytes is seen with all the bytes of a document.
pub proof fn law_steps_are_seen_whole(s: FrameStep)
    ensures
        match s {
            FrameStep::More => s@ is More,
            FrameStep::Document(d) => s@ == FrameStepView::Document(d@),
            FrameStep::End => s@ is End,
            FrameStep::Fault(f) => s@ == FrameStepView::Fault(f),
        },
{
}

/// Each reason has words of its own, and a length that is too small is told in digits.
pub proof fn law_reasons_are_told_in_words(n: i32, e: DecodeError)
    ensures
        ReadError::Frame(FrameFault::TruncatedPrefix).text()
            == "Unexpected EOF in the middle of BSON size prefix"@,
        ReadError::Frame(FrameFault::InvalidLength(n)).text() == "Invalid BSON document length: "@
            + integer_text(n as int),
        ReadError::Frame(FrameFault::TruncatedBody).text()
            == "Unexpected EOF while reading BSON document body"@,
        ReadError::Document(e).text() == "Failed to parse BSON document"@,
{
}

} // verus!
