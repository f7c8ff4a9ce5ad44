//! Retrieval-augmented answering over indexed folders: the bookkeeping of an indexing
//! pass, the bisecting retry for chunks rejected as too large, and the grounded prompt
//! and citations built from retrieved chunks. Walking, reading, storing and the model
//! calls are done by the caller, which reports each result here.
use crate::lemonade::{is_too_large, marks_too_large};
use crate::text::{
    contains_seq, decimal, decimal_string, ends_with_seq, occurs_at, starts_with_seq, trim, trimmed,
};
use vstd::prelude::*;
use vstd::string::*;
use vstd::utf8::*;

verus! {

/// The model every chunk and question is embedded with.
pub const EMBEDDING_MODEL: &'static str = "nomic-embed-text-v1-GGUF";

/// The 4-bit Qwen3 build, the smallest generation model the app was tuned on.
pub const CHAT_MODEL: &'static str = "Qwen3-0.6B-GGUF";

/// The generation model a fresh install answers with; it runs in the light tier.
pub const DEFAULT_CHAT_MODEL: &'static str = "Bonsai-8B-gguf";

/// How many chunks go into one embeddings request.
pub const EMBED_BATCH_SIZE: usize = 32;

/// How many retrieved chunks ground an answer.
pub const TOP_K: usize = 5;

/// Persist at most this often during a run, so a long index is not lost on a crash.
pub const FLUSH_EVERY_N_FILES: usize = 50;

/// How many times a single chunk may be halved before it is given up on.
pub const MAX_SPLIT_DEPTH: u32 = 6;

/// Below this many bytes a chunk is not split further.
pub const MIN_SPLIT_CHARS: usize = 200;

/// The counts one indexing pass reports.
#[derive(Debug, Clone, Copy, PartialEq, Eq)]
pub struct IndexStats {
    pub files_indexed: usize,
    pub chunks_indexed: usize,
    pub files_skipped_unchanged: usize,
    pub files_purged: usize,
    pub files_failed: usize,
    /// True when the job stopped early because its folder was removed or superseded.
    pub cancelled: bool,
}

/// A citation: the file and line range a piece of context came from.
#[derive(Debug, Clone)]
pub struct Source {
    pub file: String,
    pub start_line: usize,
    pub end_line: usize,
}

/// An answer with the citations of the context it was grounded in.
#[derive(Debug, Clone)]
pub struct AskResponse {
    pub answer: String,
    pub sources: Vec<Source>,
}

/// A piece of a file to embed, with the lines it spans.
#[derive(Debug, Clone)]
pub struct ChunkSpan {
    pub text: String,
    pub start_line: usize,
    pub end_line: usize,
}

/// A chunk as stored: its lines, its text and its embedding.
pub struct NewChunk<E> {
    pub start_line: usize,
    pub end_line: usize,
    pub text: String,
    pub embedding: Vec<E>,
}

/// A chunk found for a question.
pub struct RetrievedChunk {
    pub file_path: String,
    pub start_line: usize,
    pub end_line: usize,
    pub text: String,
}

// ---------------------------------------------------------------------------
// Splitting a chunk
// ---------------------------------------------------------------------------

/// The first character boundary of `bytes` at or after `i`.
pub open spec fn boundary_from(bytes: Seq<u8>, i: int) -> int
    decreases bytes.len() - i,
{
    if i >= bytes.len() {
        bytes.len() as int
    } else if is_char_boundary(bytes, i) {
        i
    } else {
        boundary_from(bytes, i + 1)
    }
}

/// Where a chunk of text with these UTF-8 bytes is cut in two: the first character
/// boundary at or after its byte midpoint.
pub open spec fn split_point(bytes: Seq<u8>) -> int {
    boundary_from(bytes, (bytes.len() / 2) as int)
}

proof fn lemma_boundary_from(bytes: Seq<u8>, i: int)
    requires
        0 <= i <= bytes.len(),
        valid_utf8(bytes),
    ensures
        i <= boundary_from(bytes, i) <= bytes.len(),
        is_char_boundary(bytes, boundary_from(bytes, i)),
        forall|j: int| i <= j < boundary_from(bytes, i) ==> !is_char_boundary(bytes, j),
    decreases bytes.len() - i,
{
    if i >= bytes.len() {
        is_char_boundary_start_end_of_seq(bytes);
    } else if !is_char_boundary(bytes, i) {
        lemma_boundary_from(bytes, i + 1);
    }
}

fn copy_span(span: &ChunkSpan) -> (r: ChunkSpan)
    ensures
        r.text@ == span.text@,
        r.start_line == span.start_line,
        r.end_line == span.end_line,
{
    ChunkSpan { text: span.text.clone(), start_line: span.start_line, end_line: span.end_line }
}

/// Cuts a chunk in two at the first character boundary at or after its byte midpoint.
/// Both halves keep the chunk's line range; together they hold its text.
pub fn split_span(span: &ChunkSpan) -> (r: (ChunkSpan, ChunkSpan))
    ensures
        r.0.text@ + r.1.text@ == span.text@,
        encode_utf8(r.0.text@) == encode_utf8(span.text@).subrange(
            0,
            split_point(encode_utf8(span.text@)),
        ),
        r.0.start_line == span.start_line && r.0.end_line == span.end_line,
        r.1.start_line == span.start_line && r.1.end_line == span.end_line,
{
    let s = span.text.as_str();
    let ghost bytes = s.spec_bytes();
    proof {
        encode_utf8_valid_utf8(s@);
    }
    let len = s.as_bytes().len();
    let mut boundary = len / 2;
    proof {
        lemma_boundary_from(bytes, boundary as int);
    }
    while boundary < len && !s.is_char_boundary(boundary)
        invariant
            len == bytes.len(),
            boundary <= len,
            valid_utf8(bytes),
            bytes == s.spec_bytes(),
            boundary_from(bytes, boundary as int) == split_point(bytes),
        decreases len - boundary,
    {
        boundary = boundary + 1;
    }
    proof {
        lemma_boundary_from(bytes, boundary as int);
        if boundary == len {
            is_char_boundary_start_end_of_seq(bytes);
        }
        decode_utf8_split(bytes, boundary as int);
        encode_utf8_decode_utf8(s@);
    }
    let (left, right) = s.split_at(boundary);
    proof {
        encode_utf8_decode_utf8(left@);
        encode_utf8_decode_utf8(right@);
    }
    (
        ChunkSpan { text: left.to_owned(), start_line: span.start_line, end_line: span.end_line },
        ChunkSpan { text: right.to_owned(), start_line: span.start_line, end_line: span.end_line },
    )
}

// ---------------------------------------------------------------------------
// Embedding one chunk, halving it while it is too large
// ---------------------------------------------------------------------------

/// The text of finished pieces, in order.
pub open spec fn done_text<E>(done: Seq<(ChunkSpan, Vec<E>)>) -> Seq<char>
    decreases done.len(),
{
    if done.len() == 0 {
        Seq::empty()
    } else {
        done_text(done.drop_last()) + done.last().0.text@
    }
}

/// The text of pending pieces in the order they will be sent: the top of the stack
/// (its last element) first.
pub open spec fn pending_text(pending: Seq<(ChunkSpan, u32)>) -> Seq<char>
    decreases pending.len(),
{
    if pending.len() == 0 {
        Seq::empty()
    } else {
        pending.last().0.text@ + pending_text(pending.drop_last())
    }
}

/// The requests a piece at split depth `depth` can still cost: one, plus two halves'
/// worth while it may still be split.
pub open spec fn piece_work(depth: u32) -> nat
    decreases MAX_SPLIT_DEPTH - depth,
{
    if depth >= MAX_SPLIT_DEPTH {
        1
    } else {
        2 * piece_work((depth + 1) as u32) + 1
    }
}

/// The requests the pending pieces can still cost.
pub open spec fn pending_work(pending: Seq<(ChunkSpan, u32)>) -> nat
    decreases pending.len(),
{
    if pending.len() == 0 {
        0
    } else {
        piece_work(pending.last().1) + pending_work(pending.drop_last())
    }
}

/// The share of the original chunk that a piece at split depth `depth` stands for, in
/// units of the smallest piece: halving a piece halves its share.
pub open spec fn piece_share(depth: u32) -> nat
    decreases MAX_SPLIT_DEPTH - depth,
{
    if depth >= MAX_SPLIT_DEPTH {
        1
    } else {
        2 * piece_share((depth + 1) as u32)
    }
}

/// The shares of the pending pieces.
pub open spec fn pending_share(pending: Seq<(ChunkSpan, u32)>) -> nat
    decreases pending.len(),
{
    if pending.len() == 0 {
        0
    } else {
        piece_share(pending.last().1) + pending_share(pending.drop_last())
    }
}

/// The most pieces one chunk can end up in: 2 to the power [`MAX_SPLIT_DEPTH`].
pub open spec fn max_pieces() -> nat {
    piece_share(0)
}

proof fn lemma_max_pieces()
    ensures
        max_pieces() == 64,
{
    assert(piece_share(6) == 1);
    assert(piece_share(5) == 2);
    assert(piece_share(4) == 4);
    assert(piece_share(3) == 8);
    assert(piece_share(2) == 16);
    assert(piece_share(1) == 32);
    assert(piece_share(0) == 64);
}

proof fn lemma_share_positive(depth: u32)
    ensures
        piece_share(depth) >= 1,
    decreases MAX_SPLIT_DEPTH - depth,
{
    if depth < MAX_SPLIT_DEPTH {
        lemma_share_positive((depth + 1) as u32);
    }
}

proof fn lemma_pending_share_counts(pending: Seq<(ChunkSpan, u32)>)
    ensures
        pending_share(pending) >= pending.len(),
    decreases pending.len(),
{
    if pending.len() > 0 {
        lemma_share_positive(pending.last().1);
        lemma_pending_share_counts(pending.drop_last());
    }
}

/// The embedding a reply gives a piece: the last vector returned, or none.
pub open spec fn reply_vector<E>(embeddings: Seq<Vec<E>>) -> Seq<E> {
    if embeddings.len() == 0 {
        Seq::empty()
    } else {
        embeddings.last()@
    }
}

/// Embedding one chunk, halving a piece each time it is rejected as too large, until
/// it fits or is too short or too deeply split to halve again; such a piece is kept
/// with an empty embedding. The caller sends [`ResilientEmbed::next_text`] and hands
/// the result to [`ResilientEmbed::on_reply`] until [`ResilientEmbed::is_finished`].
pub struct ResilientEmbed<E> {
    pending: Vec<(ChunkSpan, u32)>,
    done: Vec<(ChunkSpan, Vec<E>)>,
    original: Ghost<ChunkSpan>,
    /// The shares of the finished pieces.
    spent: Ghost<nat>,
}

impl<E> ResilientEmbed<E> {
    /// The pieces still to send, the next one last, with their split depth.
    pub closed spec fn pending(&self) -> Seq<(ChunkSpan, u32)> {
        self.pending@
    }

    /// The pieces that are done, in order, with their embedding.
    pub closed spec fn done(&self) -> Seq<(ChunkSpan, Vec<E>)> {
        self.done@
    }

    /// The chunk being embedded.
    pub closed spec fn original(&self) -> ChunkSpan {
        self.original@
    }

    /// The pieces done and pending hold the chunk's text in order, all carry its line
    /// range, none is split deeper than [`MAX_SPLIT_DEPTH`], and their shares add up to
    /// the whole chunk.
    #[verifier::type_invariant]
    closed spec fn wf(self) -> bool {
        &&& done_text(self.done@) + pending_text(self.pending@) == self.original@.text@
        &&& forall|i: int|
            0 <= i < self.done@.len() ==> (#[trigger] self.done@[i]).0.start_line
                == self.original@.start_line && self.done@[i].0.end_line
                == self.original@.end_line
        &&& forall|i: int|
            0 <= i < self.pending@.len() ==> (#[trigger] self.pending@[i]).0.start_line
                == self.original@.start_line && self.pending@[i].0.end_line
                == self.original@.end_line && self.pending@[i].1 <= MAX_SPLIT_DEPTH
        &&& self.spent@ + pending_share(self.pending@) == max_pieces()
        &&& self.done@.len() <= self.spent@
    }

    /// Starts with the whole chunk pending.
    pub fn new(span: ChunkSpan) -> (r: Self)
        ensures
            r.original() == span,
            r.pending() == seq![(span, 0u32)],
            r.done().len() == 0,
    {
        let ghost g = span;
        let mut pending = Vec::new();
        pending.push((span, 0u32));
        proof {
            assert(pending@.drop_last() =~= Seq::<(ChunkSpan, u32)>::empty());
            assert(pending@.last() == (g, 0u32));
            assert(pending_text(Seq::<(ChunkSpan, u32)>::empty()) == Seq::<char>::empty());
            assert(pending_text(pending@) == g.text@ + Seq::<char>::empty());
            assert(pending_text(pending@) =~= g.text@);
            let d: Seq<(ChunkSpan, Vec<E>)> = Seq::empty();
            assert(done_text(d) + pending_text(pending@) =~= g.text@);
            assert(pending_share(pending@) == piece_share(0) + pending_share(Seq::<(ChunkSpan, u32)>::empty()));
        }
        ResilientEmbed { pending, done: Vec::new(), original: Ghost(g), spent: Ghost(0) }
    }

    /// Whether every piece is done.
    pub fn is_finished(&self) -> (b: bool)
        ensures
            b == (self.pending().len() == 0),
    {
        self.pending.len() == 0
    }

    /// The text to embed next: that of the top pending piece.
    pub fn next_text(&self) -> (r: Option<String>)
        ensures
            match r {
                Some(t) => self.pending().len() > 0 && t@ == self.pending().last().0.text@,
                None => self.pending().len() == 0,
            },
    {
        if self.pending.len() == 0 {
            None
        } else {
            Some(self.pending[self.pending.len() - 1].0.text.clone())
        }
    }

    /// Takes the embeddings result for the top pending piece. A vector finishes it; a
    /// too-large rejection halves it when it is at depth under [`MAX_SPLIT_DEPTH`] and
    /// longer than [`MIN_SPLIT_CHARS`] bytes, and otherwise finishes it with no vector;
    /// any other error is returned. Each reply lowers the work left.
    pub fn on_reply(self, reply: Result<Vec<Vec<E>>, String>) -> (r: Result<Self, String>)
        requires
            self.pending().len() > 0,
        ensures
            ({
                let top = self.pending().last();
                let rest = self.pending().drop_last();
                match reply {
                    Ok(v) => r matches Ok(n) && n.pending() == rest && n.done().len()
                        == self.done().len() + 1 && n.done().drop_last() == self.done()
                        && n.done().last().0 == top.0 && n.done().last().1@ == reply_vector(v@),
                    Err(e) => if !marks_too_large(e@) {
                        r == Err::<Self, String>(e)
                    } else if top.1 < MAX_SPLIT_DEPTH && encode_utf8(top.0.text@).len()
                        > MIN_SPLIT_CHARS {
                        r matches Ok(n) && {
                            let (left, right) = (
                                n.pending().last(),
                                n.pending()[n.pending().len() - 2],
                            );
                            &&& n.done() == self.done()
                            &&& n.pending().len() == rest.len() + 2
                            &&& n.pending().subrange(0, rest.len() as int) == rest
                            &&& left.1 == top.1 + 1 && right.1 == top.1 + 1
                            &&& left.0.text@ + right.0.text@ == top.0.text@
                            &&& encode_utf8(left.0.text@) == encode_utf8(top.0.text@).subrange(
                                0,
                                split_point(encode_utf8(top.0.text@)),
                            )
                        }
                    } else {
                        r matches Ok(n) && n.pending() == rest && n.done() == self.done().push(
                            (top.0, n.done().last().1),
                        ) && n.done().last().1@.len() == 0
                    },
                }
            }),
            r matches Ok(n) ==> n.original() == self.original() && pending_work(n.pending())
                < pending_work(self.pending()),
            r matches Ok(n) ==> n.done().len() + n.pending().len() <= 64,
    {
        proof {
            use_type_invariant(&self);
        }
        let ResilientEmbed { mut pending, mut done, original, spent } = self;
        let ghost old_pending = pending@;
        let ghost old_done = done@;
        let (piece, depth) = pending.pop().unwrap();
        proof {
            assert(old_pending.drop_last() == pending@);
            assert(old_pending.last() == (piece, depth));
            lemma_share_positive(depth);
            lemma_max_pieces();
        }
        match reply {
            Ok(embeddings) => {
                let mut embeddings = embeddings;
                let embedding = match embeddings.pop() {
                    Some(v) => v,
                    None => Vec::new(),
                };
                done.push((piece, embedding));
                proof {
                    assert(done@.drop_last() =~= old_done);
                    assert(done_text(done@) == done_text(old_done) + piece.text@);
                    assert(done_text(old_done) + piece.text@ + pending_text(pending@)
                        =~= done_text(old_done) + pending_text(old_pending));
                    lemma_pending_share_counts(pending@);
                }
                Ok(
                    ResilientEmbed {
                        pending,
                        done,
                        original,
                        spent: Ghost(spent@ + piece_share(depth)),
                    },
                )
            },
            Err(e) => {
                if !is_too_large(e.as_str()) {
                    return Err(e);
                }
                if depth < MAX_SPLIT_DEPTH && piece.text.as_str().as_bytes().len()
                    > MIN_SPLIT_CHARS {
                    let (left, right) = split_span(&piece);
                    let ghost mid = pending@;
                    pending.push((right, depth + 1));
                    pending.push((left, depth + 1));
                    proof {
                        let p = pending@;
                        assert(p.drop_last().drop_last() =~= mid);
                        let p1 = p.drop_last();
                        assert(p1.last() == (right, (depth + 1) as u32));
                        assert(pending_text(p1) == right.text@ + pending_text(mid));
                        assert(pending_text(p) == left.text@ + pending_text(p1));
                        assert(pending_work(p1) == piece_work((depth + 1) as u32) + pending_work(mid));
                        assert(pending_work(p) == piece_work((depth + 1) as u32) + pending_work(p1));
                        assert(pending_share(p1) == piece_share((depth + 1) as u32) + pending_share(mid));
                        assert(pending_share(p) == piece_share((depth + 1) as u32) + pending_share(p1));
                        assert(pending_text(p) =~= piece.text@ + pending_text(mid));
                        assert(p.subrange(0, mid.len() as int) =~= mid);
                        assert forall|i: int| 0 <= i < p.len() implies (#[trigger] p[i]).0.start_line
                            == original@.start_line && p[i].0.end_line == original@.end_line
                            && p[i].1 <= MAX_SPLIT_DEPTH by {
                            if i < mid.len() {
                                assert(p[i] == mid[i]);
                                assert(mid[i] == old_pending[i]);
                            }
                        }
                        lemma_pending_share_counts(p);
                    }
                    Ok(ResilientEmbed { pending, done, original, spent })
                } else {
                    done.push((piece, Vec::new()));
                    proof {
                        assert(done@.drop_last() =~= old_done);
                        assert(done_text(done@) == done_text(old_done) + piece.text@);
                        assert(done_text(old_done) + piece.text@ + pending_text(pending@)
                            =~= done_text(old_done) + pending_text(old_pending));
                        lemma_pending_share_counts(pending@);
                    }
                    Ok(
                        ResilientEmbed {
                            pending,
                            done,
                            original,
                            spent: Ghost(spent@ + piece_share(depth)),
                        },
                    )
                }
            },
        }
    }

    /// The finished pieces with their embeddings, once nothing is pending: their texts,
    /// in order, are exactly the chunk's text, each keeps the chunk's line range, and
    /// there are at most 2 to the power [`MAX_SPLIT_DEPTH`] of them.
    pub fn into_pieces(self) -> (r: Vec<(ChunkSpan, Vec<E>)>)
        requires
            self.pending().len() == 0,
        ensures
            r@ == self.done(),
            done_text(r@) == self.original().text@,
            forall|i: int|
                0 <= i < r@.len() ==> (#[trigger] r@[i]).0.start_line == self.original().start_line
                    && r@[i].0.end_line == self.original().end_line,
            r@.len() <= max_pieces(),
            max_pieces() == 64,
    {
        proof {
            use_type_invariant(&self);
            lemma_max_pieces();
            assert(done_text(self.done@) + Seq::<char>::empty() =~= done_text(self.done@));
        }
        self.done
    }
}

// ---------------------------------------------------------------------------
// Indexing a folder
// ---------------------------------------------------------------------------

/// Where the current file of an indexing pass stands.
#[derive(Debug, Clone, Copy, PartialEq, Eq, Structural)]
pub enum FilePhase {
    /// No file is under way.
    Between,
    /// The file was read and changed since it was last indexed.
    Read,
    /// The file was cut into chunks.
    Chunked,
    /// Every chunk of the file got a vector.
    Embedded,
}

/// What the caller learned, before a file or about the current one.
pub enum FileEvent {
    /// The job was called off (its folder was removed or superseded).
    Cancelled,
    /// The file's metadata could not be read.
    Vanished,
    /// Its text could not be read (binary, not UTF-8, locked).
    Unreadable,
    /// Its text was read and hashed; `stored_hash` is the fingerprint on record.
    Read { stored_hash: Option<u64>, hash: u64 },
    /// Its text was cut into `spans` chunks.
    Chunked { spans: usize },
    /// Its chunks were embedded and `dropped` of them came back without a vector.
    Embedded { dropped: usize },
    /// Its chunks were handed to the store; `written` is false when the job was
    /// cancelled meanwhile.
    Stored { written: bool, chunks: usize },
}

/// What the caller does next.
#[derive(Debug, Clone, Copy, PartialEq, Eq)]
pub enum FileStep {
    /// Go on to the next file.
    Next,
    /// Drop the file's stored chunks, then go on to the next file.
    ClearAndNext,
    /// Cut the file into chunks.
    Chunk,
    /// Embed the file's chunks.
    Embed,
    /// Store the file's chunks under its new fingerprint.
    Store,
    /// Persist the index, then go on to the next file.
    FlushAndNext,
    /// Persist the index and end the pass as cancelled.
    Stop,
}

/// How far an indexing pass has got: files finished out of files walked.
#[derive(Debug, Clone, Copy, PartialEq, Eq)]
pub struct IndexProgress {
    pub files_done: usize,
    pub files_total: usize,
}

/// The bookkeeping of one indexing pass over `files_total` walked files.
#[derive(Debug, Clone, Copy, PartialEq, Eq)]
pub struct IndexCounts {
    pub files_total: usize,
    /// Files whose first event was reported.
    pub files_seen: usize,
    /// Files that are finished with.
    pub files_done: usize,
    pub files_indexed: usize,
    pub chunks_indexed: usize,
    pub files_skipped_unchanged: usize,
    pub files_purged: usize,
    pub files_failed: usize,
    /// Files stored since the index was last persisted.
    pub since_flush: usize,
    pub phase: FilePhase,
    pub cancelled: bool,
}

/// The files counted as indexed, unchanged or failed.
pub open spec fn files_settled(c: IndexCounts) -> int {
    c.files_indexed + c.files_skipped_unchanged + c.files_failed
}

/// Every settled file is finished, every finished file was seen, a file under way is
/// seen but not yet finished, no more files are seen than were walked, a cancelled
/// pass has no file under way, and the index is persisted at least every
/// [`FLUSH_EVERY_N_FILES`] stored files.
pub open spec fn index_counts_wf(c: IndexCounts) -> bool {
    &&& files_settled(c) <= c.files_done <= c.files_seen <= c.files_total
    &&& c.phase == FilePhase::Between ==> c.files_done == c.files_seen
    &&& c.phase != FilePhase::Between ==> c.files_done + 1 == c.files_seen
    &&& c.cancelled ==> c.phase == FilePhase::Between
    &&& c.since_flush < FLUSH_EVERY_N_FILES
}

/// Every walked file is finished and the pass was not called off.
pub open spec fn pass_complete(c: IndexCounts) -> bool {
    !c.cancelled && c.phase == FilePhase::Between && c.files_seen == c.files_total
}

/// Whether `e` may come next: a cancellation or a new file's first event between
/// files, and each later event after the one before it, with room for the chunks it
/// adds; nothing after a cancellation.
pub open spec fn event_fits(c: IndexCounts, e: FileEvent) -> bool {
    &&& !c.cancelled
    &&& match e {
        FileEvent::Cancelled => c.phase == FilePhase::Between,
        FileEvent::Vanished | FileEvent::Unreadable | FileEvent::Read { .. } => c.phase
            == FilePhase::Between && c.files_seen < c.files_total,
        FileEvent::Chunked { .. } => c.phase == FilePhase::Read,
        FileEvent::Embedded { .. } => c.phase == FilePhase::Chunked,
        FileEvent::Stored { chunks, .. } => c.phase == FilePhase::Embedded && c.chunks_indexed
            + chunks <= usize::MAX,
    }
}

/// `c` with the current file seen for the first time.
pub open spec fn seen_one(c: IndexCounts) -> IndexCounts {
    IndexCounts { files_seen: (c.files_seen + 1) as usize, ..c }
}

/// `c` with the current file finished.
pub open spec fn done_one(c: IndexCounts) -> IndexCounts {
    IndexCounts { files_done: (c.files_done + 1) as usize, phase: FilePhase::Between, ..c }
}

/// One step of an indexing pass: the bookkeeping after `e` and what to do next.
/// A cancellation ends the pass; a vanished file is passed over; an unreadable one
/// fails and loses its stale chunks; an unchanged fingerprint skips the file; a file
/// with no chunks loses its stale chunks; a file with a chunk left without a vector
/// fails and is not stored, so its stale fingerprint makes the next pass retry it; a
/// stored file is counted with its chunks, and every [`FLUSH_EVERY_N_FILES`]-th stored
/// file persists the index. Each file that ends is counted as done.
pub open spec fn index_step(c: IndexCounts, e: FileEvent) -> (IndexCounts, FileStep) {
    match e {
        FileEvent::Cancelled => (IndexCounts { cancelled: true, ..c }, FileStep::Stop),
        FileEvent::Vanished => (done_one(seen_one(c)), FileStep::Next),
        FileEvent::Unreadable => (
            done_one(IndexCounts { files_failed: (c.files_failed + 1) as usize, ..seen_one(c) }),
            FileStep::ClearAndNext,
        ),
        FileEvent::Read { stored_hash, hash } => if stored_hash == Some(hash) {
            (
                done_one(
                    IndexCounts {
                        files_skipped_unchanged: (c.files_skipped_unchanged + 1) as usize,
                        ..seen_one(c)
                    },
                ),
                FileStep::Next,
            )
        } else {
            (IndexCounts { phase: FilePhase::Read, ..seen_one(c) }, FileStep::Chunk)
        },
        FileEvent::Chunked { spans } => if spans == 0 {
            (done_one(c), FileStep::ClearAndNext)
        } else {
            (IndexCounts { phase: FilePhase::Chunked, ..c }, FileStep::Embed)
        },
        FileEvent::Embedded { dropped } => if dropped > 0 {
            (done_one(IndexCounts { files_failed: (c.files_failed + 1) as usize, ..c }), FileStep::Next)
        } else {
            (IndexCounts { phase: FilePhase::Embedded, ..c }, FileStep::Store)
        },
        FileEvent::Stored { written, chunks } => if !written {
            (done_one(c), FileStep::Next)
        } else {
            let stored = done_one(
                IndexCounts {
                    files_indexed: (c.files_indexed + 1) as usize,
                    chunks_indexed: (c.chunks_indexed + chunks) as usize,
                    ..c
                },
            );
            if c.since_flush + 1 >= FLUSH_EVERY_N_FILES {
                (IndexCounts { since_flush: 0, ..stored }, FileStep::FlushAndNext)
            } else {
                (IndexCounts { since_flush: (c.since_flush + 1) as usize, ..stored }, FileStep::Next)
            }
        },
    }
}

/// One indexing pass, driven file by file through [`IndexRun::step`].
pub struct IndexRun {
    counts: IndexCounts,
}

impl View for IndexRun {
    type V = IndexCounts;

    closed spec fn view(&self) -> IndexCounts {
        self.counts
    }
}

impl IndexRun {
    #[verifier::type_invariant]
    closed spec fn counts_wf(self) -> bool {
        index_counts_wf(self.counts)
    }

    /// A pass over `files_total` walked files, after `files_purged` files that the walk
    /// no longer yields were dropped from the index.
    pub fn new(files_total: usize, files_purged: usize) -> (r: Self)
        ensures
            r@ == (IndexCounts {
                files_total,
                files_seen: 0,
                files_done: 0,
                files_indexed: 0,
                chunks_indexed: 0,
                files_skipped_unchanged: 0,
                files_purged,
                files_failed: 0,
                since_flush: 0,
                phase: FilePhase::Between,
                cancelled: false,
            }),
    {
        IndexRun {
            counts: IndexCounts {
                files_total,
                files_seen: 0,
                files_done: 0,
                files_indexed: 0,
                chunks_indexed: 0,
                files_skipped_unchanged: 0,
                files_purged,
                files_failed: 0,
                since_flush: 0,
                phase: FilePhase::Between,
                cancelled: false,
            },
        }
    }

    /// The bookkeeping so far; it always satisfies [`index_counts_wf`].
    pub fn counts(&self) -> (c: IndexCounts)
        ensures
            c == self@,
            index_counts_wf(c),
    {
        proof {
            use_type_invariant(self);
        }
        self.counts
    }

    /// Records `e` and says what to do next.
    pub fn step(&mut self, e: FileEvent) -> (next: FileStep)
        requires
            event_fits(old(self)@, e),
        ensures
            (final(self)@, next) == index_step(old(self)@, e),
    {
        proof {
            use_type_invariant(&*self);
        }
        let mut c = self.counts;
        let next = match e {
            FileEvent::Cancelled => {
                c.cancelled = true;
                FileStep::Stop
            },
            FileEvent::Vanished => {
                c.files_seen = c.files_seen + 1;
                c.files_done = c.files_done + 1;
                FileStep::Next
            },
            FileEvent::Unreadable => {
                c.files_seen = c.files_seen + 1;
                c.files_failed = c.files_failed + 1;
                c.files_done = c.files_done + 1;
                FileStep::ClearAndNext
            },
            FileEvent::Read { stored_hash, hash } => {
                c.files_seen = c.files_seen + 1;
                let unchanged = match stored_hash {
                    Some(h) => h == hash,
                    None => false,
                };
                if unchanged {
                    c.files_skipped_unchanged = c.files_skipped_unchanged + 1;
                    c.files_done = c.files_done + 1;
                    FileStep::Next
                } else {
                    c.phase = FilePhase::Read;
                    FileStep::Chunk
                }
            },
            FileEvent::Chunked { spans } => {
                if spans == 0 {
                    c.files_done = c.files_done + 1;
                    c.phase = FilePhase::Between;
                    FileStep::ClearAndNext
                } else {
                    c.phase = FilePhase::Chunked;
                    FileStep::Embed
                }
            },
            FileEvent::Embedded { dropped } => {
                if dropped > 0 {
                    c.files_failed = c.files_failed + 1;
                    c.files_done = c.files_done + 1;
                    c.phase = FilePhase::Between;
                    FileStep::Next
                } else {
                    c.phase = FilePhase::Embedded;
                    FileStep::Store
                }
            },
            FileEvent::Stored { written, chunks } => {
                c.files_done = c.files_done + 1;
                c.phase = FilePhase::Between;
                if !written {
                    FileStep::Next
                } else {
                    c.files_indexed = c.files_indexed + 1;
                    c.chunks_indexed = c.chunks_indexed + chunks;
                    if c.since_flush + 1 >= FLUSH_EVERY_N_FILES {
                        c.since_flush = 0;
                        FileStep::FlushAndNext
                    } else {
                        c.since_flush = c.since_flush + 1;
                        FileStep::Next
                    }
                }
            },
        };
        self.counts = c;
        next
    }

    /// How far the pass has got.
    pub fn progress(&self) -> (p: IndexProgress)
        ensures
            p.files_done == self@.files_done,
            p.files_total == self@.files_total,
            p.files_done <= p.files_total,
    {
        proof {
            use_type_invariant(self);
        }
        IndexProgress { files_done: self.counts.files_done, files_total: self.counts.files_total }
    }

    /// Whether every walked file is finished and the pass was not called off.
    pub fn is_complete(&self) -> (b: bool)
        ensures
            b == pass_complete(self@),
    {
        !self.counts.cancelled && self.counts.phase == FilePhase::Between
            && self.counts.files_seen == self.counts.files_total
    }

    /// The counts to report, once the pass is complete or was called off.
    pub fn stats(&self) -> (r: IndexStats)
        requires
            self@.cancelled || pass_complete(self@),
        ensures
            r == (IndexStats {
                files_indexed: self@.files_indexed,
                chunks_indexed: self@.chunks_indexed,
                files_skipped_unchanged: self@.files_skipped_unchanged,
                files_purged: self@.files_purged,
                files_failed: self@.files_failed,
                cancelled: self@.cancelled,
            }),
    {
        IndexStats {
            files_indexed: self.counts.files_indexed,
            chunks_indexed: self.counts.chunks_indexed,
            files_skipped_unchanged: self.counts.files_skipped_unchanged,
            files_purged: self.counts.files_purged,
            files_failed: self.counts.files_failed,
            cancelled: self.counts.cancelled,
        }
    }
}

/// What to do with the result of embedding a batch of chunks.
pub enum BatchOutcome<E> {
    /// The chunks paired with their vectors.
    Embedded(Vec<(ChunkSpan, Vec<E>)>),
    /// A chunk was too large: embed the batch one chunk at a time, halving as needed.
    OneByOne,
    /// Any other failure ends the pass with this error.
    Abort(String),
}

/// Decides on a batch's embeddings result: vectors are paired with the batch's chunks;
/// a too-large rejection falls back to one request per chunk, so one dense chunk does
/// not sink the rest; any other error aborts the pass.
pub fn batch_outcome<E>(batch: &Vec<ChunkSpan>, result: Result<Vec<Vec<E>>, String>) -> (r: BatchOutcome<E>)
    ensures
        match result {
            Ok(embeddings) => r matches BatchOutcome::Embedded(paired) && paired_with(
                paired@,
                batch@,
                embeddings@,
            ),
            Err(e) => if marks_too_large(e@) {
                r is OneByOne
            } else {
                r == BatchOutcome::<E>::Abort(e)
            },
        },
{
    match result {
        Ok(embeddings) => BatchOutcome::Embedded(pair_batch(batch, embeddings)),
        Err(e) => if is_too_large(e.as_str()) {
            BatchOutcome::OneByOne
        } else {
            BatchOutcome::Abort(e)
        },
    }
}

/// `paired` holds the chunks of `batch` with the vectors of `embeddings`, in order, as
/// far as both go.
pub open spec fn paired_with<E>(
    paired: Seq<(ChunkSpan, Vec<E>)>,
    batch: Seq<ChunkSpan>,
    embeddings: Seq<Vec<E>>,
) -> bool {
    &&& paired.len() == if batch.len() < embeddings.len() {
        batch.len()
    } else {
        embeddings.len()
    }
    &&& forall|i: int|
        0 <= i < paired.len() ==> (#[trigger] paired[i]).0.text@ == batch[i].text@
            && paired[i].0.start_line == batch[i].start_line && paired[i].0.end_line
            == batch[i].end_line && paired[i].1 == embeddings[i]
}

/// The chunks of a batch paired with the vectors returned for it, in order, as far as
/// both go.
pub fn pair_batch<E>(batch: &Vec<ChunkSpan>, embeddings: Vec<Vec<E>>) -> (r: Vec<(ChunkSpan, Vec<E>)>)
    ensures
        paired_with(r@, batch@, embeddings@),
{
    let ghost all = embeddings@;
    let mut embeddings = embeddings;
    let mut out: Vec<(ChunkSpan, Vec<E>)> = Vec::new();
    let mut i: usize = 0;
    while i < batch.len() && embeddings.len() > 0
        invariant
            i <= batch@.len(),
            i <= all.len(),
            embeddings@ == all.subrange(i as int, all.len() as int),
            out@.len() == i,
            forall|j: int|
                0 <= j < i ==> (#[trigger] out@[j]).0.text@ == batch@[j].text@ && out@[j].0.start_line
                    == batch@[j].start_line && out@[j].0.end_line == batch@[j].end_line && out@[j].1
                    == all[j],
        decreases batch@.len() - i,
    {
        let v = embeddings.remove(0);
        out.push((copy_span(&batch[i]), v));
        i = i + 1;
        assert(embeddings@ =~= all.subrange(i as int, all.len() as int));
    }
    out
}

/// The chunks that got a vector, in order.
pub open spec fn kept_chunks<E>(embedded: Seq<(ChunkSpan, Vec<E>)>) -> Seq<NewChunk<E>>
    decreases embedded.len(),
{
    if embedded.len() == 0 {
        Seq::empty()
    } else {
        let before = kept_chunks(embedded.drop_last());
        let (span, embedding) = embedded.last();
        if embedding@.len() == 0 {
            before
        } else {
            before.push(
                NewChunk {
                    start_line: span.start_line,
                    end_line: span.end_line,
                    text: span.text,
                    embedding,
                },
            )
        }
    }
}

/// How many chunks came back without a vector.
pub open spec fn dropped_count<E>(embedded: Seq<(ChunkSpan, Vec<E>)>) -> nat
    decreases embedded.len(),
{
    if embedded.len() == 0 {
        0
    } else if embedded.last().1@.len() == 0 {
        dropped_count(embedded.drop_last()) + 1
    } else {
        dropped_count(embedded.drop_last())
    }
}

/// Turns embedded chunks into chunks to store, and counts those left without a vector.
pub fn collect_chunks<E>(embedded: Vec<(ChunkSpan, Vec<E>)>) -> (r: (Vec<NewChunk<E>>, usize))
    ensures
        r.0@ == kept_chunks(embedded@),
        r.1 == dropped_count(embedded@),
{
    let ghost all = embedded@;
    let n = embedded.len();
    let mut embedded = embedded;
    let mut kept: Vec<NewChunk<E>> = Vec::new();
    let mut dropped: usize = 0;
    let mut i: usize = 0;
    while embedded.len() > 0
        invariant
            i <= all.len(),
            all.len() == n,
            embedded@ == all.subrange(i as int, all.len() as int),
            kept@ == kept_chunks(all.take(i as int)),
            dropped == dropped_count(all.take(i as int)),
            dropped <= i,
        decreases embedded@.len(),
    {
        proof {
            assert(all.take(i + 1).drop_last() =~= all.take(i as int));
            assert(all.take(i + 1).last() == all[i as int]);
        }
        let (span, embedding) = embedded.remove(0);
        if embedding.len() == 0 {
            dropped = dropped + 1;
        } else {
            kept.push(
                NewChunk {
                    start_line: span.start_line,
                    end_line: span.end_line,
                    text: span.text,
                    embedding,
                },
            );
        }
        i = i + 1;
        assert(embedded@ =~= all.subrange(i as int, all.len() as int));
    }
    proof {
        assert(all.take(all.len() as int) =~= all);
    }
    (kept, dropped)
}

// ---------------------------------------------------------------------------
// Answering a question
// ---------------------------------------------------------------------------

/// The question as asked, trimmed; an empty question is refused.
pub fn question_text(question: &str) -> (r: Result<String, String>)
    ensures
        match r {
            Ok(q) => q@ == trimmed(question@) && q@.len() > 0,
            Err(e) => trimmed(question@).len() == 0 && e@ == "Question cannot be empty"@,
        },
{
    let q = trim(question);
    if q.as_str().is_empty() {
        Err("Question cannot be empty".to_owned())
    } else {
        Ok(q)
    }
}

/// The question's vector from an embeddings result: the first one, which must exist and
/// must not be empty.
pub fn query_vector<E>(embeddings: Vec<Vec<E>>) -> (r: Result<Vec<E>, String>)
    ensures
        match r {
            Ok(v) => embeddings@.len() > 0 && v@ == embeddings@[0]@ && v@.len() > 0,
            Err(e) => if embeddings@.len() == 0 {
                e@ == "empty embedding response"@
            } else {
                embeddings@[0]@.len() == 0 && e@
                    == "Lemonade returned an empty embedding for the question"@
            },
        },
{
    let mut embeddings = embeddings;
    if embeddings.len() == 0 {
        return Err("empty embedding response".to_owned());
    }
    let ghost first = embeddings@[0];
    let v = embeddings.swap_remove(0);
    if v.len() == 0 {
        Err("Lemonade returned an empty embedding for the question".to_owned())
    } else {
        Ok(v)
    }
}

/// The instruction every grounded answer is generated under.
pub open spec fn grounding_instruction() -> Seq<char> {
    GROUNDING_INSTRUCTION@
}

/// The instruction every grounded answer is generated under.
pub const GROUNDING_INSTRUCTION: &'static str = "You are a helpful assistant answering questions using ONLY the provided context. Every claim must be grounded in the context below. If the answer isn't in the context, say so plainly instead of guessing. Cite sources inline using the format [Source N].";

/// The answer given when nothing has been indexed yet.
pub const NOTHING_INDEXED: &'static str = "No indexed files yet \u{2014} add a folder first.";

/// The context entry for the `i`-th retrieved chunk (counted from 0).
pub open spec fn context_entry(c: RetrievedChunk, i: int) -> Seq<char> {
    "[Source "@ + decimal((i + 1) as nat) + ": "@ + c.file_path@ + " lines "@ + decimal(
        c.start_line as nat,
    ) + "-"@ + decimal(c.end_line as nat) + "]\n"@ + c.text@ + "\n\n"@
}

/// The context built from the first `n` retrieved chunks.
pub open spec fn context_of(chunks: Seq<RetrievedChunk>, n: int) -> Seq<char>
    decreases n,
{
    if n <= 0 {
        Seq::empty()
    } else {
        context_of(chunks, n - 1) + context_entry(chunks[n - 1], n - 1)
    }
}

/// The user message: the context, then the question.
pub open spec fn grounded_user_text(chunks: Seq<RetrievedChunk>, question: Seq<char>) -> Seq<char> {
    "Context:\n"@ + context_of(chunks, chunks.len() as int) + "\nQuestion: "@ + question
}

/// The citation for a retrieved chunk.
pub open spec fn cites(s: Source, c: RetrievedChunk) -> bool {
    s.file@ == c.file_path@ && s.start_line == c.start_line && s.end_line == c.end_line
}

/// What to do with a question once its chunks are retrieved.
pub enum AskPlan {
    /// Nothing is indexed: answer this without asking the model.
    NothingIndexed(AskResponse),
    /// Ask the model with this instruction and message; cite these sources.
    Chat { system: String, user: String, sources: Vec<Source> },
}

/// The plan for answering `question` from `chunks`, best first: with no chunks, the
/// "nothing indexed" answer; otherwise a grounded message that numbers each chunk as a
/// source, and one citation per chunk in the same order.
pub fn ask_plan(chunks: &Vec<RetrievedChunk>, question: &str) -> (r: AskPlan)
    requires
        chunks@.len() < usize::MAX,
    ensures
        match r {
            AskPlan::NothingIndexed(resp) => chunks@.len() == 0 && resp.answer@ == NOTHING_INDEXED@
                && resp.sources@.len() == 0,
            AskPlan::Chat { system, user, sources } => {
                &&& chunks@.len() > 0
                &&& system@ == grounding_instruction()
                &&& user@ == grounded_user_text(chunks@, question@)
                &&& sources@.len() == chunks@.len()
                &&& forall|i: int| 0 <= i < chunks@.len() ==> cites(#[trigger] sources@[i], chunks@[i])
            },
        },
{
    if chunks.len() == 0 {
        return AskPlan::NothingIndexed(
            AskResponse { answer: NOTHING_INDEXED.to_owned(), sources: Vec::new() },
        );
    }
    let mut context = String::new();
    let mut sources: Vec<Source> = Vec::new();
    let mut i: usize = 0;
    while i < chunks.len()
        invariant
            i <= chunks@.len(),
            chunks@.len() < usize::MAX,
            context@ == context_of(chunks@, i as int),
            sources@.len() == i,
            forall|j: int| 0 <= j < i ==> cites(#[trigger] sources@[j], chunks@[j]),
        decreases chunks@.len() - i,
    {
        let c = &chunks[i];
        context.append("[Source ");
        let num = decimal_string(i + 1);
        context.append(num.as_str());
        context.append(": ");
        context.append(c.file_path.as_str());
        context.append(" lines ");
        let start = decimal_string(c.start_line);
        context.append(start.as_str());
        context.append("-");
        let end = decimal_string(c.end_line);
        context.append(end.as_str());
        context.append("]\n");
        context.append(c.text.as_str());
        context.append("\n\n");
        sources.push(
            Source { file: c.file_path.clone(), start_line: c.start_line, end_line: c.end_line },
        );
        proof {
            assert(context_of(chunks@, i + 1) == context_of(chunks@, i as int) + context_entry(
                chunks@[i as int],
                i as int,
            ));
        }
        i = i + 1;
    }
    let mut user = "Context:\n".to_owned();
    user.append(context.as_str());
    user.append("\nQuestion: ");
    user.append(question);
    AskPlan::Chat { system: GROUNDING_INSTRUCTION.to_owned(), user, sources }
}

} // verus!

verus! {

/// No step of an indexing pass lowers a count, or changes the walked and purged
/// totals; each step settles at most one file and finishes at most one; progress never
/// runs past the walked total.
pub proof fn lemma_index_counts_only_grow(c: IndexCounts, e: FileEvent)
    requires
        index_counts_wf(c),
        event_fits(c, e),
    ensures
        ({
            let n = index_step(c, e).0;
            &&& index_counts_wf(n)
            &&& n.files_indexed >= c.files_indexed
            &&& n.chunks_indexed >= c.chunks_indexed
            &&& n.files_skipped_unchanged >= c.files_skipped_unchanged
            &&& n.files_failed >= c.files_failed
            &&& c.files_seen <= n.files_seen <= c.files_seen + 1
            &&& c.files_done <= n.files_done <= c.files_done + 1
            &&& n.files_done <= n.files_total
            &&& n.files_total == c.files_total
            &&& n.files_purged == c.files_purged
            &&& files_settled(n) <= files_settled(c) + 1
        }),
{
}

/// A pass that has handled every walked file reports every one of them as done.
pub proof fn lemma_complete_pass_reports_every_file(c: IndexCounts)
    requires
        index_counts_wf(c),
        pass_complete(c),
    ensures
        c.files_done == c.files_total,
{
}

/// A file with a chunk left without a vector is counted as failed and never stored,
/// so its old fingerprint stays and the next pass retries it.
pub proof fn lemma_partial_file_is_not_stored(c: IndexCounts, dropped: usize)
    requires
        index_counts_wf(c),
        event_fits(c, FileEvent::Embedded { dropped }),
        dropped > 0,
    ensures
        index_step(c, FileEvent::Embedded { dropped }).1 == FileStep::Next,
        index_step(c, FileEvent::Embedded { dropped }).0.files_failed == c.files_failed + 1,
        index_step(c, FileEvent::Embedded { dropped }).0.files_indexed == c.files_indexed,
{
}

/// A called-off pass stops at once: nothing more is counted or stored, and it
/// reports itself as cancelled.
pub proof fn lemma_cancel_stops_the_pass(c: IndexCounts)
    requires
        index_counts_wf(c),
        event_fits(c, FileEvent::Cancelled),
    ensures
        index_step(c, FileEvent::Cancelled).1 == FileStep::Stop,
        index_step(c, FileEvent::Cancelled).0 == (IndexCounts { cancelled: true, ..c }),
        forall|e: FileEvent| !event_fits(index_step(c, FileEvent::Cancelled).0, e),
{
}


/// A file is skipped as unchanged exactly when the fingerprint on record is its new
/// content hash; any other fingerprint, or none, sends it on to be chunked, embedded
/// and stored again, and leaves the unchanged count as it was.
pub proof fn lemma_only_a_matching_hash_skips(c: IndexCounts, stored_hash: Option<u64>, hash: u64)
    requires
        index_counts_wf(c),
        event_fits(c, FileEvent::Read { stored_hash, hash }),
    ensures
        ({
            let (n, step) = index_step(c, FileEvent::Read { stored_hash, hash });
            &&& (step == FileStep::Next) <==> (stored_hash matches Some(h) && h == hash)
            &&& step == FileStep::Next || step == FileStep::Chunk
            &&& step == FileStep::Next ==> n.files_skipped_unchanged == c.files_skipped_unchanged + 1
                && n.files_done == c.files_done + 1 && n.phase == FilePhase::Between
            &&& step == FileStep::Chunk ==> n.files_skipped_unchanged == c.files_skipped_unchanged
                && n.files_done == c.files_done && n.phase == FilePhase::Read
            &&& n.files_seen == c.files_seen + 1
            &&& n.files_indexed == c.files_indexed && n.files_failed == c.files_failed
        }),
{
}

/// What each other outcome of a file does to the counts and what comes next: a
/// vanished file is passed over uncounted; an unreadable file fails and loses its
/// chunks; a file with no chunks loses its chunks uncounted; a fully embedded file is
/// stored; a stored file counts as indexed with its chunks, the index being persisted
/// on every fiftieth; a file whose store was called off is not counted.
pub proof fn lemma_file_outcomes(c: IndexCounts, e: FileEvent)
    requires
        index_counts_wf(c),
        event_fits(c, e),
    ensures
        ({
            let (n, step) = index_step(c, e);
            match e {
                FileEvent::Vanished => step == FileStep::Next && n.files_done == c.files_done + 1
                    && files_settled(n) == files_settled(c),
                FileEvent::Unreadable => step == FileStep::ClearAndNext && n.files_failed
                    == c.files_failed + 1 && n.files_indexed == c.files_indexed,
                FileEvent::Chunked { spans } => if spans == 0 {
                    step == FileStep::ClearAndNext && files_settled(n) == files_settled(c)
                        && n.files_done == c.files_done + 1
                } else {
                    step == FileStep::Embed && n.files_done == c.files_done
                },
                FileEvent::Embedded { dropped } => if dropped == 0 {
                    step == FileStep::Store && files_settled(n) == files_settled(c)
                } else {
                    step == FileStep::Next && n.files_failed == c.files_failed + 1
                        && n.files_indexed == c.files_indexed
                },
                FileEvent::Stored { written, chunks } => if written {
                    &&& n.files_indexed == c.files_indexed + 1
                    &&& n.chunks_indexed == c.chunks_indexed + chunks
                    &&& n.files_done == c.files_done + 1
                    &&& (step == FileStep::FlushAndNext) <==> (c.since_flush + 1
                        == FLUSH_EVERY_N_FILES)
                    &&& step == FileStep::FlushAndNext || step == FileStep::Next
                } else {
                    step == FileStep::Next && n.files_indexed == c.files_indexed
                        && n.chunks_indexed == c.chunks_indexed && n.files_done == c.files_done + 1
                },
                _ => true,
            }
        }),
{
}

/// Pairing a batch keeps each chunk with its own text and line range and gives it the
/// vector returned at its position, for as many chunks as both go.
pub proof fn lemma_paired_chunks_keep_their_lines<E>(
    paired: Seq<(ChunkSpan, Vec<E>)>,
    batch: Seq<ChunkSpan>,
    embeddings: Seq<Vec<E>>,
)
    requires
        paired_with(paired, batch, embeddings),
    ensures
        paired.len() <= batch.len(),
        paired.len() <= embeddings.len(),
        paired.len() == batch.len() || paired.len() == embeddings.len(),
        forall|i: int|
            #![trigger paired[i]]
            0 <= i < paired.len() ==> paired[i].0.start_line == batch[i].start_line
                && paired[i].0.end_line == batch[i].end_line && paired[i].0.text@ == batch[i].text@
                && paired[i].1 == embeddings[i],
{
}

proof fn lemma_kept_and_dropped<E>(embedded: Seq<(ChunkSpan, Vec<E>)>)
    ensures
        kept_chunks(embedded).len() + dropped_count(embedded) == embedded.len(),
        forall|i: int|
            0 <= i < kept_chunks(embedded).len() ==> exists|j: int|
                0 <= j < embedded.len() && embedded[j].1@.len() > 0
                    && #[trigger] kept_chunks(embedded)[i] == (NewChunk {
                    start_line: embedded[j].0.start_line,
                    end_line: embedded[j].0.end_line,
                    text: embedded[j].0.text,
                    embedding: embedded[j].1,
                }),
    decreases embedded.len(),
{
    if embedded.len() > 0 {
        let before = embedded.drop_last();
        lemma_kept_and_dropped(before);
        let k = kept_chunks(embedded);
        assert forall|i: int| 0 <= i < k.len() implies exists|j: int|
            0 <= j < embedded.len() && embedded[j].1@.len() > 0 && #[trigger] k[i] == (NewChunk {
                start_line: embedded[j].0.start_line,
                end_line: embedded[j].0.end_line,
                text: embedded[j].0.text,
                embedding: embedded[j].1,
            }) by {
            if i < kept_chunks(before).len() {
                assert(k[i] == kept_chunks(before)[i]);
                let j = choose|j: int|
                    0 <= j < before.len() && before[j].1@.len() > 0 && kept_chunks(before)[i] == (
                    NewChunk {
                        start_line: before[j].0.start_line,
                        end_line: before[j].0.end_line,
                        text: before[j].0.text,
                        embedding: before[j].1,
                    });
                assert(before[j] == embedded[j]);
            } else {
                let j = embedded.len() - 1;
                assert(embedded.last() == embedded[j]);
            }
        }
    }
}

/// Every chunk collected for storing carries a vector and the text and line range of
/// an embedded chunk, and the collected and dropped chunks together account for all of
/// them.
pub proof fn lemma_collected_chunks_are_embedded<E>(embedded: Seq<(ChunkSpan, Vec<E>)>)
    ensures
        kept_chunks(embedded).len() + dropped_count(embedded) == embedded.len(),
        forall|i: int|
            0 <= i < kept_chunks(embedded).len() ==> (#[trigger] kept_chunks(embedded)[i]).embedding@.len() > 0,
        forall|i: int|
            0 <= i < kept_chunks(embedded).len() ==> exists|j: int|
                0 <= j < embedded.len() && (#[trigger] kept_chunks(embedded)[i]).start_line
                    == embedded[j].0.start_line && kept_chunks(embedded)[i].end_line
                    == embedded[j].0.end_line && kept_chunks(embedded)[i].text
                    == embedded[j].0.text && kept_chunks(embedded)[i].embedding
                    == embedded[j].1,
{
    lemma_kept_and_dropped(embedded);
    assert forall|i: int| 0 <= i < kept_chunks(embedded).len() implies (#[trigger] kept_chunks(
        embedded,
    )[i]).embedding@.len() > 0 by {
        let j = choose|j: int|
            0 <= j < embedded.len() && embedded[j].1@.len() > 0 && kept_chunks(embedded)[i] == (
            NewChunk {
                start_line: embedded[j].0.start_line,
                end_line: embedded[j].0.end_line,
                text: embedded[j].0.text,
                embedding: embedded[j].1,
            });
    }
}

/// A chunk is cut at the first character boundary at or after its byte midpoint.
pub proof fn lemma_split_point_is_first_boundary_after_middle(bytes: Seq<u8>)
    requires
        valid_utf8(bytes),
    ensures
        bytes.len() / 2 <= split_point(bytes) <= bytes.len(),
        is_char_boundary(bytes, split_point(bytes)),
        forall|j: int| bytes.len() / 2 <= j < split_point(bytes) ==> !is_char_boundary(bytes, j),
{
    lemma_boundary_from(bytes, (bytes.len() / 2) as int);
}

proof fn lemma_context_prefix(chunks: Seq<RetrievedChunk>, m: int, n: int)
    requires
        0 <= m <= n,
    ensures
        context_of(chunks, m).len() <= context_of(chunks, n).len(),
        context_of(chunks, n).subrange(0, context_of(chunks, m).len() as int) == context_of(chunks, m),
    decreases n - m,
{
    if m < n {
        lemma_context_prefix(chunks, m, n - 1);
        let a = context_of(chunks, m);
        let b = context_of(chunks, n - 1);
        assert(context_of(chunks, n) == b + context_entry(chunks[n - 1], n - 1));
        assert((b + context_entry(chunks[n - 1], n - 1)).subrange(0, a.len() as int) =~= b.subrange(
            0,
            a.len() as int,
        ));
    } else {
        assert(context_of(chunks, n).subrange(0, context_of(chunks, n).len() as int) =~= context_of(
            chunks,
            n,
        ));
    }
}

/// The message the model answers from holds, for every retrieved chunk, its numbered
/// source header followed by the chunk's whole text, whatever its length; it opens
/// with the context and closes with the question.
pub proof fn lemma_every_chunk_is_in_the_context_whole(
    chunks: Seq<RetrievedChunk>,
    question: Seq<char>,
    i: int,
)
    requires
        0 <= i < chunks.len(),
    ensures
        contains_seq(
            grounded_user_text(chunks, question),
            "[Source "@ + decimal((i + 1) as nat) + ": "@ + chunks[i].file_path@ + " lines "@
                + decimal(chunks[i].start_line as nat) + "-"@ + decimal(chunks[i].end_line as nat)
                + "]\n"@ + chunks[i].text@ + "\n\n"@,
        ),
        starts_with_seq(grounded_user_text(chunks, question), "Context:\n"@),
        ends_with_seq(grounded_user_text(chunks, question), "\nQuestion: "@ + question),
{
    let n = chunks.len() as int;
    let entry = "[Source "@ + decimal((i + 1) as nat) + ": "@ + chunks[i].file_path@ + " lines "@
        + decimal(chunks[i].start_line as nat) + "-"@ + decimal(chunks[i].end_line as nat) + "]\n"@
        + chunks[i].text@ + "\n\n"@;
    assert(context_entry(chunks[i], i) == entry);
    lemma_context_prefix(chunks, i + 1, n);
    let before = context_of(chunks, i);
    let upto = context_of(chunks, i + 1);
    assert(upto == before + entry);
    let ctx = context_of(chunks, n);
    let head = "Context:\n"@;
    let tail = "\nQuestion: "@ + question;
    let g = grounded_user_text(chunks, question);
    assert(g == head + ctx + tail);
    let at: int = (head.len() + before.len()) as int;
    assert(ctx.subrange(0, upto.len() as int) == upto);
    let bl: int = before.len() as int;
    let el: int = entry.len() as int;
    assert(g.subrange(at, at + el) =~= ctx.subrange(bl, bl + el));
    assert(ctx.subrange(bl, bl + el) =~= upto.subrange(
        before.len() as int,
        upto.len() as int,
    ));
    assert(upto.subrange(before.len() as int, upto.len() as int) =~= entry);
    assert(occurs_at(g, entry, at));
    assert(g.subrange(0, head.len() as int) =~= head);
    assert(g.subrange(g.len() - tail.len(), g.len() as int) =~= tail);
}

/// A citation names the chunk's file and its exact first and last lines.
pub proof fn lemma_citation_is_the_chunk_location(s: Source, c: RetrievedChunk)
    requires
        cites(s, c),
    ensures
        s.file@ == c.file_path@,
        s.start_line == c.start_line,
        s.end_line == c.end_line,
{
}

} // verus!
