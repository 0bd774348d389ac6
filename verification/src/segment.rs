//! The grapheme segmenter of the `unicode_segmentation` crate, and what becomes of
//! its answers.

use crate::text::is_boundary;
use unicode_segmentation::{GraphemeCursor, GraphemeIncomplete};
use vstd::prelude::*;
use vstd::string::*;

verus! {

/// A segmenter of `unicode_segmentation`.
#[verifier::external_type_specification]
#[verifier::external_body]
pub struct ExGraphemeCursor(GraphemeCursor);

/// Why a segmenter could not answer from the chunk that it was given.
#[derive(Clone, Copy, Debug, PartialEq, Eq, Structural)]
pub enum Incomplete {
    /// It needs to see the chunk that ends at the offset.
    PreContext(usize),
    /// It moved to the start of the chunk and needs the one before.
    PrevChunk,
    /// It moved to the end of the chunk and needs the one behind.
    NextChunk,
    /// The chunk does not hold its position.
    InvalidOffset,
}

/// What a segmenter holds that decides which calls it takes.
pub struct SegmenterState {
    /// The position in the text.
    pub offset: usize,
    /// The length of the text.
    pub len: usize,
    /// Where the chunk must end that it has asked for.
    pub pending: Option<usize>,
    /// Whether a query stopped before it was answered.
    pub suspended: bool,
}

/// What a segmenter holds.
pub uninterp spec fn segmenter_state(c: GraphemeCursor) -> SegmenterState;

/// The segmenter that `GraphemeCursor::new` makes.
pub uninterp spec fn segmenter_new(offset: usize, len: usize, is_extended: bool) -> GraphemeCursor;

/// What `GraphemeCursor::provide_context` makes of a segmenter.
pub uninterp spec fn provide_context_of(
    c: GraphemeCursor,
    chunk: Seq<char>,
    chunk_start: usize,
) -> GraphemeCursor;

/// What `GraphemeCursor::is_boundary` returns, and makes of the segmenter.
pub uninterp spec fn is_boundary_of(
    c: GraphemeCursor,
    chunk: Seq<char>,
    chunk_start: usize,
) -> (Result<bool, Incomplete>, GraphemeCursor);

/// What `GraphemeCursor::next_boundary` returns, and makes of the segmenter.
pub uninterp spec fn next_boundary_of(
    c: GraphemeCursor,
    chunk: Seq<char>,
    chunk_start: usize,
) -> (Result<Option<usize>, Incomplete>, GraphemeCursor);

/// What `GraphemeCursor::prev_boundary` returns, and makes of the segmenter.
pub uninterp spec fn prev_boundary_of(
    c: GraphemeCursor,
    chunk: Seq<char>,
    chunk_start: usize,
) -> (Result<Option<usize>, Incomplete>, GraphemeCursor);

/// The position of the segmenter lies in the chunk, at its end at most, and between
/// two codepoints.
pub open spec fn in_chunk(c: GraphemeCursor, chunk: &str, chunk_start: usize) -> bool {
    let offset = segmenter_state(c).offset;
    &&& chunk_start + chunk.spec_bytes().len() <= usize::MAX
    &&& chunk_start <= offset <= chunk_start + chunk.spec_bytes().len()
    &&& is_boundary(chunk.spec_bytes(), offset - chunk_start)
}

/// `GraphemeCursor::new` makes a segmenter at `offset` in a text of `len` bytes, that
/// asks for nothing and that no query has stopped.
pub assume_specification[ GraphemeCursor::new ](
    offset: usize,
    len: usize,
    is_extended: bool,
) -> (c: GraphemeCursor)
    ensures
        c == segmenter_new(offset, len, is_extended),
        segmenter_state(c).offset == offset,
        segmenter_state(c).len == len,
        segmenter_state(c).pending is None,
        !segmenter_state(c).suspended,
;

/// `GraphemeCursor::provide_context` takes the nonempty chunk that ends where the
/// segmenter has asked for one, and does not move the segmenter.
pub assume_specification[ GraphemeCursor::provide_context ](
    c: &mut GraphemeCursor,
    chunk: &str,
    chunk_start: usize,
)
    requires
        chunk.spec_bytes().len() > 0,
        segmenter_state(*old(c)).pending matches Some(end) && end == chunk_start
            + chunk.spec_bytes().len(),
    ensures
        *final(c) == provide_context_of(*old(c), chunk@, chunk_start),
        segmenter_state(*final(c)).offset == segmenter_state(*old(c)).offset,
        segmenter_state(*final(c)).len == segmenter_state(*old(c)).len,
        segmenter_state(*final(c)).suspended == segmenter_state(*old(c)).suspended,
;

/// `GraphemeCursor::is_boundary` tells whether the position is a grapheme boundary,
/// without moving, from a chunk that holds the codepoint behind the position. Where
/// it asks for context instead, the segmenter remembers where that must end.
#[verifier::external_body]
pub(crate) fn segmenter_is_boundary(
    c: &mut GraphemeCursor,
    chunk: &str,
    chunk_start: usize,
) -> (answer: Result<bool, Incomplete>)
    requires
        in_chunk(*old(c), chunk, chunk_start),
        segmenter_state(*old(c)).offset < chunk_start + chunk.spec_bytes().len(),
    ensures
        (answer, *final(c)) == is_boundary_of(*old(c), chunk@, chunk_start),
        segmenter_state(*final(c)).offset == segmenter_state(*old(c)).offset,
        segmenter_state(*final(c)).len == segmenter_state(*old(c)).len,
        segmenter_state(*final(c)).suspended == segmenter_state(*old(c)).suspended,
        answer matches Err(Incomplete::PreContext(n)) ==> segmenter_state(*final(c)).pending
            == Some(n),
{
    match c.is_boundary(chunk, chunk_start) {
        Ok(found) => Ok(found),
        Err(GraphemeIncomplete::PreContext(n)) => Err(Incomplete::PreContext(n)),
        Err(GraphemeIncomplete::PrevChunk) => Err(Incomplete::PrevChunk),
        Err(GraphemeIncomplete::NextChunk) => Err(Incomplete::NextChunk),
        Err(GraphemeIncomplete::InvalidOffset) => Err(Incomplete::InvalidOffset),
    }
}

/// `GraphemeCursor::next_boundary` moves forward in the chunk, codepoint by
/// codepoint, up to the boundary that it returns; `None` is for the end of the text
/// alone. Unless it goes on with a stopped query, it moves before it answers or asks
/// for context; where it asks, the segmenter remembers where that must end. With the
/// whole text as the chunk a new query is always answered.
#[verifier::external_body]
pub(crate) fn segmenter_next_boundary(
    c: &mut GraphemeCursor,
    chunk: &str,
    chunk_start: usize,
) -> (answer: Result<Option<usize>, Incomplete>)
    requires
        in_chunk(*old(c), chunk, chunk_start),
    ensures
        (answer, *final(c)) == next_boundary_of(*old(c), chunk@, chunk_start),
        in_chunk(*final(c), chunk, chunk_start),
        segmenter_state(*final(c)).len == segmenter_state(*old(c)).len,
        segmenter_state(*final(c)).offset >= segmenter_state(*old(c)).offset,
        answer == Ok::<Option<usize>, Incomplete>(None) <==> segmenter_state(*old(c)).offset
            == segmenter_state(*old(c)).len,
        answer matches Ok(Some(at)) ==> at == segmenter_state(*final(c)).offset,
        answer matches Err(Incomplete::PreContext(n)) ==> segmenter_state(*final(c)).pending
            == Some(n),
        !segmenter_state(*old(c)).suspended && (answer matches Ok(Some(_))
            || answer matches Err(Incomplete::PreContext(_))) ==> segmenter_state(*final(c)).offset
            > segmenter_state(*old(c)).offset,
        chunk_start == 0 && chunk.spec_bytes().len() == segmenter_state(*old(c)).len
            && segmenter_state(*old(c)).pending is None && !segmenter_state(*old(c)).suspended
            ==> answer is Ok,
{
    match c.next_boundary(chunk, chunk_start) {
        Ok(at) => Ok(at),
        Err(GraphemeIncomplete::PreContext(n)) => Err(Incomplete::PreContext(n)),
        Err(GraphemeIncomplete::PrevChunk) => Err(Incomplete::PrevChunk),
        Err(GraphemeIncomplete::NextChunk) => Err(Incomplete::NextChunk),
        Err(GraphemeIncomplete::InvalidOffset) => Err(Incomplete::InvalidOffset),
    }
}

/// `GraphemeCursor::prev_boundary` moves backward in the chunk, codepoint by
/// codepoint, down to the boundary that it returns; `None` is for the start of the
/// text alone. It asks for the chunk before when it has reached the start of this
/// one. Unless it goes on with a stopped query, it moves before it answers or asks
/// for context; where it asks, the segmenter remembers where that must end. With a chunk
/// from the start of the text a new query is always answered.
#[verifier::external_body]
pub(crate) fn segmenter_prev_boundary(
    c: &mut GraphemeCursor,
    chunk: &str,
    chunk_start: usize,
) -> (answer: Result<Option<usize>, Incomplete>)
    requires
        in_chunk(*old(c), chunk, chunk_start),
    ensures
        (answer, *final(c)) == prev_boundary_of(*old(c), chunk@, chunk_start),
        in_chunk(*final(c), chunk, chunk_start),
        segmenter_state(*final(c)).len == segmenter_state(*old(c)).len,
        segmenter_state(*final(c)).offset <= segmenter_state(*old(c)).offset,
        answer == Ok::<Option<usize>, Incomplete>(None) <==> segmenter_state(*old(c)).offset == 0,
        answer matches Ok(Some(at)) ==> at == segmenter_state(*final(c)).offset,
        answer matches Err(Incomplete::PreContext(n)) ==> segmenter_state(*final(c)).pending
            == Some(n),
        answer matches Err(Incomplete::PrevChunk) ==> segmenter_state(*final(c)).offset
            == chunk_start,
        !segmenter_state(*old(c)).suspended && (answer matches Ok(Some(_))
            || answer matches Err(Incomplete::PreContext(_))) ==> segmenter_state(*final(c)).offset
            < segmenter_state(*old(c)).offset,
        chunk_start == 0 && segmenter_state(*old(c)).pending is None && !segmenter_state(
            *old(c),
        ).suspended ==> answer is Ok,
{
    match c.prev_boundary(chunk, chunk_start) {
        Ok(at) => Ok(at),
        Err(GraphemeIncomplete::PreContext(n)) => Err(Incomplete::PreContext(n)),
        Err(GraphemeIncomplete::PrevChunk) => Err(Incomplete::PrevChunk),
        Err(GraphemeIncomplete::NextChunk) => Err(Incomplete::NextChunk),
        Err(GraphemeIncomplete::InvalidOffset) => Err(Incomplete::InvalidOffset),
    }
}

// What becomes of an answer

/// What to do with the answer to a query in a leaf.
#[derive(Clone, Copy, Debug, PartialEq, Eq, Structural)]
pub enum Step {
    /// Provide the leaf that ends at the offset, and ask again.
    Context(usize),
    /// Ask again with the leaf before.
    PrevLeaf,
    /// The boundary found is the end of the leaf: ask at the start of the next one.
    LeafEnd(usize),
    /// The query is answered.
    Done(Option<usize>),
}

/// What a forward query leads to, in a leaf that ends at `leaf_end`.
pub fn next_step(answer: Result<Option<usize>, Incomplete>, leaf_end: usize) -> (step: Step)
    ensures
        step == match answer {
            Err(Incomplete::PreContext(n)) => Step::Context(n),
            Err(_) => Step::Done(None),
            Ok(Some(at)) => if at == leaf_end {
                Step::LeafEnd(at)
            } else {
                Step::Done(Some(at))
            },
            Ok(None) => Step::Done(None),
        },
{
    match answer {
        Err(Incomplete::PreContext(n)) => Step::Context(n),
        Err(_) => Step::Done(None),
        Ok(Some(at)) => if at == leaf_end {
            Step::LeafEnd(at)
        } else {
            Step::Done(Some(at))
        },
        Ok(None) => Step::Done(None),
    }
}

/// What a backward query leads to.
pub fn prev_step(answer: Result<Option<usize>, Incomplete>) -> (step: Step)
    ensures
        step == match answer {
            Err(Incomplete::PreContext(n)) => Step::Context(n),
            Err(Incomplete::PrevChunk) => Step::PrevLeaf,
            Err(_) => Step::Done(None),
            Ok(at) => Step::Done(at),
        },
{
    match answer {
        Err(Incomplete::PreContext(n)) => Step::Context(n),
        Err(Incomplete::PrevChunk) => Step::PrevLeaf,
        Err(_) => Step::Done(None),
        Ok(at) => Step::Done(at),
    }
}

/// What the query at the start of a leaf leads to: the end of the leaf before is a
/// boundary unless the segmenter says that it is none.
#[derive(Clone, Copy, Debug, PartialEq, Eq, Structural)]
pub enum EdgeStep {
    /// Provide the leaf that ends at the offset, and ask again.
    Context(usize),
    /// The edge between the leaves is a boundary.
    Boundary,
    /// The edge lies inside a grapheme.
    Inside,
}

/// What the answer at the edge between two leaves leads to.
pub fn edge_step(answer: Result<bool, Incomplete>) -> (step: EdgeStep)
    ensures
        step == match answer {
            Err(Incomplete::PreContext(n)) => EdgeStep::Context(n),
            Err(_) => EdgeStep::Boundary,
            Ok(true) => EdgeStep::Boundary,
            Ok(false) => EdgeStep::Inside,
        },
{
    match answer {
        Err(Incomplete::PreContext(n)) => EdgeStep::Context(n),
        Err(_) => EdgeStep::Boundary,
        Ok(true) => EdgeStep::Boundary,
        Ok(false) => EdgeStep::Inside,
    }
}

} // verus!
