//! Moving a cursor by graphemes. A rope hands its leaves to the segmenter one at a
//! time, and goes back leaf by leaf where the segmenter asks for context.

use crate::cursor::{lemma_leaf_start_is, lemma_position, Cursor};
use crate::leaf::Leaf;
use crate::leaves::{
    leaf_start, leaves_wf, lemma_leaf_boundary, lemma_leaf_ends, lemma_leaf_index,
    lemma_leaf_parts, lemma_leaf_start_monotone,
};
use crate::segment::{
    edge_step, in_chunk, is_boundary_of, next_boundary_of, next_step, prev_boundary_of, prev_step,
    provide_context_of, segmenter_is_boundary, segmenter_new, segmenter_next_boundary,
    segmenter_prev_boundary, segmenter_state, EdgeStep, Incomplete, Step,
};
use crate::text::{is_boundary, lemma_start_is_boundary};
use unicode_segmentation::GraphemeCursor;
use vstd::prelude::*;
use vstd::string::*;
use vstd::utf8::*;

verus! {

/// Where a query has led: to an answer, or to none where the context that was asked
/// for is not the leaf before; with the segmenter and the place of the cursor then.
pub struct Walk<A> {
    pub answer: Option<A>,
    pub segmenter: GraphemeCursor,
    pub position: int,
    pub at_leaf: bool,
}

/// The walk ends because there is no leaf before the first.
pub open spec fn before_first<A>(segmenter: GraphemeCursor) -> Walk<A> {
    Walk { answer: None, segmenter, position: 0, at_leaf: false }
}

/// Leaf number `k` as the chunk of a query.
pub open spec fn chunk_text(leaves: Seq<Seq<u8>>, k: int) -> Seq<char> {
    decode_utf8(leaves[k])
}

/// The offset at which leaf number `k` starts, as a query takes it.
pub open spec fn chunk_start(leaves: Seq<Seq<u8>>, k: int) -> usize {
    leaf_start(leaves, k) as usize
}

/// The segmenter after it was given leaf number `k` as context.
pub open spec fn with_context(
    segmenter: GraphemeCursor,
    leaves: Seq<Seq<u8>>,
    k: int,
) -> GraphemeCursor {
    provide_context_of(segmenter, chunk_text(leaves, k), chunk_start(leaves, k))
}

/// Asks for the next boundary in leaf `k`, having shown the text from leaf `j` on.
/// A request for context is met by the leaf before `j`, if that ends where it must.
pub open spec fn ask_next(
    segmenter: GraphemeCursor,
    leaves: Seq<Seq<u8>>,
    k: int,
    j: int,
    position: int,
) -> Walk<Result<Option<usize>, Incomplete>>
    decreases j,
{
    let (answer, asked) = next_boundary_of(
        segmenter,
        chunk_text(leaves, k),
        chunk_start(leaves, k),
    );
    match answer {
        Err(Incomplete::PreContext(n)) => if j <= 0 {
            before_first(asked)
        } else if n != leaf_start(leaves, j) {
            Walk {
                answer: None,
                segmenter: asked,
                position: leaf_start(leaves, j - 1),
                at_leaf: true,
            }
        } else {
            ask_next(
                with_context(asked, leaves, j - 1),
                leaves,
                k,
                j - 1,
                leaf_start(leaves, j - 1),
            )
        },
        _ => Walk { answer: Some(answer), segmenter: asked, position, at_leaf: true },
    }
}

/// Asks whether leaf `k` starts at a boundary, having shown the text from leaf `j` on.
pub open spec fn ask_edge(
    segmenter: GraphemeCursor,
    leaves: Seq<Seq<u8>>,
    k: int,
    j: int,
    position: int,
) -> Walk<Result<bool, Incomplete>>
    decreases j,
{
    let (answer, asked) = is_boundary_of(
        segmenter,
        chunk_text(leaves, k),
        chunk_start(leaves, k),
    );
    match answer {
        Err(Incomplete::PreContext(n)) => if j <= 0 {
            before_first(asked)
        } else if n != leaf_start(leaves, j) {
            Walk {
                answer: None,
                segmenter: asked,
                position: leaf_start(leaves, j - 1),
                at_leaf: true,
            }
        } else {
            ask_edge(
                with_context(asked, leaves, j - 1),
                leaves,
                k,
                j - 1,
                leaf_start(leaves, j - 1),
            )
        },
        _ => Walk { answer: Some(answer), segmenter: asked, position, at_leaf: true },
    }
}

/// Asks for the previous boundary in leaf `k`, having shown the text from leaf `j` on.
/// At the start of the leaf the query goes on in the leaf before.
pub open spec fn ask_prev(
    segmenter: GraphemeCursor,
    leaves: Seq<Seq<u8>>,
    k: int,
    j: int,
    position: int,
) -> Walk<Result<Option<usize>, Incomplete>>
    decreases k, j,
{
    let (answer, asked) = prev_boundary_of(
        segmenter,
        chunk_text(leaves, k),
        chunk_start(leaves, k),
    );
    match answer {
        Err(Incomplete::PreContext(n)) => if j <= 0 {
            before_first(asked)
        } else if n != leaf_start(leaves, j) {
            Walk {
                answer: None,
                segmenter: asked,
                position: leaf_start(leaves, j - 1),
                at_leaf: true,
            }
        } else {
            ask_prev(
                with_context(asked, leaves, j - 1),
                leaves,
                k,
                j - 1,
                leaf_start(leaves, j - 1),
            )
        },
        Err(Incomplete::PrevChunk) => if k <= 0 {
            before_first(asked)
        } else {
            ask_prev(asked, leaves, k - 1, k - 1, leaf_start(leaves, k - 1))
        },
        _ => Walk { answer: Some(answer), segmenter: asked, position, at_leaf: true },
    }
}

/// A result and the place of the cursor.
pub struct Moved {
    pub at: Option<usize>,
    pub position: int,
    pub at_leaf: bool,
}

/// The offset that an answer holds.
pub open spec fn offset_of(answer: Option<Result<Option<usize>, Incomplete>>) -> Option<usize> {
    match answer {
        Some(Ok(at)) => at,
        _ => None,
    }
}

/// The next grapheme from `position` in leaf `k`. A boundary at the end of the leaf
/// is checked against the next leaf, and, if it is none, looked for there.
pub open spec fn next_grapheme_of(leaves: Seq<Seq<u8>>, k: int, position: int) -> Moved {
    let end = leaf_start(leaves, k + 1);
    let first = ask_next(
        segmenter_new(position as usize, end as usize, true),
        leaves,
        k,
        k,
        position,
    );
    let found = offset_of(first.answer);
    if found != Some(end as usize) {
        Moved { at: found, position: first.position, at_leaf: first.at_leaf }
    } else if k + 1 >= leaves.len() {
        Moved { at: found, position: end, at_leaf: false }
    } else {
        let edge = ask_edge(
            segmenter_new(end as usize, leaf_start(leaves, k + 2) as usize, true),
            leaves,
            k + 1,
            k + 1,
            end,
        );
        let at = match edge.answer {
            None => None,
            Some(Ok(false)) => offset_of(
                Some(
                    next_boundary_of(
                        edge.segmenter,
                        chunk_text(leaves, k + 1),
                        chunk_start(leaves, k + 1),
                    ).0,
                ),
            ),
            Some(_) => found,
        };
        Moved { at, position: edge.position, at_leaf: edge.at_leaf }
    }
}

/// The previous grapheme from `position` in leaf `k`; from the start of a leaf it is
/// looked for in the leaf before.
pub open spec fn prev_grapheme_of(leaves: Seq<Seq<u8>>, k: int, position: int) -> Moved {
    let from = if position == leaf_start(leaves, k) && position > 0 {
        k - 1
    } else {
        k
    };
    let walk = ask_prev(
        segmenter_new(position as usize, leaf_start(leaves, from + 1) as usize, true),
        leaves,
        from,
        from,
        if from == k {
            position
        } else {
            leaf_start(leaves, from)
        },
    );
    Moved { at: offset_of(walk.answer), position: walk.position, at_leaf: walk.at_leaf }
}

/// A cursor at leaf number `k`, and that leaf.
spec fn holds_leaf(c: Cursor, leaves: Seq<Seq<u8>>, k: int, leaf: &str, start: usize) -> bool {
    &&& c.leaves() == leaves
    &&& leaves_wf(leaves)
    &&& leaves.flatten().len() <= usize::MAX
    &&& 0 <= k < leaves.len()
    &&& leaf.spec_bytes() == leaves[k]
    &&& leaf@ == chunk_text(leaves, k)
    &&& start == leaf_start(leaves, k)
}

/// A segmenter that was asked nothing yet, with the whole of its text as the leaf.
spec fn is_whole(segmenter: GraphemeCursor, leaf: &str, start: usize) -> bool {
    &&& start == 0
    &&& leaf.spec_bytes().len() == segmenter_state(segmenter).len
    &&& segmenter_state(segmenter).pending is None
    &&& !segmenter_state(segmenter).suspended
}

/// Meets a request for context with the leaf before the cursor, if there is one and
/// it ends at `n`.
fn provide_leaf_before(cursor: &mut Cursor, segmenter: &mut GraphemeCursor, n: usize) -> (met: bool)
    requires
        old(cursor).at_leaf(),
        segmenter_state(*old(segmenter)).pending == Some(n),
    ensures
        ({
            let leaves = old(cursor).leaves();
            let j = old(cursor).index();
            &&& final(cursor).leaves() == leaves
            &&& if j <= 0 {
                &&& !met
                &&& !final(cursor).at_leaf()
                &&& final(cursor).position() == 0
            } else {
                &&& met == (n == leaf_start(leaves, j))
                &&& final(cursor).at_leaf()
                &&& final(cursor).position() == leaf_start(leaves, j - 1)
                &&& final(cursor).index() == j - 1
            }
            &&& met ==> *final(segmenter) == with_context(*old(segmenter), leaves, j - 1)
            &&& met ==> segmenter_state(*final(segmenter)).offset == segmenter_state(
                *old(segmenter),
            ).offset
            &&& met ==> segmenter_state(*final(segmenter)).suspended == segmenter_state(
                *old(segmenter),
            ).suspended
            &&& !met ==> *final(segmenter) == *old(segmenter)
        }),
{
    let ghost leaves = cursor.leaves();
    let ghost j = cursor.index();
    proof {
        use_type_invariant(&*cursor);
        cursor.lemma_wf();
        lemma_leaf_index(leaves, cursor.position());
        if j > 0 {
            lemma_leaf_parts(leaves, j - 1);
            assert(leaves[j - 1].len() > 0);
        }
    }
    match cursor.prev_leaf() {
        None => false,
        Some((leaf, _)) => {
            let start: usize = cursor.pos();
            let end: usize = start + Leaf::len(leaf);
            if n == end {
                proof {
                    encode_utf8_decode_utf8(leaf@);
                }
                segmenter.provide_context(leaf.as_str(), start);
                true
            } else {
                false
            }
        },
    }
}

/// Asks for the next boundary in the leaf of the cursor, with all the context that it
/// takes.
#[verifier::loop_isolation(false)]
fn query_next(
    cursor: &mut Cursor,
    segmenter: &mut GraphemeCursor,
    leaf: &str,
    start: usize,
) -> (answer: Option<Result<Option<usize>, Incomplete>>)
    requires
        old(cursor).at_leaf(),
        holds_leaf(*old(cursor), old(cursor).leaves(), old(cursor).index(), leaf, start),
        in_chunk(*old(segmenter), leaf, start),
    ensures
        ({
            let leaves = old(cursor).leaves();
            let k = old(cursor).index();
            let walk = ask_next(*old(segmenter), leaves, k, k, old(cursor).position());
            &&& answer == walk.answer
            &&& *final(segmenter) == walk.segmenter
            &&& final(cursor).leaves() == leaves
            &&& final(cursor).position() == walk.position
            &&& final(cursor).at_leaf() == walk.at_leaf
            &&& in_chunk(*final(segmenter), leaf, start)
            &&& answer matches Some(Ok(Some(at))) ==> {
                &&& at == segmenter_state(*final(segmenter)).offset
                &&& !segmenter_state(*old(segmenter)).suspended ==> at > segmenter_state(
                    *old(segmenter),
                ).offset
            }
            &&& segmenter_state(*old(segmenter)).offset == segmenter_state(*old(segmenter)).len
                ==> answer == Some(Ok::<Option<usize>, Incomplete>(None))
            &&& is_whole(*old(segmenter), leaf, start) ==> {
                &&& answer matches Some(Ok(found))
                &&& found is None ==> segmenter_state(*old(segmenter)).offset == segmenter_state(
                    *old(segmenter),
                ).len
                &&& answer == Some(
                    next_boundary_of(*old(segmenter), chunk_text(leaves, k), start).0,
                )
            }
        }),
{
    let ghost leaves = cursor.leaves();
    let ghost k = cursor.index();
    let ghost first = *segmenter;
    proof {
        use_type_invariant(&*cursor);
        cursor.lemma_wf();
    }
    let ghost walk = ask_next(first, leaves, k, k, cursor.position());
    let end: usize = start + leaf.as_bytes().len();
    loop
        invariant
            cursor.at_leaf(),
            holds_leaf(*cursor, leaves, k, leaf, start),
            in_chunk(*segmenter, leaf, start),
            cursor.position() >= 0,
            walk == ask_next(*segmenter, leaves, k, cursor.index(), cursor.position()),
            is_whole(first, leaf, start) ==> *segmenter == first,
            *segmenter == first || segmenter_state(first).offset != segmenter_state(first).len && (
            segmenter_state(first).suspended || segmenter_state(*segmenter).offset
                > segmenter_state(first).offset),
        decreases cursor.index(),
    {
        let answer = segmenter_next_boundary(segmenter, leaf, start);
        match next_step(answer, end) {
            Step::Context(n) => {
                proof {
                    lemma_leaf_index(leaves, cursor.position());
                }
                if !provide_leaf_before(cursor, segmenter, n) {
                    return None;
                }
            },
            _ => {
                return Some(answer);
            },
        }
    }
}

/// Asks whether the leaf of the cursor starts at a boundary, with all the context that
/// it takes.
#[verifier::loop_isolation(false)]
fn query_edge(
    cursor: &mut Cursor,
    segmenter: &mut GraphemeCursor,
    leaf: &str,
    start: usize,
) -> (answer: Option<Result<bool, Incomplete>>)
    requires
        old(cursor).at_leaf(),
        holds_leaf(*old(cursor), old(cursor).leaves(), old(cursor).index(), leaf, start),
        in_chunk(*old(segmenter), leaf, start),
        segmenter_state(*old(segmenter)).offset < start + leaf.spec_bytes().len(),
    ensures
        ({
            let leaves = old(cursor).leaves();
            let k = old(cursor).index();
            let walk = ask_edge(*old(segmenter), leaves, k, k, old(cursor).position());
            &&& answer == walk.answer
            &&& *final(segmenter) == walk.segmenter
            &&& final(cursor).leaves() == leaves
            &&& final(cursor).position() == walk.position
            &&& final(cursor).at_leaf() == walk.at_leaf
            &&& segmenter_state(*final(segmenter)).offset == segmenter_state(
                *old(segmenter),
            ).offset
            &&& segmenter_state(*final(segmenter)).suspended == segmenter_state(
                *old(segmenter),
            ).suspended
        }),
{
    let ghost leaves = cursor.leaves();
    let ghost k = cursor.index();
    let ghost first = *segmenter;
    proof {
        use_type_invariant(&*cursor);
        cursor.lemma_wf();
    }
    let ghost walk = ask_edge(first, leaves, k, k, cursor.position());
    loop
        invariant
            cursor.at_leaf(),
            holds_leaf(*cursor, leaves, k, leaf, start),
            in_chunk(*segmenter, leaf, start),
            segmenter_state(*segmenter).offset < start + leaf.spec_bytes().len(),
            segmenter_state(*segmenter).offset == segmenter_state(first).offset,
            segmenter_state(*segmenter).suspended == segmenter_state(first).suspended,
            cursor.position() >= 0,
            walk == ask_edge(*segmenter, leaves, k, cursor.index(), cursor.position()),
        decreases cursor.index(),
    {
        let answer = segmenter_is_boundary(segmenter, leaf, start);
        match edge_step(answer) {
            EdgeStep::Context(n) => {
                proof {
                    lemma_leaf_index(leaves, cursor.position());
                }
                if !provide_leaf_before(cursor, segmenter, n) {
                    return None;
                }
            },
            _ => {
                return Some(answer);
            },
        }
    }
}

impl<'a> Cursor<'a> {
    /// The end of the grapheme that starts at the position, or that holds it.
    ///
    /// Which offsets are grapheme boundaries is up to the segmenter. The cursor ends
    /// where the last leaf lies that the segmenter was shown. There is no answer where the
    /// segmenter asks for context that does not end where the leaf before ends. Nor is there
    /// one where the grapheme goes on into the next leaf and the segmenter, asked for its end
    /// there, asks for context: that query is made only once.
    pub fn next_grapheme(&mut self) -> (at: Option<usize>)
        requires
            old(self).at_leaf() ==> is_boundary(old(self).bytes(), old(self).position()),
        ensures
            !old(self).at_leaf() ==> at is None && final(self).gone(
                *old(self),
                old(self).position(),
            ),
            old(self).at_leaf() ==> {
                let moved = next_grapheme_of(
                    old(self).leaves(),
                    old(self).index(),
                    old(self).position(),
                );
                &&& at == moved.at
                &&& final(self).leaves() == old(self).leaves()
                &&& final(self).position() == moved.position
                &&& final(self).at_leaf() == moved.at_leaf
            },
            at matches Some(x) ==> old(self).position() < x && is_boundary(
                old(self).bytes(),
                x as int,
            ),
            old(self).position() == old(self).bytes().len() ==> at is None,
            old(self).at_leaf() && old(self).leaves().len() == 1 ==> (at is None <==> old(
                self,
            ).position() == old(self).bytes().len()),
            old(self).at_leaf() && old(self).index() == 0 && at is None ==> {
                let end = leaf_start(old(self).leaves(), 1);
                let answer = next_boundary_of(
                    segmenter_new(old(self).position() as usize, end as usize, true),
                    chunk_text(old(self).leaves(), 0),
                    0,
                ).0;
                ||| old(self).position() == old(self).bytes().len()
                ||| old(self).leaves().len() > 1 && answer == Ok::<Option<usize>, Incomplete>(
                    Some(end as usize),
                )
            },
    {
        let ghost leaves = self.leaves();
        let ghost k = self.index();
        let pos: usize = self.pos();
        match self.get_leaf() {
            None => None,
            Some((l, offset)) => {
                proof {
                    use_type_invariant(&*self);
                    self.lemma_wf();
                    lemma_position(*self);
                    lemma_leaf_parts(leaves, k);
                    lemma_leaf_ends(leaves);
                    encode_utf8_decode_utf8(l@);
                }
                let leaf_offset: usize = pos - offset;
                let leaf_end: usize = leaf_offset + Leaf::len(l);
                let mut c = GraphemeCursor::new(pos, leaf_end, true);
                match query_next(self, &mut c, l.as_str(), leaf_offset) {
                    None => None,
                    Some(answer) => match next_step(answer, leaf_end) {
                        Step::LeafEnd(next_offset) => {
                            self.set(pos);
                            match self.next_leaf() {
                                None => Some(next_offset),
                                Some((nl, _)) => {
                                    proof {
                                        lemma_leaf_parts(leaves, k + 1);
                                        assert(leaves[k + 1].len() > 0);
                                        assert(valid_utf8(leaves[k + 1]));
                                        lemma_leaf_boundary(leaves, k + 1, 0);
                                        lemma_start_is_boundary(leaves[k + 1]);
                                        encode_utf8_decode_utf8(nl@);
                                    }
                                    let nl_end: usize = next_offset + Leaf::len(nl);
                                    let mut c = GraphemeCursor::new(next_offset, nl_end, true);
                                    match query_edge(self, &mut c, nl.as_str(), next_offset) {
                                        None => None,
                                        Some(found) => match edge_step(found) {
                                            EdgeStep::Inside => {
                                                match segmenter_next_boundary(
                                                    &mut c,
                                                    nl.as_str(),
                                                    next_offset,
                                                ) {
                                                    Ok(Some(at)) => {
                                                        proof {
                                                            lemma_leaf_boundary(
                                                                leaves,
                                                                k + 1,
                                                                at - next_offset,
                                                            );
                                                        }
                                                        Some(at)
                                                    },
                                                    _ => None,
                                                }
                                            },
                                            _ => Some(next_offset),
                                        },
                                    }
                                },
                            }
                        },
                        Step::Done(Some(at)) => {
                            proof {
                                lemma_leaf_boundary(leaves, k, at - leaf_offset);
                            }
                            Some(at)
                        },
                        _ => None,
                    },
                }
            },
        }
    }

    /// The start of the grapheme that ends at the position, or that holds it.
    ///
    /// Which offsets are grapheme boundaries is up to the segmenter. The cursor ends
    /// where the last leaf lies that the segmenter was shown. There is no answer where the
    /// segmenter asks for context that does not end where the leaf before ends.
    pub fn prev_grapheme(&mut self) -> (at: Option<usize>)
        requires
            old(self).at_leaf() ==> is_boundary(old(self).bytes(), old(self).position()),
        ensures
            !old(self).at_leaf() ==> at is None && final(self).gone(
                *old(self),
                old(self).position(),
            ),
            old(self).at_leaf() ==> {
                let moved = prev_grapheme_of(
                    old(self).leaves(),
                    old(self).index(),
                    old(self).position(),
                );
                &&& at == moved.at
                &&& final(self).leaves() == old(self).leaves()
                &&& final(self).position() == moved.position
                &&& final(self).at_leaf() == moved.at_leaf
            },
            at matches Some(x) ==> x < old(self).position() && is_boundary(
                old(self).bytes(),
                x as int,
            ),
            old(self).position() == 0 ==> at is None,
            old(self).at_leaf() && old(self).position() <= leaf_start(old(self).leaves(), 1) ==> (
            at is None <==> old(self).position() == 0),
    {
        let ghost leaves = self.leaves();
        let ghost k = self.index();
        let pos: usize = self.pos();
        match self.get_leaf() {
            None => None,
            Some((leaf, offset)) => {
                proof {
                    use_type_invariant(&*self);
                    self.lemma_wf();
                    lemma_position(*self);
                    lemma_leaf_parts(leaves, k);
                    lemma_leaf_ends(leaves);
                    encode_utf8_decode_utf8(leaf@);
                    if k >= 1 {
                        lemma_leaf_start_monotone(leaves, 1, k);
                        lemma_leaf_start_is(leaves, 1);
                    }
                }
                if offset == 0 && pos > 0 {
                    match leaf_before(self, pos) {
                        None => None,
                        Some((l, leaf_offset)) => self.prev_grapheme_in(pos, l, leaf_offset),
                    }
                } else {
                    self.prev_grapheme_in(pos, leaf.as_str(), pos - offset)
                }
            },
        }
    }

    /// The previous grapheme from `pos`, which lies in the leaf of the cursor behind its
    /// start, or at the start of the text.
    fn prev_grapheme_in(&mut self, pos: usize, leaf: &'a str, leaf_offset: usize) -> (at: Option<
        usize,
    >)
        requires
            old(self).at_leaf(),
            holds_leaf(*old(self), old(self).leaves(), old(self).index(), leaf, leaf_offset),
            leaf_offset <= pos <= leaf_offset + leaf.spec_bytes().len(),
            is_boundary(leaf.spec_bytes(), pos - leaf_offset),
            pos > 0 ==> leaf_offset < pos,
        ensures
            ({
                let leaves = old(self).leaves();
                let k = old(self).index();
                let walk = ask_prev(
                    segmenter_new(pos, leaf_start(leaves, k + 1) as usize, true),
                    leaves,
                    k,
                    k,
                    old(self).position(),
                );
                &&& at == offset_of(walk.answer)
                &&& final(self).leaves() == leaves
                &&& final(self).position() == walk.position
                &&& final(self).at_leaf() == walk.at_leaf
            }),
            at matches Some(x) ==> x < pos && is_boundary(old(self).bytes(), x as int),
            pos == 0 ==> at is None,
            leaf_offset == 0 && at is None ==> pos == 0,
    {
        let ghost leaves = self.leaves();
        let ghost mut k = self.index();
        proof {
            use_type_invariant(&*self);
            self.lemma_wf();
            lemma_leaf_parts(leaves, k);
        }
        let mut l: &str = leaf;
        let mut start: usize = leaf_offset;
        let mut c = GraphemeCursor::new(pos, leaf_offset + leaf.as_bytes().len(), true);
        let ghost first = c;
        let ghost walk = ask_prev(c, leaves, k, k, self.position());
        loop
            invariant
                self.at_leaf(),
                self.position() >= 0,
                self.index() <= k,
                holds_leaf(*self, leaves, k, l, start),
                in_chunk(c, l, start),
                walk == ask_prev(c, leaves, k, self.index(), self.position()),
                segmenter_state(first).offset == pos,
                !segmenter_state(first).suspended,
                pos == 0 ==> c == first,
                leaf_offset == 0 ==> c == first && start == 0,
                segmenter_state(first).pending is None,
                c == first || segmenter_state(c).offset < pos,
                pos > 0 ==> start < pos,
                leaves == old(self).leaves(),
                walk == ask_prev(
                    segmenter_new(
                        pos,
                        leaf_start(leaves, old(self).index() + 1) as usize,
                        true,
                    ),
                    leaves,
                    old(self).index(),
                    old(self).index(),
                    old(self).position(),
                ),
            decreases k, self.index(),
        {
            let answer = segmenter_prev_boundary(&mut c, l, start);
            match prev_step(answer) {
                Step::Context(n) => {
                    proof {
                        lemma_leaf_index(leaves, self.position());
                    }
                    if !provide_leaf_before(self, &mut c, n) {
                        return None;
                    }
                },
                Step::PrevLeaf => {
                    proof {
                        lemma_leaf_start_is(leaves, k);
                    }
                    self.set(start);
                    match leaf_before(self, start) {
                        None => {
                            return None;
                        },
                        Some((before, before_start)) => {
                            proof {
                                k = k - 1;
                            }
                            l = before;
                            start = before_start;
                        },
                    }
                },
                Step::Done(Some(at)) => {
                    proof {
                        lemma_leaf_boundary(leaves, k, at - start);
                    }
                    return Some(at);
                },
                _ => {
                    return None;
                },
            }
        }
    }
}

/// Moves to the leaf before that of the cursor. It ends at `end`, where the leaf of the
/// cursor starts.
fn leaf_before<'a>(cursor: &mut Cursor<'a>, end: usize) -> (found: Option<(&'a str, usize)>)
    requires
        old(cursor).at_leaf(),
        end == leaf_start(old(cursor).leaves(), old(cursor).index()),
    ensures
        ({
            let leaves = old(cursor).leaves();
            let k = old(cursor).index();
            match found {
                None => {
                    &&& k <= 0
                    &&& end == 0
                    &&& final(cursor).gone(*old(cursor), 0)
                },
                Some((leaf, start)) => {
                    &&& k > 0
                    &&& final(cursor).moved_to(*old(cursor), leaf_start(leaves, k - 1))
                    &&& final(cursor).index() == k - 1
                    &&& holds_leaf(*final(cursor), leaves, k - 1, leaf, start)
                    &&& start < end
                    &&& end == start + leaf.spec_bytes().len()
                },
            }
        }),
{
    let ghost leaves = cursor.leaves();
    let ghost k = cursor.index();
    proof {
        use_type_invariant(&*cursor);
        cursor.lemma_wf();
        lemma_leaf_index(leaves, cursor.position());
        lemma_leaf_ends(leaves);
        if k > 0 {
            lemma_leaf_parts(leaves, k - 1);
            lemma_leaf_start_monotone(leaves, 0, k - 1);
            assert(leaves[k - 1].len() > 0);
        }
    }
    match cursor.prev_leaf() {
        None => None,
        Some((leaf, _)) => {
            proof {
                encode_utf8_decode_utf8(leaf@);
            }
            Some((leaf.as_str(), cursor.pos()))
        },
    }
}

} // verus!
