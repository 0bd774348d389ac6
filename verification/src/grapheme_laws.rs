//! What grapheme steps lead to, told on the answers of the segmenter for the leaves.

use crate::grapheme::{
    ask_edge, ask_next, ask_prev, next_grapheme_of, prev_grapheme_of, with_context, Moved,
};
use crate::leaves::{
    leaves_wf, lemma_leaf_ends, lemma_leaf_index_is, lemma_leaf_parts, lemma_leaf_start_monotone,
};
use crate::segment::{
    is_boundary_of, next_boundary_of, prev_boundary_of, provide_context_of, segmenter_new,
    Incomplete,
};
use crate::tree::{lemma_bytes_valid, lemma_leaves_wf, Node};
use unicode_segmentation::GraphemeCursor;
use vstd::prelude::*;
use vstd::seq_lib::*;
use vstd::utf8::*;

verus! {

/// The number of bytes before leaf number `k`.
pub open spec fn before(leaves: Seq<Seq<u8>>, k: int) -> int {
    leaves.take(k).flatten().len() as int
}

/// Asked for the next boundary in leaf `k`, the segmenter `c` asks for the text that ends
/// where leaf `j` starts, and becomes `d` when it is shown leaf `j - 1`.
pub open spec fn shown_next(
    leaves: Seq<Seq<u8>>,
    k: int,
    j: int,
    c: GraphemeCursor,
    d: GraphemeCursor,
) -> bool {
    let (answer, asked) = next_boundary_of(
        c,
        decode_utf8(leaves[k]),
        before(leaves, k) as usize,
    );
    &&& j > 0
    &&& answer matches Err(Incomplete::PreContext(n))
    &&& n == before(leaves, j)
    &&& d == provide_context_of(
        asked,
        decode_utf8(leaves[j - 1]),
        before(leaves, j - 1) as usize,
    )
}

/// The same for the question whether leaf `k` starts at a boundary.
pub open spec fn shown_edge(
    leaves: Seq<Seq<u8>>,
    k: int,
    j: int,
    c: GraphemeCursor,
    d: GraphemeCursor,
) -> bool {
    let (answer, asked) = is_boundary_of(
        c,
        decode_utf8(leaves[k]),
        before(leaves, k) as usize,
    );
    &&& j > 0
    &&& answer matches Err(Incomplete::PreContext(n))
    &&& n == before(leaves, j)
    &&& d == provide_context_of(
        asked,
        decode_utf8(leaves[j - 1]),
        before(leaves, j - 1) as usize,
    )
}

/// Where a cursor is when the leaves from `k` back to `j` have been looked at.
pub open spec fn looked_back(leaves: Seq<Seq<u8>>, k: int, j: int, position: int) -> int {
    if j == k {
        position
    } else {
        before(leaves, j)
    }
}

// Forward

/// The next grapheme from a position in leaf `k`. The segmenters in `cs` begin with one at
/// the position in a text that ends with the leaf; each of the others is the one before it
/// when it was shown one leaf more. What the last one answers is the result: the boundary
/// that it finds, if that lies in the leaf or the leaf is the last one; and nothing, if it
/// finds none or cannot be shown what it asks for.
pub proof fn law_next_grapheme(
    leaves: Seq<Seq<u8>>,
    k: int,
    position: int,
    cs: Seq<GraphemeCursor>,
)
    requires
        leaves_wf(leaves),
        leaves.flatten().len() <= usize::MAX,
        0 <= k < leaves.len(),
        before(leaves, k) <= position <= before(leaves, k + 1),
        cs.len() > 0,
        cs[0] == segmenter_new(position as usize, before(leaves, k + 1) as usize, true),
        forall|i: int|
            0 <= i < cs.len() - 1 ==> #[trigger] shown_next(leaves, k, k - i, cs[i], cs[i + 1]),
    ensures
        ({
            let moved = next_grapheme_of(leaves, k, position);
            let j = k - (cs.len() - 1);
            let place = looked_back(leaves, k, j, position);
            let end = before(leaves, k + 1);
            let answer = next_boundary_of(
                cs.last(),
                decode_utf8(leaves[k]),
                before(leaves, k) as usize,
            ).0;
            &&& 0 <= j
            &&& match answer {
                Ok(Some(x)) => {
                    &&& x != end ==> moved == (Moved {
                        at: Some(x),
                        position: place,
                        at_leaf: true,
                    })
                    &&& x == end && k + 1 == leaves.len() ==> moved == (Moved {
                        at: Some(x),
                        position: end,
                        at_leaf: false,
                    })
                },
                Ok(None) => moved == (Moved { at: None, position: place, at_leaf: true }),
                Err(Incomplete::PreContext(n)) => {
                    &&& j == 0 ==> moved == (Moved { at: None, position: 0, at_leaf: false })
                    &&& j > 0 && n != before(leaves, j) ==> moved == (Moved {
                        at: None,
                        position: before(leaves, j - 1),
                        at_leaf: true,
                    })
                },
                Err(_) => moved == (Moved { at: None, position: place, at_leaf: true }),
            }
        }),
{
    lemma_leaf_parts(leaves, k);
    lemma_leaf_ends(leaves);
    lemma_next_chain(leaves, k, position, cs, 0);
}

proof fn lemma_next_chain(
    leaves: Seq<Seq<u8>>,
    k: int,
    position: int,
    cs: Seq<GraphemeCursor>,
    i: int,
)
    requires
        0 <= k < leaves.len(),
        0 <= i < cs.len(),
        0 <= k - i,
        forall|i: int|
            0 <= i < cs.len() - 1 ==> #[trigger] shown_next(leaves, k, k - i, cs[i], cs[i + 1]),
    ensures
        0 <= k - (cs.len() - 1),
        ask_next(cs[i], leaves, k, k - i, looked_back(leaves, k, k - i, position)) == ask_next(
            cs.last(),
            leaves,
            k,
            k - (cs.len() - 1),
            looked_back(leaves, k, k - (cs.len() - 1), position),
        ),
    decreases cs.len() - i,
{
    if i < cs.len() - 1 {
        let j = k - i;
        assert(shown_next(leaves, k, k - i, cs[i], cs[i + 1]));
        let (answer, asked) = next_boundary_of(
            cs[i],
            decode_utf8(leaves[k]),
            before(leaves, k) as usize,
        );
        assert(with_context(asked, leaves, j - 1) == cs[i + 1]);
        lemma_next_chain(leaves, k, position, cs, i + 1);
        assert(k - (i + 1) == j - 1);
    }
}

/// The next grapheme where the boundary found in leaf `k` is its end, and another leaf
/// follows. The segmenters in `ds` begin with one at that end in a text that ends with the
/// next leaf; each of the others is the one before it when it was shown one leaf more. If
/// the last one says that the end lies inside a grapheme, the result is what it finds as
/// the next boundary in the next leaf; else the result is the end.
pub proof fn law_next_grapheme_over_edge(
    leaves: Seq<Seq<u8>>,
    k: int,
    position: int,
    cs: Seq<GraphemeCursor>,
    ds: Seq<GraphemeCursor>,
)
    requires
        leaves_wf(leaves),
        leaves.flatten().len() <= usize::MAX,
        0 <= k,
        k + 1 < leaves.len(),
        before(leaves, k) <= position <= before(leaves, k + 1),
        cs.len() > 0,
        cs[0] == segmenter_new(position as usize, before(leaves, k + 1) as usize, true),
        forall|i: int|
            0 <= i < cs.len() - 1 ==> #[trigger] shown_next(leaves, k, k - i, cs[i], cs[i + 1]),
        next_boundary_of(cs.last(), decode_utf8(leaves[k]), before(leaves, k) as usize).0
            == Ok::<Option<usize>, Incomplete>(Some(before(leaves, k + 1) as usize)),
        ds.len() > 0,
        ds[0] == segmenter_new(
            before(leaves, k + 1) as usize,
            before(leaves, k + 2) as usize,
            true,
        ),
        forall|i: int|
            0 <= i < ds.len() - 1 ==> #[trigger] shown_edge(
                leaves,
                k + 1,
                k + 1 - i,
                ds[i],
                ds[i + 1],
            ),
    ensures
        ({
            let moved = next_grapheme_of(leaves, k, position);
            let j = k + 1 - (ds.len() - 1);
            let end = before(leaves, k + 1);
            let place = looked_back(leaves, k + 1, j, end);
            let (answer, asked) = is_boundary_of(
                ds.last(),
                decode_utf8(leaves[k + 1]),
                end as usize,
            );
            let further = next_boundary_of(asked, decode_utf8(leaves[k + 1]), end as usize).0;
            &&& 0 <= j
            &&& match answer {
                Ok(true) => moved == (Moved {
                    at: Some(end as usize),
                    position: place,
                    at_leaf: true,
                }),
                Ok(false) => {
                    &&& moved.position == place
                    &&& moved.at_leaf
                    &&& further matches Ok(x) ==> moved.at == x
                    &&& further is Err ==> moved.at is None
                },
                Err(Incomplete::PreContext(n)) => {
                    &&& j == 0 ==> moved == (Moved { at: None, position: 0, at_leaf: false })
                    &&& j > 0 && n != before(leaves, j) ==> moved == (Moved {
                        at: None,
                        position: before(leaves, j - 1),
                        at_leaf: true,
                    })
                },
                Err(_) => moved == (Moved {
                    at: Some(end as usize),
                    position: place,
                    at_leaf: true,
                }),
            }
        }),
{
    lemma_leaf_parts(leaves, k);
    lemma_leaf_parts(leaves, k + 1);
    lemma_next_chain(leaves, k, position, cs, 0);
    lemma_edge_chain(leaves, k + 1, before(leaves, k + 1), ds, 0);
}

proof fn lemma_edge_chain(
    leaves: Seq<Seq<u8>>,
    k: int,
    position: int,
    cs: Seq<GraphemeCursor>,
    i: int,
)
    requires
        0 <= k < leaves.len(),
        0 <= i < cs.len(),
        0 <= k - i,
        forall|i: int|
            0 <= i < cs.len() - 1 ==> #[trigger] shown_edge(leaves, k, k - i, cs[i], cs[i + 1]),
    ensures
        0 <= k - (cs.len() - 1),
        ask_edge(cs[i], leaves, k, k - i, looked_back(leaves, k, k - i, position)) == ask_edge(
            cs.last(),
            leaves,
            k,
            k - (cs.len() - 1),
            looked_back(leaves, k, k - (cs.len() - 1), position),
        ),
    decreases cs.len() - i,
{
    if i < cs.len() - 1 {
        let j = k - i;
        assert(shown_edge(leaves, k, k - i, cs[i], cs[i + 1]));
        let (answer, asked) = is_boundary_of(
            cs[i],
            decode_utf8(leaves[k]),
            before(leaves, k) as usize,
        );
        assert(with_context(asked, leaves, j - 1) == cs[i + 1]);
        lemma_edge_chain(leaves, k, position, cs, i + 1);
        assert(k - (i + 1) == j - 1);
    }
}

// Backward

/// A stage of a backward query: the segmenter, the leaf in which it is asked, the leaf
/// back to which the text was shown, and the position of the cursor.
pub struct Stage {
    pub segmenter: GraphemeCursor,
    pub leaf: int,
    pub shown: int,
    pub position: int,
}

/// One stage leads to the next: the segmenter is shown the leaf that it asks for, or is
/// asked in the leaf before when it has come to the start of its leaf.
pub open spec fn goes_back(leaves: Seq<Seq<u8>>, a: Stage, b: Stage) -> bool {
    let (answer, asked) = prev_boundary_of(
        a.segmenter,
        decode_utf8(leaves[a.leaf]),
        before(leaves, a.leaf) as usize,
    );
    ||| {
        &&& a.shown > 0
        &&& answer matches Err(Incomplete::PreContext(n))
        &&& n == before(leaves, a.shown)
        &&& b.segmenter == provide_context_of(
            asked,
            decode_utf8(leaves[a.shown - 1]),
            before(leaves, a.shown - 1) as usize,
        )
        &&& b.leaf == a.leaf
        &&& b.shown == a.shown - 1
        &&& b.position == before(leaves, a.shown - 1)
    }
    ||| {
        &&& a.leaf > 0
        &&& answer matches Err(Incomplete::PrevChunk)
        &&& b.segmenter == asked
        &&& b.leaf == a.leaf - 1
        &&& b.shown == a.leaf - 1
        &&& b.position == before(leaves, a.leaf - 1)
    }
}

/// The previous grapheme from a position in leaf `k`. The stages begin in that leaf, or in
/// the one before if the position is the start of the leaf, with a segmenter at the
/// position in a text that ends with the leaf of the stage. What the segmenter answers at
/// the last stage is the result: the boundary that it finds, and nothing if it finds none
/// or cannot be shown what it asks for.
pub proof fn law_prev_grapheme(
    leaves: Seq<Seq<u8>>,
    k: int,
    position: int,
    stages: Seq<Stage>,
)
    requires
        leaves_wf(leaves),
        leaves.flatten().len() <= usize::MAX,
        0 <= k < leaves.len(),
        before(leaves, k) <= position <= before(leaves, k + 1),
        stages.len() > 0,
        ({
            let first = stages[0];
            let inside = position > before(leaves, k) || position == 0;
            &&& first.leaf == if inside {
                k
            } else {
                k - 1
            }
            &&& first.shown == first.leaf
            &&& first.segmenter == segmenter_new(
                position as usize,
                before(leaves, first.leaf + 1) as usize,
                true,
            )
            &&& first.position == if inside {
                position
            } else {
                before(leaves, k - 1)
            }
        }),
        forall|i: int|
            0 <= i < stages.len() - 1 ==> #[trigger] goes_back(leaves, stages[i], stages[i + 1]),
    ensures
        ({
            let moved = prev_grapheme_of(leaves, k, position);
            let last = stages.last();
            let answer = prev_boundary_of(
                last.segmenter,
                decode_utf8(leaves[last.leaf]),
                before(leaves, last.leaf) as usize,
            ).0;
            match answer {
                Ok(x) => moved == (Moved { at: x, position: last.position, at_leaf: true }),
                Err(Incomplete::PreContext(n)) => {
                    &&& last.shown <= 0 ==> moved == (Moved {
                        at: None,
                        position: 0,
                        at_leaf: false,
                    })
                    &&& last.shown > 0 && n != before(leaves, last.shown) ==> moved == (Moved {
                        at: None,
                        position: before(leaves, last.shown - 1),
                        at_leaf: true,
                    })
                },
                Err(Incomplete::PrevChunk) => last.leaf <= 0 ==> moved == (Moved {
                    at: None,
                    position: 0,
                    at_leaf: false,
                }),
                Err(_) => moved == (Moved { at: None, position: last.position, at_leaf: true }),
            }
        }),
{
    lemma_leaf_parts(leaves, k);
    lemma_leaf_ends(leaves);
    if k > 0 {
        lemma_leaf_start_monotone(leaves, 1, k);
        lemma_leaf_parts(leaves, 0);
        assert(leaves[0].len() > 0);
    }
    lemma_prev_chain(leaves, stages, 0);
}

proof fn lemma_prev_chain(leaves: Seq<Seq<u8>>, stages: Seq<Stage>, i: int)
    requires
        0 <= i < stages.len(),
        forall|i: int|
            0 <= i < stages.len() - 1 ==> #[trigger] goes_back(leaves, stages[i], stages[i + 1]),
    ensures
        ask_prev(
            stages[i].segmenter,
            leaves,
            stages[i].leaf,
            stages[i].shown,
            stages[i].position,
        ) == ask_prev(
            stages.last().segmenter,
            leaves,
            stages.last().leaf,
            stages.last().shown,
            stages.last().position,
        ),
    decreases stages.len() - i,
{
    if i < stages.len() - 1 {
        let a = stages[i];
        assert(goes_back(leaves, stages[i], stages[i + 1]));
        let (answer, asked) = prev_boundary_of(
            a.segmenter,
            decode_utf8(leaves[a.leaf]),
            before(leaves, a.leaf) as usize,
        );
        if answer is Err && answer->Err_0 is PreContext {
            assert(with_context(asked, leaves, a.shown - 1) == stages[i + 1].segmenter);
        }
        lemma_prev_chain(leaves, stages, i + 1);
    }
}

// Ropes

/// Wherever an offset lies in a rope: if the segmenter, asked for the next boundary in the
/// leaf that holds the offset, finds one before the end of the leaf, that is the next
/// grapheme.
pub proof fn law_next_grapheme_offset(
    rope: Node,
    offset: usize,
    at: Option<usize>,
    k: int,
    x: usize,
)
    requires
        rope.wf(),
        call_ensures(Node::next_grapheme_offset, (&rope, offset), at),
        0 <= k < rope.leaves().len(),
        before(rope.leaves(), k) <= offset <= before(rope.leaves(), k + 1),
        k + 1 < rope.leaves().len() ==> offset < before(rope.leaves(), k + 1),
        next_boundary_of(
            segmenter_new(offset, before(rope.leaves(), k + 1) as usize, true),
            decode_utf8(rope.leaves()[k]),
            before(rope.leaves(), k) as usize,
        ).0 == Ok::<Option<usize>, Incomplete>(Some(x)),
        x < before(rope.leaves(), k + 1) || k + 1 == rope.leaves().len(),
    ensures
        at == Some(x),
{
    let leaves = rope.leaves();
    lemma_leaves_wf(rope);
    lemma_bytes_valid(rope);
    lemma_leaf_index_is(leaves, offset as int, k);
    let cs = seq![segmenter_new(offset, before(leaves, k + 1) as usize, true)];
    law_next_grapheme(leaves, k, offset as int, cs);
}

/// Wherever an offset lies in a rope: if the segmenter, asked for the previous boundary in
/// the leaf that holds the offset behind its start, finds one, that is the previous
/// grapheme.
pub proof fn law_prev_grapheme_offset(
    rope: Node,
    offset: usize,
    at: Option<usize>,
    k: int,
    x: usize,
)
    requires
        rope.wf(),
        call_ensures(Node::prev_grapheme_offset, (&rope, offset), at),
        0 <= k < rope.leaves().len(),
        before(rope.leaves(), k) < offset <= before(rope.leaves(), k + 1),
        prev_boundary_of(
            segmenter_new(offset, before(rope.leaves(), k + 1) as usize, true),
            decode_utf8(rope.leaves()[k]),
            before(rope.leaves(), k) as usize,
        ).0 == Ok::<Option<usize>, Incomplete>(Some(x)),
    ensures
        at == Some(x),
{
    let leaves = rope.leaves();
    lemma_leaves_wf(rope);
    lemma_bytes_valid(rope);
    lemma_leaf_parts(leaves, k);
    lemma_leaf_ends(leaves);
    lemma_leaf_start_monotone(leaves, 0, k);
    let segmenter = segmenter_new(offset, before(leaves, k + 1) as usize, true);
    if offset < before(leaves, k + 1) || k + 1 == leaves.len() {
        lemma_leaf_index_is(leaves, offset as int, k);
        let stage = Stage { segmenter, leaf: k, shown: k, position: offset as int };
        law_prev_grapheme(leaves, k, offset as int, seq![stage]);
    } else {
        lemma_leaf_parts(leaves, k + 1);
        assert(leaves[k + 1].len() > 0);
        lemma_leaf_index_is(leaves, offset as int, k + 1);
        let stage = Stage { segmenter, leaf: k, shown: k, position: before(leaves, k) };
        law_prev_grapheme(leaves, k + 1, offset as int, seq![stage]);
    }
}

} // verus!
