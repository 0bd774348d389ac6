//! What becomes of the leaves of a rope when text is pushed, cut out and put in.

use crate::byte_laws::{law_chunk, law_joined_layout};
use crate::laws::{law_chunks_are_parts, law_chunks_join, law_joined_leaves};
use crate::leaves::{
    builder_wf, bulk_leaves, bulk_pieces, cut_leaves, edited_leaves, leaf_index, leaf_start,
    leaves_wf, lemma_bulk_leaves, lemma_cut_all, lemma_cut_concat, lemma_cut_none,
    lemma_flatten_valid, lemma_leaf_boundary, lemma_leaf_ends, lemma_leaf_index, lemma_leaf_parts,
    lemma_leaf_start_monotone, lemma_pushed_concat, lemma_pushed_rope, pushed_pieces,
};
use crate::lines::{chunks_from, chunks_of};
use crate::text::{is_boundary, lemma_start_is_boundary, lemma_subrange_valid};
use vstd::prelude::*;
use vstd::seq_lib::*;
use vstd::utf8::*;

verus! {

/// A piece of text that may be pushed as a leaf.
pub open spec fn is_piece(piece: Seq<u8>) -> bool {
    valid_utf8(piece) && 0 < piece.len() <= 1024
}

/// Pushing pieces appends their text. It leaves alone all the leaves but the last.
pub proof fn law_pushed_pieces(leaves: Seq<Seq<u8>>, pieces: Seq<Seq<u8>>)
    requires
        builder_wf(leaves),
        forall|i: int| 0 <= i < pieces.len() ==> is_piece(#[trigger] pieces[i]),
    ensures
        ({
            let pushed = pushed_pieces(leaves, pieces);
            &&& builder_wf(pushed)
            &&& pushed.flatten() == leaves.flatten() + pieces.flatten()
            &&& pushed.len() >= leaves.len()
            &&& pieces.len() > 0 ==> pushed.len() > 0
            &&& leaves.len() > 0 ==> pushed.take(leaves.len() - 1) == leaves.drop_last()
        }),
    decreases pieces.len(),
{
    let pushed = pushed_pieces(leaves, pieces);
    if pieces.len() == 0 {
        assert(pieces =~= Seq::empty());
        assert(leaves.flatten() + pieces.flatten() =~= leaves.flatten());
        if leaves.len() > 0 {
            assert(leaves.take(leaves.len() - 1) =~= leaves.drop_last());
        }
    } else {
        let front = pieces.drop_last();
        let last = pieces.last();
        assert(is_piece(pieces[pieces.len() - 1]));
        assert forall|i: int| 0 <= i < front.len() implies is_piece(#[trigger] front[i]) by {
            assert(front[i] == pieces[i]);
        }
        law_pushed_pieces(leaves, front);
        let middle = pushed_pieces(leaves, front);
        let one = seq![last];
        one.lemma_flatten_one_element();
        assert(leaves_wf(one));
        assert(pieces =~= front.push(last));
        front.lemma_flatten_push(last);
        if middle.len() == 0 {
            assert(middle =~= Seq::empty());
            assert(pushed.flatten() =~= leaves.flatten() + pieces.flatten());
        } else {
            law_joined_leaves(middle, one);
            law_joined_layout(middle, one);
            assert(pushed.flatten() =~= leaves.flatten() + pieces.flatten());
            assert(pushed.take(middle.len() - 1) =~= middle.drop_last());
            if leaves.len() > 0 {
                let n = leaves.len() - 1;
                assert forall|i: int| 0 <= i < n implies pushed[i] == leaves[i] by {
                    assert(pushed.take(middle.len() - 1)[i] == middle[i]);
                    assert(middle.take(n)[i] == leaves.drop_last()[i]);
                }
                assert(pushed.take(n) =~= leaves.drop_last());
            }
        }
    }
}

/// What is cut out of the leaves between two boundaries are pieces that join to the text
/// between them.
pub proof fn law_cut(leaves: Seq<Seq<u8>>, start: int, end: int)
    requires
        leaves_wf(leaves),
        0 <= start <= end,
        is_boundary(leaves.flatten(), start),
        is_boundary(leaves.flatten(), end),
    ensures
        cut_leaves(leaves, start, end).flatten() == leaves.flatten().subrange(start, end),
        forall|i: int|
            0 <= i < cut_leaves(leaves, start, end).len() ==> is_piece(
                #[trigger] cut_leaves(leaves, start, end)[i],
            ),
{
    let text = leaves.flatten();
    let cut = cut_leaves(leaves, start, end);
    if start == end {
        lemma_cut_none(leaves, start, end);
        assert(cut.flatten() =~= text.subrange(start, end));
    } else {
        law_chunks_are_parts(leaves, start, end);
        law_chunks_join(leaves, start, end);
        lemma_flatten_valid(leaves);
        lemma_leaf_index(leaves, start);
        lemma_leaf_ends(leaves);
        assert forall|i: int| 0 <= i < cut.len() implies is_piece(#[trigger] cut[i]) by {
            law_chunk(leaves, start, end, i);
            let k = leaf_index(leaves, start) + i;
            lemma_leaf_parts(leaves, k);
            assert(valid_utf8(leaves[k]));
            lemma_start_is_boundary(leaves[k]);
            lemma_leaf_boundary(leaves, k, 0);
            lemma_leaf_boundary(leaves, k, leaves[k].len() as int);
            let first = leaf_start(leaves, k);
            let last = leaf_start(leaves, k + 1);
            let from = if first < start {
                start
            } else {
                first
            };
            let to = if end < last {
                end
            } else {
                last
            };
            assert(cut[i] == text.subrange(from, to));
            assert(0 < chunks_of(leaves, start, end)[i].len() <= 1024);
            lemma_no_backward_part(leaves, start, end, i);
            lemma_leaf_start_monotone(leaves, leaf_index(leaves, start) + 1, k + 1);
            lemma_subrange_valid(text, from, to);
        }
    }
}

proof fn lemma_no_backward_part(leaves: Seq<Seq<u8>>, start: int, end: int, i: int)
    requires
        leaves_wf(leaves),
        0 <= start < end <= leaves.flatten().len(),
        0 <= i < chunks_of(leaves, start, end).len(),
    ensures
        leaf_start(leaves, leaf_index(leaves, start) + i) < end,
{
    lemma_leaf_index(leaves, start);
    lemma_leaf_ends(leaves);
    lemma_chunk_starts(leaves, leaf_index(leaves, start), start, end, i);
}

proof fn lemma_chunk_starts(leaves: Seq<Seq<u8>>, k: int, start: int, end: int, i: int)
    requires
        leaves_wf(leaves),
        0 <= k,
        k < leaves.len() ==> leaf_start(leaves, k) <= start,
        0 <= i < chunks_from(leaves, k, start, end).len(),
    ensures
        leaf_start(leaves, k + i) < end,
    decreases i,
{
    if i > 0 {
        let next = leaf_start(leaves, k + 1);
        let stop = if end < next {
            end
        } else {
            next
        };
        let rest = chunks_from(leaves, k + 1, stop, end);
        assert(chunks_from(leaves, k, start, end).len() == 1 + rest.len());
        lemma_chunk_starts(leaves, k + 1, stop, end, i - 1);
    }
}

/// An edit puts the new text in place of the old. The leaves before the range stay as they
/// are, but for the last of them; and so do the leaves behind it, but for the first.
pub proof fn law_edited_leaves(
    leaves: Seq<Seq<u8>>,
    start: int,
    end: int,
    new: Seq<u8>,
    kept: int,
    resumed: int,
)
    requires
        leaves_wf(leaves),
        valid_utf8(new),
        0 <= start <= end,
        is_boundary(leaves.flatten(), start),
        is_boundary(leaves.flatten(), end),
        0 < kept <= leaves.len() ==> leaves.take(kept).flatten().len() <= start,
        0 <= resumed < leaves.len() ==> end <= leaves.take(resumed).flatten().len(),
    ensures
        ({
            let text = leaves.flatten();
            let after = edited_leaves(leaves, start, end, new);
            &&& leaves_wf(after)
            &&& after.flatten() == text.take(start) + new + text.skip(end)
            &&& 0 < kept <= leaves.len() ==> {
                &&& after.len() >= kept
                &&& after.take(kept - 1) == leaves.take(kept - 1)
            }
            &&& 0 <= resumed < leaves.len() ==> {
                let behind = leaves.len() - resumed - 1;
                &&& after.len() >= behind
                &&& after.skip(after.len() - behind) == leaves.skip(resumed + 1)
            }
        }),
{
    let text = leaves.flatten();
    let len = text.len() as int;
    let none = Seq::<Seq<u8>>::empty();
    lemma_flatten_valid(leaves);
    lemma_start_is_boundary(text);
    let before = cut_leaves(leaves, 0, start);
    let middle = bulk_pieces(new);
    let behind = cut_leaves(leaves, end, len);
    let all = before + middle + behind;
    law_cut(leaves, 0, start);
    law_cut(leaves, end, len);
    lemma_bulk_leaves(new);
    assert(none.flatten() =~= Seq::empty());
    assert forall|i: int| 0 <= i < all.len() implies is_piece(#[trigger] all[i]) by {
        if i < before.len() {
            assert(all[i] == before[i]);
        } else if i < before.len() + middle.len() {
            assert(all[i] == middle[i - before.len()]);
            assert(middle == bulk_leaves(new));
            assert(valid_utf8(bulk_leaves(new)[i - before.len()]));
            if middle.len() == 1 {
                assert(middle =~= seq![middle[0]]);
                middle.lemma_flatten_one_element();
            }
        } else {
            assert(all[i] == behind[i - before.len() - middle.len()]);
        }
    }
    lemma_flatten_concat(before + middle, behind);
    lemma_flatten_concat(before, middle);
    assert(middle.flatten() =~= new) by {
        if new.len() == 0 {
            assert(middle =~= Seq::empty());
        }
    }
    law_pushed_pieces(none, all);
    let after = edited_leaves(leaves, start, end, new);
    assert(after.flatten() =~= text.take(start) + new + text.skip(end)) by {
        if all.len() == 0 {
            assert(all =~= Seq::empty());
            seq![Seq::<u8>::empty()].lemma_flatten_one_element();
        }
    }
    assert(leaves_wf(after));
    if 1 < kept <= leaves.len() {
        assert(all =~= before + (middle + behind));
        lemma_kept(leaves, start, before, middle + behind, all, kept);
    } else if kept == 1 {
        assert(after.take(0) =~= leaves.take(0));
    }
    if 0 <= resumed < leaves.len() {
        if leaves.len() == 1 {
            assert(after.skip(after.len() as int) =~= leaves.skip(1));
        } else {
            lemma_resumed(leaves, end, before + middle, behind, all, resumed);
        }
    }
}

proof fn lemma_kept(
    leaves: Seq<Seq<u8>>,
    start: int,
    before: Seq<Seq<u8>>,
    more: Seq<Seq<u8>>,
    all: Seq<Seq<u8>>,
    kept: int,
)
    requires
        leaves_wf(leaves),
        1 < kept <= leaves.len(),
        leaves.take(kept).flatten().len() <= start,
        before == cut_leaves(leaves, 0, start),
        all == before + more,
        forall|i: int| 0 <= i < all.len() ==> is_piece(#[trigger] all[i]),
    ensures
        pushed_pieces(Seq::empty(), all).len() >= kept,
        pushed_pieces(Seq::empty(), all).take(kept - 1) == leaves.take(kept - 1),
{
    let none = Seq::<Seq<u8>>::empty();
    let front = leaves.take(kept);
    assert forall|k: int| 0 <= k < front.len() implies (#[trigger] front[k]).len() > 0 by {
        assert(front[k] == leaves[k]);
    }
    assert(leaves_wf(front)) by {
        assert(forall|k: int| 0 <= k < front.len() ==> #[trigger] front[k] == leaves[k]);
    }
    assert(leaves =~= front + leaves.skip(kept));
    lemma_cut_concat(front, leaves.skip(kept), 0, start);
    lemma_cut_all(front, 0, start);
    let part = before.skip(kept);
    assert(before =~= front + part);
    let rest = part + more;
    assert(all =~= front + rest);
    lemma_pushed_concat(none, front, rest);
    lemma_pushed_rope(none, front);
    assert forall|i: int| 0 <= i < rest.len() implies is_piece(#[trigger] rest[i]) by {
        assert(rest[i] == all[kept + i]);
    }
    law_pushed_pieces(front, rest);
    assert(front.drop_last() =~= leaves.take(kept - 1));
}

proof fn lemma_resumed(
    leaves: Seq<Seq<u8>>,
    end: int,
    first: Seq<Seq<u8>>,
    behind: Seq<Seq<u8>>,
    all: Seq<Seq<u8>>,
    resumed: int,
)
    requires
        leaves_wf(leaves),
        leaves.len() > 1,
        0 <= resumed < leaves.len(),
        end <= leaves.take(resumed).flatten().len(),
        behind == cut_leaves(leaves, end, leaves.flatten().len() as int),
        all == first + behind,
        forall|i: int| 0 <= i < all.len() ==> is_piece(#[trigger] all[i]),
    ensures
        ({
            let after = pushed_pieces(Seq::empty(), all);
            let n = leaves.len() - resumed - 1;
            &&& after.len() > n
            &&& after.skip(after.len() - n) == leaves.skip(resumed + 1)
        }),
{
    let none = Seq::<Seq<u8>>::empty();
    let len = leaves.flatten().len() as int;
    let front = leaves.take(resumed);
    let back = leaves.skip(resumed);
    assert(leaves =~= front + back);
    lemma_flatten_concat(front, back);
    let at = front.flatten().len();
    lemma_cut_concat(front, back, end, len);
    assert forall|k: int| 0 <= k < back.len() implies {
        &&& (#[trigger] back[k]).len() > 0
        &&& valid_utf8(back[k])
        &&& 511 <= back[k].len() <= 1024
    } by {
        assert(back[k] == leaves[resumed + k]);
    }
    lemma_cut_all(back, end - at, len - at);
    let part = cut_leaves(front, end, len);
    let begun = first + part;
    assert(all =~= begun + back);
    assert forall|i: int| 0 <= i < begun.len() implies is_piece(#[trigger] begun[i]) by {
        assert(begun[i] == all[i]);
    }
    law_pushed_pieces(none, begun);
    let held = pushed_pieces(none, begun);
    lemma_pushed_concat(none, begun, back);
    if held.len() > 0 {
        assert(valid_utf8(held[held.len() - 1]));
    }
    assert(leaves_wf(back));
    lemma_pushed_rope(held, back);
    let after = pushed_pieces(none, all);
    let n = leaves.len() - resumed - 1;
    assert(back.drop_first() =~= leaves.skip(resumed + 1));
    if held.len() == 0 {
        assert(after.skip(after.len() - n) =~= leaves.skip(resumed + 1));
    } else {
        law_joined_layout(held, back);
        assert(after.skip(after.len() - n) =~= leaves.skip(resumed + 1));
    }
}

} // verus!
