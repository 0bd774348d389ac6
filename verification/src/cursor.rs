//! A position in a rope, with the leaf that holds it.

use crate::leaf::{str_slice, Leaf, MAX_LEAF};
use crate::leaves::{
    leaf_index, leaf_start, leaves_wf, lemma_flatten_valid, lemma_leaf_boundary, lemma_leaf_ends,
    lemma_leaf_index, lemma_leaf_index_is, lemma_leaf_parts, lemma_leaf_start_monotone,
};
use crate::metric::{BaseMetric, Metric};
use crate::text::{
    codepoint_at, is_boundary, is_next_boundary, is_prev_boundary, lemma_codepoint_of_part,
    lemma_width_reaches_next,
};
use crate::tree::{lemma_leaves_wf, Node};
use vstd::prelude::*;
use vstd::string::*;
use vstd::utf8::*;

verus! {

/// A position in a rope. A cursor that has moved past an end of the rope has left
/// all leaves, and is back at one when it is set to a position.
#[derive(Clone, Copy)]
pub struct Cursor<'a> {
    root: &'a Node,
    position: usize,
    leaf: Option<&'a String>,
    offset_of_leaf: usize,
}

impl<'a> Cursor<'a> {
    /// The leaves of the rope.
    pub closed spec fn leaves(self) -> Seq<Seq<u8>> {
        self.root.leaves()
    }

    /// The text of the rope.
    pub open spec fn bytes(self) -> Seq<u8> {
        self.leaves().flatten()
    }

    /// The position in the text.
    pub closed spec fn position(self) -> int {
        self.position as int
    }

    /// Whether the cursor is at a leaf.
    pub closed spec fn at_leaf(self) -> bool {
        self.leaf is Some
    }

    /// The number of the leaf at the position.
    pub open spec fn index(self) -> int {
        leaf_index(self.leaves(), self.position())
    }

    /// The cursor is at a leaf and in a given position of the same rope.
    pub open spec fn moved_to(self, from: Cursor<'a>, position: int) -> bool {
        &&& self.leaves() == from.leaves()
        &&& self.position() == position
        &&& self.at_leaf()
    }

    /// The cursor has left all leaves of the same rope, with the position given.
    pub open spec fn gone(self, from: Cursor<'a>, position: int) -> bool {
        &&& self.leaves() == from.leaves()
        &&& self.position() == position
        &&& !self.at_leaf()
    }

    /// The leaf, if there is one, is the leaf at the position.
    #[verifier::type_invariant]
    pub closed spec fn wf(self) -> bool {
        &&& leaves_wf(self.leaves())
        &&& self.bytes().len() <= usize::MAX
        &&& self.leaf matches Some(s) ==> {
            &&& s.utf8() == self.leaves()[self.index()]
            &&& self.offset_of_leaf == leaf_start(self.leaves(), self.index())
        }
    }

    /// What every cursor's rope looks like.
    pub proof fn lemma_wf(self)
        requires
            self.wf(),
        ensures
            leaves_wf(self.leaves()),
            self.bytes().len() <= usize::MAX,
            self.position() >= 0,
    {
    }

    /// A cursor at a position of a rope.
    pub fn new(root: &'a Node, position: usize) -> (c: Cursor<'a>)
        ensures
            c.leaves() == root.leaves(),
            c.position() == position,
            c.at_leaf(),
    {
        let _len: usize = root.len();
        let (leaf, offset_of_leaf) = root.find_leaf(position);
        proof {
            use_type_invariant(root);
            lemma_leaves_wf(*root);
        }
        Cursor { root, position, leaf: Some(leaf), offset_of_leaf }
    }

    /// The position.
    pub fn pos(&self) -> (position: usize)
        ensures
            position == self.position(),
    {
        self.position
    }

    /// The leaf at the position, and the position in the leaf.
    pub fn get_leaf(&self) -> (found: Option<(&'a String, usize)>)
        ensures
            match found {
                Some((leaf, offset)) => {
                    &&& self.at_leaf()
                    &&& leaf.utf8() == self.leaves()[self.index()]
                    &&& offset == self.position() - leaf_start(self.leaves(), self.index())
                },
                None => !self.at_leaf(),
            },
    {
        proof {
            use_type_invariant(self);
            lemma_leaf_index(self.leaves(), self.position());
        }
        match self.leaf {
            Some(leaf) => Some((leaf, self.position - self.offset_of_leaf)),
            None => None,
        }
    }

    /// Moves to a position.
    pub fn set(&mut self, position: usize)
        ensures
            final(self).moved_to(*old(self), position as int),
    {
        *self = Cursor::new(self.root, position);
    }

    /// Moves to the start of the next leaf. Behind the last one there is none: the
    /// cursor then stays at the end, at no leaf.
    pub fn next_leaf(&mut self) -> (found: Option<(&'a String, usize)>)
        ensures
            ({
                let leaves = old(self).leaves();
                let k = old(self).index() + 1;
                if !old(self).at_leaf() {
                    &&& found is None
                    &&& final(self).gone(*old(self), old(self).position())
                } else if k == leaves.len() {
                    &&& found is None
                    &&& final(self).gone(*old(self), leaf_start(leaves, k))
                } else {
                    &&& found matches Some((leaf, offset))
                    &&& leaf.utf8() == leaves[k]
                    &&& offset == 0
                    &&& final(self).moved_to(*old(self), leaf_start(leaves, k))
                    &&& final(self).index() == k
                }
            }),
    {
        proof {
            use_type_invariant(&*self);
            lemma_leaf_index(self.leaves(), self.position());
            lemma_leaf_parts(self.leaves(), self.index());
        }
        match self.leaf {
            None => None,
            Some(leaf) => {
                let ghost leaves = self.leaves();
                let ghost k = self.index() + 1;
                let position: usize = self.offset_of_leaf + Leaf::len(leaf);
                if position == self.root.len() {
                    proof {
                        lemma_last_leaf(leaves, k);
                    }
                    *self = Cursor {
                        root: self.root,
                        position,
                        leaf: None,
                        offset_of_leaf: self.offset_of_leaf,
                    };
                    None
                } else {
                    proof {
                        lemma_leaf_ends(leaves);
                        lemma_leaf_start_is(leaves, k);
                    }
                    *self = Cursor::new(self.root, position);
                    self.get_leaf()
                }
            },
        }
    }

    /// Moves to the start of the previous leaf. Before the first one there is none:
    /// the cursor then stays at the start, at no leaf.
    pub fn prev_leaf(&mut self) -> (found: Option<(&'a String, usize)>)
        ensures
            ({
                let leaves = old(self).leaves();
                let k = old(self).index() - 1;
                if !old(self).at_leaf() || k < 0 {
                    &&& found is None
                    &&& final(self).gone(*old(self), 0)
                } else {
                    &&& found matches Some((leaf, offset))
                    &&& leaf.utf8() == leaves[k]
                    &&& offset == 0
                    &&& final(self).moved_to(*old(self), leaf_start(leaves, k))
                    &&& final(self).index() == k
                }
            }),
    {
        let ghost leaves = self.leaves();
        let ghost k = self.index();
        proof {
            use_type_invariant(&*self);
            lemma_leaf_index(leaves, self.position());
            lemma_leaf_ends(leaves);
            if k > 0 {
                lemma_leaf_parts(leaves, 0);
                lemma_leaf_start_monotone(leaves, 1, k);
            }
        }
        if self.leaf.is_none() || self.offset_of_leaf == 0 {
            *self = Cursor {
                root: self.root,
                position: 0,
                leaf: None,
                offset_of_leaf: self.offset_of_leaf,
            };
            None
        } else {
            let end: usize = self.offset_of_leaf;
            proof {
                lemma_leaf_parts(leaves, k - 1);
                lemma_leaf_index_is(leaves, end - 1, k - 1);
                lemma_leaf_start_is(leaves, k - 1);
            }
            let (_, start) = self.root.find_leaf(end - 1);
            *self = Cursor::new(self.root, start);
            self.get_leaf()
        }
    }

    /// Whether the position is a codepoint boundary.
    pub fn is_boundary(&self) -> (found: bool)
        ensures
            found == (self.at_leaf() && is_boundary(self.bytes(), self.position())),
    {
        match self.get_leaf() {
            None => false,
            Some((leaf, offset)) => {
                proof {
                    use_type_invariant(self);
                    lemma_position(*self);
                }
                <BaseMetric as Metric>::is_boundary(leaf, offset)
            },
        }
    }

    /// Moves to the codepoint boundary before the position. At the start there is
    /// none, and the cursor leaves its leaf.
    pub fn prev(&mut self) -> (at: Option<usize>)
        ensures
            if old(self).position() == 0 || !old(self).at_leaf() {
                &&& at is None
                &&& final(self).gone(*old(self), old(self).position())
            } else {
                &&& at matches Some(at)
                &&& is_prev_boundary(old(self).bytes(), old(self).position(), at as int)
                &&& final(self).moved_to(*old(self), at as int)
            },
    {
        let ghost leaves = self.leaves();
        let ghost text = self.bytes();
        let ghost position = self.position();
        let ghost k = self.index();
        proof {
            use_type_invariant(&*self);
            lemma_leaf_index(leaves, position);
            lemma_position(*self);
        }
        if self.position == 0 || self.leaf.is_none() {
            *self = Cursor {
                root: self.root,
                position: self.position,
                leaf: None,
                offset_of_leaf: self.offset_of_leaf,
            };
            return None;
        }
        let leaf = self.leaf.unwrap();
        let offset: usize = self.position - self.offset_of_leaf;
        if offset > 0 {
            match <BaseMetric as Metric>::prev(leaf, offset) {
                Some(at) => {
                    proof {
                        lemma_prev_in_leaf(leaves, k, offset as int, at as int);
                    }
                    let position: usize = self.offset_of_leaf + at;
                    *self = Cursor::new(self.root, position);
                    return Some(position);
                },
                None => {
                    assert(false);
                },
            }
        }
        proof {
            lemma_leaf_ends(leaves);
            lemma_leaf_parts(leaves, k - 1);
        }
        let _found = self.prev_leaf();
        proof {
            use_type_invariant(&*self);
            assert(leaves[k - 1].len() > 0);
        }
        match self.leaf {
            Some(leaf) => {
                let end: usize = Leaf::len(leaf);
                match <BaseMetric as Metric>::prev(leaf, end) {
                    Some(at) => {
                        proof {
                            lemma_prev_in_leaf(leaves, k - 1, end as int, at as int);
                        }
                        let position: usize = self.offset_of_leaf + at;
                        *self = Cursor::new(self.root, position);
                        Some(position)
                    },
                    None => {
                        assert(false);
                        None
                    },
                }
            },
            None => {
                assert(false);
                None
            },
        }
    }

    /// Moves to the codepoint boundary behind the position. At the end there is
    /// none, and the cursor leaves its leaf.
    pub fn next(&mut self) -> (at: Option<usize>)
        ensures
            if old(self).position() >= old(self).bytes().len() || !old(self).at_leaf() {
                &&& at is None
                &&& final(self).gone(*old(self), old(self).position())
            } else {
                &&& at matches Some(at)
                &&& is_next_boundary(old(self).bytes(), old(self).position(), at as int)
                &&& final(self).moved_to(*old(self), at as int)
            },
    {
        let ghost leaves = self.leaves();
        let ghost text = self.bytes();
        let ghost k = self.index();
        proof {
            use_type_invariant(&*self);
            lemma_leaf_index(leaves, self.position());
            lemma_position(*self);
            lemma_leaf_parts(leaves, k);
        }
        if self.position >= self.root.len() || self.leaf.is_none() {
            *self = Cursor {
                root: self.root,
                position: self.position,
                leaf: None,
                offset_of_leaf: self.offset_of_leaf,
            };
            return None;
        }
        let leaf = self.leaf.unwrap();
        let offset: usize = self.position - self.offset_of_leaf;
        proof {
            lemma_leaf_ends(leaves);
            if k + 1 == leaves.len() {
                assert(leaf_start(leaves, k + 1) == text.len());
            }
        }
        let at: usize = next_in_leaf(leaf, offset);
        proof {
            lemma_next_in_leaf(leaves, k, offset as int, at as int);
        }
        let position: usize = self.offset_of_leaf + at;
        *self = Cursor::new(self.root, position);
        Some(position)
    }

    /// Get previous codepoint before cursor position, and advance cursor backwards.
    pub fn prev_codepoint(&mut self) -> (c: Option<char>)
        ensures
            ({
                let text = old(self).bytes();
                let at = final(self).position();
                if old(self).position() == 0 || !old(self).at_leaf() {
                    &&& c is None
                    &&& final(self).gone(*old(self), old(self).position())
                } else {
                    &&& is_prev_boundary(text, old(self).position(), at)
                    &&& final(self).moved_to(*old(self), at)
                    &&& c == if at < text.len() {
                        Some(codepoint_at(text, at))
                    } else {
                        None
                    }
                }
            }),
    {
        let _at = self.prev();
        match self.get_leaf() {
            Some((leaf, offset)) => {
                proof {
                    use_type_invariant(&*self);
                    lemma_leaf_index(self.leaves(), self.position());
                    lemma_position(*self);
                }
                first_codepoint(leaf, offset, Ghost(self.leaves()), Ghost(self.index()))
            },
            None => None,
        }
    }

    /// Get next codepoint after cursor position, and advance cursor.
    pub fn next_codepoint(&mut self) -> (c: Option<char>)
        requires
            old(self).at_leaf() ==> is_boundary(old(self).bytes(), old(self).position()),
        ensures
            ({
                let text = old(self).bytes();
                let from = old(self).position();
                if from >= text.len() || !old(self).at_leaf() {
                    &&& c is None
                    &&& final(self).gone(*old(self), from)
                } else {
                    &&& c == Some(codepoint_at(text, from))
                    &&& is_next_boundary(text, from, final(self).position())
                    &&& final(self).moved_to(*old(self), final(self).position())
                }
            }),
    {
        match self.get_leaf() {
            Some((leaf, offset)) => {
                proof {
                    use_type_invariant(&*self);
                    lemma_leaf_index(self.leaves(), self.position());
                    lemma_position(*self);
                }
                let c = first_codepoint(leaf, offset, Ghost(self.leaves()), Ghost(self.index()));
                let _at = self.next();
                c
            },
            None => None,
        }
    }
}

/// The boundary of the leaf behind an offset.
fn next_in_leaf(leaf: &String, offset: usize) -> (at: usize)
    requires
        offset < leaf.utf8().len() <= MAX_LEAF,
    ensures
        is_next_boundary(leaf.utf8(), offset as int, at as int),
{
    let ghost text = leaf.utf8();
    proof {
        encode_utf8_valid_utf8(leaf@);
    }
    if <BaseMetric as Metric>::is_boundary(leaf, offset) {
        proof {
            lemma_width_reaches_next(text, offset as int);
        }
        match <BaseMetric as Metric>::next(leaf, offset) {
            Some(at) => at,
            None => {
                assert(false);
                offset
            },
        }
    } else {
        let mut at: usize = offset + 1;
        while !<BaseMetric as Metric>::is_boundary(leaf, at)
            invariant
                text == leaf.utf8(),
                offset < at <= text.len() <= MAX_LEAF,
                forall|i: int| offset < i < at ==> !#[trigger] is_boundary(text, i),
            decreases text.len() - at,
        {
            at = at + 1;
        }
        at
    }
}

/// The first codepoint of a leaf from an offset on.
fn first_codepoint(
    leaf: &String,
    offset: usize,
    Ghost(leaves): Ghost<Seq<Seq<u8>>>,
    Ghost(k): Ghost<int>,
) -> (c: Option<char>)
    requires
        leaves_wf(leaves),
        0 <= k < leaves.len(),
        leaf.utf8() == leaves[k],
        is_boundary(leaves[k], offset as int),
    ensures
        c == if offset < leaves[k].len() {
            Some(codepoint_at(leaves.flatten(), leaf_start(leaves, k) + offset))
        } else {
            None::<char>
        },
{
    let ghost text = leaf.utf8();
    proof {
        encode_utf8_valid_utf8(leaf@);
    }
    let rest = str_slice(leaf.as_str(), offset, leaf.as_str().as_bytes().len());
    proof {
        assert(rest.spec_bytes() =~= text.skip(offset as int));
        encode_utf8_decode_utf8(rest@);
        if offset < text.len() {
            lemma_codepoint_in_leaf(leaves, k, offset as int);
        } else {
            assert(rest.spec_bytes() =~= Seq::empty());
        }
    }
    rest.chars().next()
}

// Parts of proofs

/// A leaf that ends where the text ends is the last one.
proof fn lemma_last_leaf(leaves: Seq<Seq<u8>>, k: int)
    requires
        leaves_wf(leaves),
        0 <= k <= leaves.len(),
        leaf_start(leaves, k) == leaves.flatten().len(),
        k > 0,
    ensures
        k == leaves.len(),
{
    lemma_leaf_ends(leaves);
    if k < leaves.len() {
        lemma_leaf_parts(leaves, k);
        lemma_leaf_start_monotone(leaves, k + 1, leaves.len() as int);
        assert(leaves[k].len() > 0);
    }
}

/// The leaf at the start of a leaf is that leaf.
pub proof fn lemma_leaf_start_is(leaves: Seq<Seq<u8>>, k: int)
    requires
        leaves_wf(leaves),
        0 <= k < leaves.len(),
    ensures
        leaf_index(leaves, leaf_start(leaves, k)) == k,
{
    lemma_leaf_parts(leaves, k);
    if k + 1 < leaves.len() {
        assert(leaves[k].len() > 0);
    }
    lemma_leaf_index_is(leaves, leaf_start(leaves, k), k);
}

/// A position is a boundary of the text if and only if it is one of its leaf.
pub proof fn lemma_position(c: Cursor)
    requires
        c.wf(),
    ensures
        ({
            let k = c.index();
            let offset = c.position() - leaf_start(c.leaves(), k);
            &&& 0 <= k < c.leaves().len()
            &&& 0 <= offset
            &&& k + 1 < c.leaves().len() ==> offset < c.leaves()[k].len()
            &&& k + 1 == c.leaves().len() ==> leaf_start(c.leaves(), k) + c.leaves()[k].len()
                == c.bytes().len()
            &&& (c.position() < c.bytes().len()) == (offset < c.leaves()[k].len())
            &&& is_boundary(c.bytes(), c.position()) == is_boundary(c.leaves()[k], offset)
        }),
{
    let leaves = c.leaves();
    lemma_leaf_index(leaves, c.position());
    let k = c.index();
    lemma_leaf_parts(leaves, k);
    lemma_leaf_ends(leaves);
    let offset = c.position() - leaf_start(leaves, k);
    if offset <= leaves[k].len() {
        lemma_leaf_boundary(leaves, k, offset);
    }
}

/// The previous boundary in a leaf is the previous one in the text.
proof fn lemma_prev_in_leaf(leaves: Seq<Seq<u8>>, k: int, offset: int, at: int)
    requires
        leaves_wf(leaves),
        0 <= k < leaves.len(),
        is_prev_boundary(leaves[k], offset, at),
        k + 1 < leaves.len() ==> offset <= leaves[k].len(),
    ensures
        is_prev_boundary(
            leaves.flatten(),
            leaf_start(leaves, k) + offset,
            leaf_start(leaves, k) + at,
        ),
        leaf_start(leaves, k) + at <= leaves.flatten().len(),
{
    let text = leaves.flatten();
    let start = leaf_start(leaves, k);
    lemma_leaf_parts(leaves, k);
    lemma_leaf_ends(leaves);
    lemma_leaf_boundary(leaves, k, at);
    assert forall|i: int| start + at < i < start + offset implies !#[trigger] is_boundary(
        text,
        i,
    ) by {
        assert(!is_boundary(leaves[k], i - start));
        if i - start <= leaves[k].len() {
            lemma_leaf_boundary(leaves, k, i - start);
        }
    }
}

/// The next boundary in a leaf is the next one in the text.
proof fn lemma_next_in_leaf(leaves: Seq<Seq<u8>>, k: int, offset: int, at: int)
    requires
        leaves_wf(leaves),
        0 <= k < leaves.len(),
        0 <= offset,
        is_next_boundary(leaves[k], offset, at),
    ensures
        is_next_boundary(
            leaves.flatten(),
            leaf_start(leaves, k) + offset,
            leaf_start(leaves, k) + at,
        ),
{
    let text = leaves.flatten();
    let start = leaf_start(leaves, k);
    lemma_leaf_parts(leaves, k);
    lemma_leaf_boundary(leaves, k, at);
    assert forall|i: int| start + offset < i < start + at implies !#[trigger] is_boundary(
        text,
        i,
    ) by {
        assert(!is_boundary(leaves[k], i - start));
        lemma_leaf_boundary(leaves, k, i - start);
    }
}

proof fn lemma_codepoint_in_leaf(leaves: Seq<Seq<u8>>, k: int, offset: int)
    requires
        leaves_wf(leaves),
        0 <= k < leaves.len(),
        0 <= offset < leaves[k].len(),
        is_boundary(leaves[k], offset),
    ensures
        codepoint_at(leaves.flatten(), leaf_start(leaves, k) + offset) == codepoint_at(
            leaves[k],
            offset,
        ),
        decode_utf8(leaves[k].skip(offset)).len() > 0,
{
    let before = leaves.take(k);
    let behind = leaves.skip(k + 1);
    assert forall|j: int| 0 <= j < before.len() implies valid_utf8(#[trigger] before[j]) by {
        assert(before[j] == leaves[j]);
    }
    assert forall|j: int| 0 <= j < behind.len() implies valid_utf8(#[trigger] behind[j]) by {
        assert(behind[j] == leaves[k + 1 + j]);
    }
    lemma_flatten_valid(before);
    lemma_flatten_valid(behind);
    lemma_leaf_parts(leaves, k);
    lemma_codepoint_of_part(before.flatten(), leaves[k], behind.flatten(), offset);
}

} // verus!
