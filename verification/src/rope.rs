//! The rope itself.

use crate::cursor::Cursor;
use crate::grapheme::{chunk_text, next_grapheme_of, prev_grapheme_of};
use crate::interval::Interval;
use crate::leaf::Leaf;
use crate::leaves::{
    bulk_leaves, bulk_pieces, cut_leaves, edited_leaves, leaf_index, leaf_start, lemma_bulk_pushed,
    lemma_leaf_ends, lemma_leaf_index, lemma_leaf_parts, lemma_pushed_concat,
};
use crate::lines::{
    chunks_of, is_range, lemma_chunks_of, range_of, ChunkIter, Lines, LinesRaw,
};
use crate::metric::{BaseMetric, LinesMetric, Metric};
use crate::segment::{next_boundary_of, segmenter_new, Incomplete};
use crate::text::{
    edited, is_boundary, is_next_boundary, is_prev_boundary, lemma_encode_concat, lemma_line_start,
    lemma_start_is_boundary, newlines, starts_line,
};
use crate::tree::{lemma_bytes_valid, lemma_leaves_wf, Node, TreeBuilder};
use std::str::FromStr;
use vstd::prelude::*;
use vstd::seq_lib::*;
use vstd::string::*;
use vstd::utf8::*;

verus! {

/// The main rope data structure. It is implemented as a b-tree with simply
/// `String` as the leaf type. The base metric counts UTF-8 code units
/// (bytes) and has boundaries at code points.
pub type Rope = Node;

impl Node {
    /// Replaces the bytes from `start` to `end` by a string.
    pub fn edit_str(&mut self, start: usize, end: usize, new: &str)
        requires
            start <= end,
            is_boundary(old(self).bytes(), start as int),
            is_boundary(old(self).bytes(), end as int),
            old(self).bytes().len() - (end - start) + new.spec_bytes().len() <= usize::MAX,
        ensures
            final(self).bytes() == edited(
                old(self).bytes(),
                start as int,
                end as int,
                new.spec_bytes(),
            ),
            final(self).leaves() == edited_leaves(
                old(self).leaves(),
                start as int,
                end as int,
                new.spec_bytes(),
            ),
    {
        let ghost text = self.bytes();
        let mut b = TreeBuilder::new();
        let edit_iv = Interval::new(start, end);
        let self_iv = Interval::new(0, self.len());
        proof {
            use_type_invariant(&*self);
            lemma_bytes_valid(*self);
            lemma_start_is_boundary(text);
        }
        self.push_subseq(&mut b, self_iv.prefix(edit_iv));
        assert(b.bytes() =~= text.take(start as int));
        b.push_str(new);
        self.push_subseq(&mut b, self_iv.suffix(edit_iv));
        proof {
            assert(b.bytes() =~= text.take(start as int) + new.spec_bytes() + text.skip(
                end as int,
            ));
            let leaves = self.leaves();
            let before = cut_leaves(leaves, 0, start as int);
            let pieces = bulk_pieces(new.spec_bytes());
            let behind = cut_leaves(leaves, end as int, text.len() as int);
            lemma_pushed_concat(Seq::empty(), before, pieces);
            lemma_pushed_concat(Seq::empty(), before + pieces, behind);
        }
        *self = b.build();
    }

    /// Determine whether `offset` lies on a codepoint boundary.
    pub fn is_codepoint_boundary(&self, offset: usize) -> (found: bool)
        ensures
            found == is_boundary(self.bytes(), offset as int),
    {
        let cursor = Cursor::new(self, offset);
        cursor.is_boundary()
    }

    /// Return the offset of the codepoint before `offset`.
    pub fn prev_codepoint_offset(&self, offset: usize) -> (at: Option<usize>)
        ensures
            match at {
                Some(at) => is_prev_boundary(self.bytes(), offset as int, at as int),
                None => offset == 0,
            },
    {
        let mut cursor = Cursor::new(self, offset);
        cursor.prev()
    }

    /// Return the offset of the codepoint after `offset`.
    pub fn next_codepoint_offset(&self, offset: usize) -> (at: Option<usize>)
        ensures
            match at {
                Some(at) => is_next_boundary(self.bytes(), offset as int, at as int),
                None => offset >= self.bytes().len(),
            },
    {
        let mut cursor = Cursor::new(self, offset);
        cursor.next()
    }

    /// The offset of the grapheme boundary before `offset`, as the segmenter finds it.
    pub fn prev_grapheme_offset(&self, offset: usize) -> (at: Option<usize>)
        requires
            is_boundary(self.bytes(), offset as int),
        ensures
            at == prev_grapheme_of(
                self.leaves(),
                leaf_index(self.leaves(), offset as int),
                offset as int,
            ).at,
            at matches Some(x) ==> x < offset && is_boundary(self.bytes(), x as int),
            offset == 0 ==> at is None,
            offset <= leaf_start(self.leaves(), 1) ==> (at is None <==> offset == 0),
    {
        let mut cursor = Cursor::new(self, offset);
        cursor.prev_grapheme()
    }

    /// The offset of the grapheme boundary after `offset`, as the segmenter finds it.
    pub fn next_grapheme_offset(&self, offset: usize) -> (at: Option<usize>)
        requires
            is_boundary(self.bytes(), offset as int),
        ensures
            at == next_grapheme_of(
                self.leaves(),
                leaf_index(self.leaves(), offset as int),
                offset as int,
            ).at,
            at matches Some(x) ==> offset < x && is_boundary(self.bytes(), x as int),
            offset == self.bytes().len() ==> at is None,
            self.leaves().len() == 1 ==> (at is None <==> offset == self.bytes().len()),
            leaf_index(self.leaves(), offset as int) == 0 && at is None ==> {
                let end = leaf_start(self.leaves(), 1);
                let answer = next_boundary_of(
                    segmenter_new(offset, end as usize, true),
                    chunk_text(self.leaves(), 0),
                    0,
                ).0;
                ||| offset == self.bytes().len()
                ||| self.leaves().len() > 1 && answer == Ok::<Option<usize>, Incomplete>(
                    Some(end as usize),
                )
            },
    {
        let mut cursor = Cursor::new(self, offset);
        cursor.next_grapheme()
    }

    /// Return the line number corresponding to the byte index `offset`.
    ///
    /// The line number is 0-based, thus this is equivalent to the count of newlines
    /// in the slice up to `offset`.
    ///
    /// Time complexity: O(log n)
    pub fn line_of_offset(&self, offset: usize) -> (line: usize)
        requires
            is_boundary(self.bytes(), offset as int),
        ensures
            line == newlines(self.bytes().take(offset as int)),
    {
        self.convert_metrics::<BaseMetric, LinesMetric>(offset)
    }

    /// Return the byte offset corresponding to the line number `line`; the length of
    /// the text for a line that it does not have.
    ///
    /// The line number is 0-based.
    ///
    /// Time complexity: O(log n)
    pub fn offset_of_line(&self, line: usize) -> (offset: usize)
        ensures
            line <= newlines(self.bytes()) ==> starts_line(
                self.bytes(),
                line as nat,
                offset as int,
            ),
            line > newlines(self.bytes()) ==> offset == self.bytes().len(),
    {
        if line > self.measure::<LinesMetric>() {
            return self.len();
        }
        proof {
            lemma_line_start(self.bytes(), line as nat);
        }
        self.convert_metrics::<LinesMetric, BaseMetric>(line)
    }

    /// Returns an iterator over chunks of the rope.
    ///
    /// Each chunk is a `&str` slice borrowed from the rope's storage. The size
    /// of the chunks is indeterminate but for large strings will generally be
    /// in the range of 511-1024 bytes.
    ///
    /// The empty string will yield a single empty slice. In all other cases, the
    /// slices will be nonempty.
    ///
    /// Time complexity: technically O(n log n), but the constant factor is so
    /// tiny it is effectively O(n). This iterator does not allocate.
    pub fn iter_chunks(&self, start: usize, end: usize) -> (it: ChunkIter<'_>)
        requires
            is_range(self.bytes(), start as int, end as int),
        ensures
            it.rest() == chunks_of(self.leaves(), start as int, end as int),
    {
        ChunkIter::new(self, start, end)
    }

    /// An iterator over the raw lines. The lines, except the last, end with the
    /// terminating newline.
    ///
    /// The return type is a `Cow<str>`, and in most cases the lines are slices borrowed
    /// from the rope.
    pub fn lines_raw(&self, start: usize, end: usize) -> (it: LinesRaw<'_>)
        requires
            is_range(self.bytes(), start as int, end as int),
        ensures
            it.pieces() == chunks_of(self.leaves(), start as int, end as int),
            it.rest() == range_of(self.bytes(), start as int, end as int),
    {
        LinesRaw::new(self, start, end)
    }

    /// An iterator over the lines of a rope.
    ///
    /// Lines are ended with either Unix (`\n`) or MS-DOS (`\r\n`) style line endings.
    /// The line ending is stripped from the resulting string. The final line ending
    /// is optional.
    ///
    /// The return type is a `Cow<str>`, and in most cases the lines are slices borrowed
    /// from the rope.
    ///
    /// The semantics are intended to match `str::lines()`.
    pub fn lines(&self, start: usize, end: usize) -> (it: Lines<'_>)
        requires
            is_range(self.bytes(), start as int, end as int),
        ensures
            it.pieces() == chunks_of(self.leaves(), start as int, end as int),
            it.rest() == range_of(self.bytes(), start as int, end as int),
    {
        Lines::new(self, start, end)
    }

    /// The byte at `offset`.
    pub fn byte_at(&self, offset: usize) -> (b: u8)
        requires
            offset < self.bytes().len(),
        ensures
            b == self.bytes()[offset as int],
    {
        let cursor = Cursor::new(self, offset);
        match cursor.get_leaf() {
            Some((leaf, pos)) => {
                proof {
                    use_type_invariant(self);
                    lemma_leaves_wf(*self);
                    let leaves = self.leaves();
                    let k = leaf_index(leaves, offset as int);
                    lemma_leaf_index(leaves, offset as int);
                    lemma_leaf_parts(leaves, k);
                    lemma_leaf_ends(leaves);
                    let start = leaf_start(leaves, k);
                    assert(self.bytes().subrange(start, leaf_start(leaves, k + 1))[pos as int]
                        == leaves[k][pos as int]);
                }
                leaf.as_str().as_bytes()[pos]
            },
            None => {
                assert(false);
                0
            },
        }
    }

    /// The text from `start` to `end` as a string.
    pub fn slice_to_string(&self, start: usize, end: usize) -> (s: String)
        requires
            is_range(self.bytes(), start as int, end as int),
        ensures
            s.utf8() == range_of(self.bytes(), start as int, end as int),
    {
        let mut result = String::new();
        let mut chunks = self.iter_chunks(start, end);
        let ghost all = range_of(self.bytes(), start as int, end as int);
        proof {
            use_type_invariant(self);
            lemma_leaves_wf(*self);
            lemma_chunks_of(self.leaves(), start as int, end as int);
            assert(result.utf8() =~= Seq::empty());
            assert(all =~= result.utf8() + chunks.rest().flatten());
        }
        loop
            invariant
                all == result.utf8() + chunks.rest().flatten(),
            ensures
                chunks.rest().len() == 0,
            decreases chunks.rest().len(),
        {
            let ghost before = chunks.rest();
            match chunks.next() {
                Some(chunk) => {
                    proof {
                        lemma_encode_concat(result@, chunk@);
                        assert(before =~= seq![before[0]] + chunks.rest());
                        seq![before[0]].lemma_flatten_one_element();
                        lemma_flatten_concat(seq![before[0]], chunks.rest());
                        assert(all =~= result.utf8() + chunk.spec_bytes()
                            + chunks.rest().flatten());
                    }
                    result.append(chunk);
                },
                None => {
                    break;
                },
            }
        }
        assert(result.utf8() =~= all);
        result
    }
}

// Conversions

/// The rope of a string.
fn rope_of(s: &str) -> (rope: Node)
    ensures
        rope.leaves() == bulk_leaves(s.spec_bytes()),
        rope.bytes() == s.spec_bytes(),
        rope@ == s@,
{
    let _len: usize = s.as_bytes().len();
    let mut b = TreeBuilder::new();
    b.push_str(s);
    proof {
        assert(b.bytes() =~= s.spec_bytes());
        encode_utf8_decode_utf8(s@);
        encode_utf8_valid_utf8(s@);
        lemma_bulk_pushed(s.spec_bytes());
    }
    b.build()
}

/// The string of a rope.
fn string_of(rope: &Node) -> (s: String)
    ensures
        s@ == rope@,
        s.utf8() == rope.bytes(),
{
    let len: usize = rope.len();
    proof {
        use_type_invariant(rope);
        lemma_bytes_valid(*rope);
        lemma_start_is_boundary(rope.bytes());
    }
    let s = rope.slice_to_string(0, len);
    proof {
        assert(range_of(rope.bytes(), 0, len as int) =~= rope.bytes());
        encode_utf8_decode_utf8(s@);
    }
    s
}

// Debug text

/// How `{:?}` shows a text: in quotes, with escapes.
pub uninterp spec fn quoted_text(text: Seq<char>) -> Seq<char>;

/// The `Debug` form of a string, which `format!` writes for `{:?}`. Which characters
/// it escapes, and how, is left unsaid.
#[verifier::external_body]
fn quote(s: &str) -> (quoted: String)
    ensures
        quoted@ == quoted_text(s@),
{
    format!("{:?}", s)
}

/// How a rope is shown, from its text in quotes.
pub fn debug_from_quoted(quoted: &str) -> (shown: String)
    ensures
        shown@ == "Rope("@ + quoted@ + ")"@,
{
    let mut shown = "Rope(".to_owned();
    shown.append(quoted);
    shown.append(")");
    shown
}

impl Node {
    /// How a rope is shown: the text itself in the alternate form, else the text in
    /// quotes as the field of `Rope`.
    pub fn debug_text(&self, alternate: bool) -> (shown: String)
        ensures
            shown@ == if alternate {
                self@
            } else {
                "Rope("@ + quoted_text(self@) + ")"@
            },
    {
        let text = string_of(self);
        if alternate {
            text
        } else {
            debug_from_quoted(quote(text.as_str()).as_str())
        }
    }
}

impl FromStr for Node {
    type Err = std::convert::Infallible;

    fn from_str(s: &str) -> (rope: Result<Node, std::convert::Infallible>)
        ensures
            rope matches Ok(rope) && {
                &&& rope@ == s@
                &&& rope.bytes() == s.spec_bytes()
                &&& rope.leaves() == bulk_leaves(s.spec_bytes())
            },
    {
        Ok(rope_of(s))
    }
}

impl<'a> From<&'a str> for Node {
    fn from(s: &'a str) -> (rope: Node)
        ensures
            rope@ == s@,
            rope.bytes() == s.spec_bytes(),
            rope.leaves() == bulk_leaves(s.spec_bytes()),
    {
        rope_of(s)
    }
}

impl<'a> vstd::std_specs::convert::FromSpecImpl<&'a str> for Node {
    open spec fn obeys_from_spec() -> bool {
        false
    }

    open spec fn from_spec(s: &'a str) -> Node {
        arbitrary()
    }
}

impl From<String> for Node {
    fn from(s: String) -> (rope: Node)
        ensures
            rope@ == s@,
            rope.bytes() == s.utf8(),
            rope.leaves() == bulk_leaves(s.utf8()),
    {
        rope_of(s.as_str())
    }
}

impl vstd::std_specs::convert::FromSpecImpl<String> for Node {
    open spec fn obeys_from_spec() -> bool {
        false
    }

    open spec fn from_spec(s: String) -> Node {
        arbitrary()
    }
}

impl<'a> From<&'a String> for Node {
    fn from(s: &'a String) -> (rope: Node)
        ensures
            rope@ == s@,
            rope.bytes() == s.utf8(),
            rope.leaves() == bulk_leaves(s.utf8()),
    {
        rope_of(s.as_str())
    }
}

impl<'a> vstd::std_specs::convert::FromSpecImpl<&'a String> for Node {
    open spec fn obeys_from_spec() -> bool {
        false
    }

    open spec fn from_spec(s: &'a String) -> Node {
        arbitrary()
    }
}

impl From<Node> for String {
    fn from(rope: Node) -> (s: String)
        ensures
            s@ == rope@,
            s.utf8() == rope.bytes(),
    {
        string_of(&rope)
    }
}

impl vstd::std_specs::convert::FromSpecImpl<Node> for String {
    open spec fn obeys_from_spec() -> bool {
        false
    }

    open spec fn from_spec(rope: Node) -> String {
        arbitrary()
    }
}

impl<'a> From<&'a Node> for String {
    fn from(rope: &'a Node) -> (s: String)
        ensures
            s@ == rope@,
            s.utf8() == rope.bytes(),
    {
        string_of(rope)
    }
}

impl<'a> vstd::std_specs::convert::FromSpecImpl<&'a Node> for String {
    open spec fn obeys_from_spec() -> bool {
        false
    }

    open spec fn from_spec(rope: &'a Node) -> String {
        arbitrary()
    }
}

} // verus!
