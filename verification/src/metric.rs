//! The summary that every node of a rope keeps of its text, and the units in
//! which a text is measured: bytes and lines.

use crate::leaf::{str_slice, Leaf};
use crate::scan::{count_newlines, last_newline};
use crate::text::{
    is_boundary, is_prev_boundary, lemma_boundary_concat, lemma_count_bounded, lemma_count_concat,
    lemma_count_none, lemma_is_char_boundary, lemma_line_start, lemma_line_start_is,
    lemma_newlines_monotone, lemma_no_newline_after, lemma_start_is_boundary,
    lemma_width_reaches_next, line_start, newlines, starts_line, width_from_first_byte, NEWLINE,
};
use vstd::prelude::*;
use vstd::slice::slice_subrange;
use vstd::string::*;
use vstd::utf8::*;

verus! {

/// What a node knows of its text besides the length: the number of newlines.
#[derive(Clone, Copy)]
pub struct RopeInfo {
    lines: usize,
}

impl View for RopeInfo {
    type V = nat;

    closed spec fn view(&self) -> nat {
        self.lines as nat
    }
}

impl RopeInfo {
    /// Takes in the summary of the text that follows.
    pub fn accumulate(&mut self, other: &RopeInfo)
        requires
            old(self)@ + other@ <= usize::MAX,
        ensures
            final(self)@ == old(self)@ + other@,
    {
        self.lines = self.lines + other.lines;
    }

    /// The summary of one leaf.
    pub fn compute_info(s: &String) -> (info: RopeInfo)
        ensures
            info@ == newlines(s.utf8()),
    {
        RopeInfo { lines: count_newlines(s.as_str()) }
    }

    /// The summary of the empty text.
    pub fn identity() -> (info: RopeInfo)
        ensures
            info@ == 0,
    {
        RopeInfo { lines: 0 }
    }
}

/// A unit in which texts are measured and their boundaries are found.
pub trait Metric: Sized {
    /// How many units `text` measures.
    spec fn measured(text: Seq<u8>) -> nat;

    /// The units that `to_base_units` takes on `text`.
    spec fn reaches(text: Seq<u8>, units: nat) -> bool;

    /// The byte offset that `units` units lead to.
    spec fn base_offset(text: Seq<u8>, units: nat) -> int;

    /// The offsets that `from_base_units` takes on `text`.
    spec fn convertible(text: Seq<u8>, offset: int) -> bool;

    /// The units that lie before the byte offset `offset`.
    spec fn units_at(text: Seq<u8>, offset: int) -> nat;

    /// The offsets that `is_boundary` and `prev` take on `text`.
    spec fn accepts(text: Seq<u8>, offset: int) -> bool;

    /// The offsets that `next` takes on `text`.
    spec fn advances(text: Seq<u8>, offset: int) -> bool;

    /// `offset` is a boundary of this metric.
    spec fn boundary(text: Seq<u8>, offset: int) -> bool;

    /// `at` is what `prev` finds from `offset`.
    spec fn precedes(text: Seq<u8>, offset: int, at: int) -> bool;

    /// `at` is what `next` finds from `offset`.
    spec fn follows(text: Seq<u8>, offset: int, at: int) -> bool;

    /// Whether a leaf may end without reaching a boundary.
    spec fn fragments() -> bool;

    /// The measure of a concatenation is the sum of the measures.
    proof fn law_measured_concat(a: Seq<u8>, b: Seq<u8>)
        ensures
            Self::measured(a + b) == Self::measured(a) + Self::measured(b),
    ;

    /// The measure never exceeds the length in bytes.
    proof fn law_measured_bounded(text: Seq<u8>)
        ensures
            Self::measured(text) <= text.len(),
    ;

    /// What a text measures lies within the text.
    proof fn law_base_offset(text: Seq<u8>, units: nat)
        requires
            units <= Self::measured(text),
        ensures
            Self::reaches(text, units),
            0 <= Self::base_offset(text, units) <= text.len(),
            Self::base_offset(text, 0) == 0,
            Self::units_at(text, 0) == 0,
    ;

    /// Units that the first part covers lead into the first part.
    proof fn law_base_offset_low(a: Seq<u8>, b: Seq<u8>, units: nat)
        requires
            units < Self::measured(a) || Self::fragments() && units == Self::measured(a),
        ensures
            Self::base_offset(a + b, units) == Self::base_offset(a, units),
    ;

    /// Units that the first part does not cover lead into the second part.
    proof fn law_base_offset_high(a: Seq<u8>, b: Seq<u8>, units: nat)
        requires
            Self::measured(a) <= units <= Self::measured(a) + Self::measured(b),
            Self::fragments() ==> units > Self::measured(a),
        ensures
            Self::base_offset(a + b, units) == a.len() + Self::base_offset(
                b,
                (units - Self::measured(a)) as nat,
            ),
    ;

    /// The units before an offset add up over the parts.
    proof fn law_units_concat(a: Seq<u8>, b: Seq<u8>, offset: int)
        requires
            valid_utf8(a),
            valid_utf8(b),
            0 <= offset <= a.len() + b.len(),
            Self::convertible(a + b, offset),
        ensures
            offset <= a.len() ==> Self::convertible(a, offset) && Self::units_at(a + b, offset)
                == Self::units_at(a, offset),
            offset >= a.len() ==> Self::convertible(b, offset - a.len()) && Self::units_at(
                a + b,
                offset,
            ) == Self::measured(a) + Self::units_at(b, offset - a.len()),
    ;

    /// No more units lie before an offset than the text measures.
    proof fn law_units_at_bounded(text: Seq<u8>, offset: int)
        requires
            0 <= offset <= text.len(),
        ensures
            Self::units_at(text, offset) <= Self::measured(text),
    ;

    /// The measure of a text with the given summary and length.
    fn measure(info: &RopeInfo, len: usize) -> (units: usize)
        ensures
            forall|text: Seq<u8>|
                info@ == newlines(text) && len == text.len() ==> units == #[trigger] Self::measured(
                    text,
                ),
    ;

    /// The byte offset in the leaf that the units lead to.
    fn to_base_units(s: &String, in_measured_units: usize) -> (offset: usize)
        requires
            Self::reaches(s.utf8(), in_measured_units as nat),
        ensures
            offset == Self::base_offset(s.utf8(), in_measured_units as nat),
    ;

    /// The units of the leaf that lie before the byte offset.
    fn from_base_units(s: &String, in_base_units: usize) -> (units: usize)
        requires
            Self::convertible(s.utf8(), in_base_units as int),
        ensures
            units == Self::units_at(s.utf8(), in_base_units as int),
    ;

    /// Whether the offset in the leaf is a boundary.
    fn is_boundary(s: &String, offset: usize) -> (found: bool)
        requires
            Self::accepts(s.utf8(), offset as int),
        ensures
            found == Self::boundary(s.utf8(), offset as int),
    ;

    /// The boundary in the leaf that precedes the offset.
    fn prev(s: &String, offset: usize) -> (at: Option<usize>)
        requires
            Self::accepts(s.utf8(), offset as int),
        ensures
            match at {
                Some(at) => Self::precedes(s.utf8(), offset as int, at as int),
                None => forall|i: int| !#[trigger] Self::precedes(s.utf8(), offset as int, i),
            },
    ;

    /// The boundary in the leaf that follows the offset.
    fn next(s: &String, offset: usize) -> (at: Option<usize>)
        requires
            Self::advances(s.utf8(), offset as int),
        ensures
            match at {
                Some(at) => Self::follows(s.utf8(), offset as int, at as int),
                None => forall|i: int| !#[trigger] Self::follows(s.utf8(), offset as int, i),
            },
    ;

    /// Whether a leaf may end without reaching a boundary.
    fn can_fragment() -> (yes: bool)
        ensures
            yes == Self::fragments(),
    ;
}

/// The base metric: a text measures its bytes and has boundaries at codepoints.
#[derive(Clone, Copy)]
pub struct BaseMetric(());

impl Metric for BaseMetric {
    open spec fn measured(text: Seq<u8>) -> nat {
        text.len()
    }

    open spec fn reaches(text: Seq<u8>, units: nat) -> bool {
        true
    }

    open spec fn base_offset(text: Seq<u8>, units: nat) -> int {
        units as int
    }

    open spec fn convertible(text: Seq<u8>, offset: int) -> bool {
        true
    }

    open spec fn units_at(text: Seq<u8>, offset: int) -> nat {
        offset as nat
    }

    open spec fn accepts(text: Seq<u8>, offset: int) -> bool {
        true
    }

    /// Behind an offset that is no boundary the step may reach past the end by one byte.
    open spec fn advances(text: Seq<u8>, offset: int) -> bool {
        offset <= text.len() && (is_boundary(text, offset) || text.len() < usize::MAX)
    }

    open spec fn boundary(text: Seq<u8>, offset: int) -> bool {
        is_boundary(text, offset)
    }

    open spec fn precedes(text: Seq<u8>, offset: int, at: int) -> bool {
        is_prev_boundary(text, offset, at)
    }

    open spec fn follows(text: Seq<u8>, offset: int, at: int) -> bool {
        offset < text.len() && at == offset + width_from_first_byte(text[offset])
    }

    open spec fn fragments() -> bool {
        false
    }

    proof fn law_measured_concat(a: Seq<u8>, b: Seq<u8>) {
    }

    proof fn law_measured_bounded(text: Seq<u8>) {
    }

    proof fn law_base_offset(text: Seq<u8>, units: nat) {
    }

    proof fn law_base_offset_low(a: Seq<u8>, b: Seq<u8>, units: nat) {
    }

    proof fn law_base_offset_high(a: Seq<u8>, b: Seq<u8>, units: nat) {
    }

    proof fn law_units_concat(a: Seq<u8>, b: Seq<u8>, offset: int) {
    }

    proof fn law_units_at_bounded(text: Seq<u8>, offset: int) {
    }

    fn measure(_info: &RopeInfo, len: usize) -> (units: usize)
        ensures
            units == len,
    {
        len
    }

    fn to_base_units(_s: &String, in_measured_units: usize) -> (offset: usize) {
        in_measured_units
    }

    fn from_base_units(_s: &String, in_base_units: usize) -> (units: usize) {
        in_base_units
    }

    fn is_boundary(s: &String, offset: usize) -> (found: bool) {
        proof {
            encode_utf8_valid_utf8(s@);
            lemma_is_char_boundary(s.utf8(), offset as int);
        }
        s.as_str().is_char_boundary(offset)
    }

    fn prev(s: &String, offset: usize) -> (at: Option<usize>)
        ensures
            at is None <==> offset == 0,
    {
        let ghost text = s.utf8();
        proof {
            encode_utf8_valid_utf8(s@);
            lemma_start_is_boundary(text);
        }
        if offset == 0 {
            None
        } else {
            let mut len: usize = 1;
            proof {
                lemma_is_char_boundary(text, offset - len);
            }
            while !s.as_str().is_char_boundary(offset - len)
                invariant
                    text == s.utf8(),
                    valid_utf8(text),
                    is_boundary(text, 0),
                    1 <= len <= offset,
                    is_boundary(text, offset - len) == is_char_boundary(text, offset - len),
                    forall|i: int| offset - len < i < offset ==> !#[trigger] is_boundary(text, i),
                decreases offset - len,
            {
                assert(offset - len != 0);
                len = len + 1;
                proof {
                    lemma_is_char_boundary(text, offset - len);
                }
            }
            Some(offset - len)
        }
    }

    fn next(s: &String, offset: usize) -> (at: Option<usize>)
        ensures
            at is None <==> offset == s.utf8().len(),
    {
        let bytes = s.as_str().as_bytes();
        proof {
            encode_utf8_valid_utf8(s@);
            if offset < bytes@.len() && is_boundary(s.utf8(), offset as int) {
                lemma_width_reaches_next(s.utf8(), offset as int);
            }
        }
        if offset == bytes.len() {
            None
        } else {
            let b = bytes[offset];
            Some(offset + len_utf8_from_first_byte(b))
        }
    }

    fn can_fragment() -> (yes: bool) {
        false
    }
}

/// The number of bytes that a codepoint takes, told from its first byte.
pub fn len_utf8_from_first_byte(b: u8) -> (n: usize)
    ensures
        n == width_from_first_byte(b),
{
    match b {
        b if b < 0x80 => 1,
        b if b < 0xe0 => 2,
        b if b < 0xf0 => 3,
        _ => 4,
    }
}

/// The line metric: a text measures its newlines and has a boundary behind each.
#[derive(Clone, Copy)]
pub struct LinesMetric(usize);

/// A boundary of the line metric lies right behind a newline.
pub open spec fn is_line_boundary(text: Seq<u8>, offset: int) -> bool {
    0 < offset <= text.len() && text[offset - 1] == NEWLINE
}

impl Metric for LinesMetric {
    open spec fn measured(text: Seq<u8>) -> nat {
        newlines(text)
    }

    open spec fn reaches(text: Seq<u8>, units: nat) -> bool {
        units <= newlines(text)
    }

    open spec fn base_offset(text: Seq<u8>, units: nat) -> int {
        line_start(text, units)
    }

    open spec fn convertible(text: Seq<u8>, offset: int) -> bool {
        is_boundary(text, offset)
    }

    open spec fn units_at(text: Seq<u8>, offset: int) -> nat {
        newlines(text.take(offset))
    }

    open spec fn accepts(text: Seq<u8>, offset: int) -> bool {
        offset <= text.len()
    }

    open spec fn advances(text: Seq<u8>, offset: int) -> bool {
        offset <= text.len()
    }

    open spec fn boundary(text: Seq<u8>, offset: int) -> bool {
        is_line_boundary(text, offset)
    }

    open spec fn precedes(text: Seq<u8>, offset: int, at: int) -> bool {
        &&& at <= offset
        &&& is_line_boundary(text, at)
        &&& forall|i: int| at < i <= offset ==> !#[trigger] is_line_boundary(text, i)
    }

    open spec fn follows(text: Seq<u8>, offset: int, at: int) -> bool {
        &&& offset < at
        &&& is_line_boundary(text, at)
        &&& forall|i: int| offset < i < at ==> !#[trigger] is_line_boundary(text, i)
    }

    open spec fn fragments() -> bool {
        true
    }

    proof fn law_measured_concat(a: Seq<u8>, b: Seq<u8>) {
        lemma_count_concat(a, b, NEWLINE);
    }

    proof fn law_measured_bounded(text: Seq<u8>) {
        lemma_count_bounded(text, NEWLINE);
    }

    proof fn law_base_offset(text: Seq<u8>, units: nat) {
        lemma_line_start(text, units);
        assert(text.take(0).len() == 0);
    }

    proof fn law_base_offset_low(a: Seq<u8>, b: Seq<u8>, units: nat) {
        lemma_line_start(a, units);
        let o = line_start(a, units);
        assert((a + b).take(o) =~= a.take(o));
        lemma_line_start_is(a + b, units, o);
    }

    proof fn law_base_offset_high(a: Seq<u8>, b: Seq<u8>, units: nat) {
        let rest = (units - newlines(a)) as nat;
        lemma_line_start(b, rest);
        let o = line_start(b, rest);
        assert((a + b).take(a.len() + o) =~= a + b.take(o));
        lemma_count_concat(a, b.take(o), NEWLINE);
        if o == 0 {
            assert(b.take(0).len() == 0);
        } else {
            assert((a + b)[a.len() + o - 1] == b[o - 1]);
        }
        lemma_line_start_is(a + b, units, a.len() + o);
    }

    proof fn law_units_concat(a: Seq<u8>, b: Seq<u8>, offset: int) {
        lemma_boundary_concat(a, b, offset);
        if offset <= a.len() {
            assert((a + b).take(offset) =~= a.take(offset));
        }
        if offset >= a.len() {
            assert((a + b).take(offset) =~= a + b.take(offset - a.len()));
            lemma_count_concat(a, b.take(offset - a.len()), NEWLINE);
        }
    }

    proof fn law_units_at_bounded(text: Seq<u8>, offset: int) {
        lemma_newlines_monotone(text, offset, text.len() as int);
        assert(text.take(text.len() as int) =~= text);
    }

    fn measure(info: &RopeInfo, _len: usize) -> (units: usize)
        ensures
            units == info@,
    {
        info.lines
    }

    fn to_base_units(s: &String, in_measured_units: usize) -> (offset: usize) {
        let ghost text = s.utf8();
        let bytes = s.as_str().as_bytes();
        let mut offset: usize = 0;
        let mut line: usize = 0;
        assert(text.take(0).len() == 0);
        while line < in_measured_units
            invariant
                bytes@ == text,
                text == s.utf8(),
                line <= in_measured_units <= newlines(text),
                starts_line(text, line as nat, offset as int),
            decreases in_measured_units - line,
        {
            proof {
                lemma_no_newline_after(text, offset as int);
            }
            let rest = slice_subrange(bytes, offset, bytes.len());
            match memchr::memchr(NEWLINE, rest) {
                Some(pos) => {
                    let ghost prev = offset as int;
                    let ghost next = offset + pos + 1;
                    proof {
                        assert(text[next - 1] == rest@[pos as int]);
                        assert forall|i: int| prev <= i < next - 1 implies text[i] != NEWLINE by {
                            assert(text[i] == rest@[i - prev]);
                        }
                        assert(text.take(next - 1) =~= text.take(prev) + text.subrange(
                            prev,
                            next - 1,
                        ));
                        lemma_count_concat(text.take(prev), text.subrange(prev, next - 1), NEWLINE);
                        lemma_count_none(text.subrange(prev, next - 1), NEWLINE);
                        assert(text.take(next).drop_last() =~= text.take(next - 1));
                    }
                    offset = offset + pos + 1;
                    line = line + 1;
                },
                None => {
                    proof {
                        assert forall|i: int| offset <= i < text.len() implies text[i]
                            != NEWLINE by {
                            assert(text[i] == rest@[i - offset]);
                        }
                        assert(false);
                    }
                },
            }
        }
        proof {
            lemma_line_start_is(text, in_measured_units as nat, offset as int);
        }
        offset
    }

    fn from_base_units(s: &String, in_base_units: usize) -> (units: usize) {
        proof {
            encode_utf8_valid_utf8(s@);
            lemma_start_is_boundary(s.utf8());
        }
        count_newlines(str_slice(s.as_str(), 0, in_base_units))
    }

    fn is_boundary(s: &String, offset: usize) -> (found: bool) {
        if offset == 0 {
            false
        } else {
            s.as_str().as_bytes()[offset - 1] == NEWLINE
        }
    }

    fn prev(s: &String, offset: usize) -> (at: Option<usize>)
        ensures
            offset <= s.utf8().len(),
            at matches Some(at) ==> 0 < at <= offset && s.utf8()[at - 1] == NEWLINE,
            forall|i: int|
                (at matches Some(at) ==> at <= i) && 0 <= i < offset ==> #[trigger] s.utf8()[i]
                    != NEWLINE,
    {
        let ghost text = s.utf8();
        match last_newline(s.as_str().as_bytes(), 0, offset) {
            Some(pos) => {
                assert(is_line_boundary(text, pos + 1));
                Some(pos + 1)
            },
            None => None,
        }
    }

    fn next(s: &String, offset: usize) -> (at: Option<usize>)
        ensures
            offset <= s.utf8().len(),
            at matches Some(at) ==> offset < at <= s.utf8().len() && s.utf8()[at - 1] == NEWLINE,
            forall|i: int|
                (at matches Some(at) ==> i < at - 1) && offset <= i < s.utf8().len()
                    ==> #[trigger] s.utf8()[i] != NEWLINE,
    {
        let ghost text = s.utf8();
        let bytes = s.as_str().as_bytes();
        let rest = slice_subrange(bytes, offset, bytes.len());
        match memchr::memchr(NEWLINE, rest) {
            Some(pos) => {
                proof {
                    let at = offset + pos + 1;
                    assert(text[at - 1] == rest@[pos as int]);
                    assert forall|i: int| offset <= i < at - 1 implies text[i] != NEWLINE by {
                        assert(text[i] == rest@[i - offset]);
                    }
                    assert forall|i: int| offset < i < at implies !#[trigger] is_line_boundary(
                        text,
                        i,
                    ) by {
                        assert(text[i - 1] == rest@[i - 1 - offset]);
                    }
                }
                Some(offset + pos + 1)
            },
            None => {
                proof {
                    assert forall|i: int| offset <= i < text.len() implies text[i] != NEWLINE by {
                        assert(text[i] == rest@[i - offset]);
                    }
                    assert forall|i: int| !#[trigger] Self::follows(text, offset as int, i) by {
                        if is_line_boundary(text, i) && offset < i {
                            assert(text[i - 1] == rest@[i - 1 - offset]);
                        }
                    }
                }
                None
            },
        }
    }

    fn can_fragment() -> (yes: bool) {
        true
    }
}

} // verus!
