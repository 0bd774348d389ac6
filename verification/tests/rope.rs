use rope::{Cursor, Rope, TreeBuilder};
use std::str::FromStr;

/// A text of several leaves, with line endings of both kinds.
fn long_text() -> String {
    let mut s = String::new();
    for i in 0..400usize {
        s.push_str(&format!("line {} \u{00e9}\u{4e00}", i));
        if i % 3 == 0 {
            s.push('\r');
        }
        s.push('\n');
    }
    s
}

#[test]
fn replace_small() {
    let mut a = Rope::from("hello world");
    a.edit_str(1, 9, "era");
    assert_eq!("herald", String::from(a));
}

#[test]
fn prev_codepoint_offset_small() {
    let a = Rope::from("a\u{00A1}\u{4E00}\u{1F4A9}");
    assert_eq!(Some(6), a.prev_codepoint_offset(10));
    assert_eq!(Some(3), a.prev_codepoint_offset(6));
    assert_eq!(Some(1), a.prev_codepoint_offset(3));
    assert_eq!(Some(0), a.prev_codepoint_offset(1));
    assert_eq!(None, a.prev_codepoint_offset(0));
}

#[test]
fn next_codepoint_offset_small() {
    let a = Rope::from("a\u{00A1}\u{4E00}\u{1F4A9}");
    assert_eq!(Some(10), a.next_codepoint_offset(6));
    assert_eq!(Some(6), a.next_codepoint_offset(3));
    assert_eq!(Some(3), a.next_codepoint_offset(1));
    assert_eq!(Some(1), a.next_codepoint_offset(0));
    assert_eq!(None, a.next_codepoint_offset(10));
}

#[test]
fn prev_grapheme_offset() {
    // A with ring, hangul, regional indicator "US"
    let a = Rope::from("A\u{030a}\u{110b}\u{1161}\u{1f1fa}\u{1f1f8}");
    assert_eq!(Some(9), a.prev_grapheme_offset(17));
    assert_eq!(Some(3), a.prev_grapheme_offset(9));
    assert_eq!(Some(0), a.prev_grapheme_offset(3));
    assert_eq!(None, a.prev_grapheme_offset(0));
}

#[test]
fn next_grapheme_offset() {
    // A with ring, hangul, regional indicator "US"
    let a = Rope::from("A\u{030a}\u{110b}\u{1161}\u{1f1fa}\u{1f1f8}");
    assert_eq!(Some(3), a.next_grapheme_offset(0));
    assert_eq!(Some(9), a.next_grapheme_offset(3));
    assert_eq!(Some(17), a.next_grapheme_offset(9));
    assert_eq!(None, a.next_grapheme_offset(17));
}

#[test]
fn next_grapheme_offset_with_ris_of_leaf_boundaries() {
    let s1 = "\u{1f1fa}\u{1f1f8}".repeat(100);
    let a = Rope::concat(
        Rope::from(s1.clone()),
        Rope::concat(Rope::from(String::from(s1.clone()) + "\u{1f1fa}"), Rope::from(s1.clone())),
    );
    for i in 0..601 {
        let prev_exp: Option<usize> =
            if i > 0 { if i % 2 == 0 { Some(i*4-8) } else { Some(i*4-4) } } else { None };
        let next_exp: Option<usize> =
            if i % 2 == 0 && i < 600 { Some(i*4+8) } else { Some(i*4+4) };
        assert_eq!(prev_exp, a.prev_grapheme_offset(i*4));
        assert_eq!(next_exp, a.next_grapheme_offset(i*4));
    }
    assert_eq!(Some(s1.len()*3), a.prev_grapheme_offset(s1.len()*3+4));
    assert_eq!(None, a.next_grapheme_offset(s1.len() * 3 + 4));
}

#[test]
fn string_round_trip() {
    for text in ["", "a", "a\u{00A1}\u{4E00}\u{1F4A9}", &long_text()] {
        let rope = Rope::from(text);
        assert_eq!(text, String::from(&rope));
        assert_eq!(text, String::from(Rope::from(String::from(&rope))));
        assert_eq!(text, String::from(Rope::from(&String::from(rope))));
        assert_eq!(text, String::from(Rope::from_str(text).unwrap()));
    }
}

#[test]
fn bytes_and_boundaries_of_a_long_text() {
    let text = long_text();
    let rope = Rope::from(text.as_str());
    assert_eq!(text.len(), rope.len());
    for (i, b) in text.bytes().enumerate() {
        assert_eq!(b, rope.byte_at(i));
        assert_eq!(text.is_char_boundary(i), rope.is_codepoint_boundary(i));
    }
    assert!(rope.is_codepoint_boundary(text.len()));
    assert!(!rope.is_codepoint_boundary(text.len() + 1));
}

#[test]
fn codepoint_offsets_inside_codepoints() {
    let a = Rope::from("a\u{00A1}\u{4E00}\u{1F4A9}");
    assert_eq!(Some(3), a.next_codepoint_offset(2));
    assert_eq!(Some(6), a.next_codepoint_offset(4));
    assert_eq!(Some(6), a.next_codepoint_offset(5));
    assert_eq!(Some(10), a.next_codepoint_offset(8));
    assert_eq!(Some(1), a.prev_codepoint_offset(2));
    assert_eq!(Some(3), a.prev_codepoint_offset(5));
    assert_eq!(Some(6), a.prev_codepoint_offset(9));
    assert_eq!(Some(10), a.prev_codepoint_offset(12));
    assert_eq!(None, a.next_codepoint_offset(12));
}

#[test]
fn prev_and_next_codepoint_undo_each_other() {
    let text = long_text();
    let rope = Rope::from(text.as_str());
    for (i, c) in text.char_indices() {
        let next: usize = rope.next_codepoint_offset(i).unwrap();
        assert_eq!(i + c.len_utf8(), next);
        assert_eq!(Some(i), rope.prev_codepoint_offset(next));
    }
}

#[test]
fn cursor_spells_the_text() {
    let text = long_text();
    let rope = Rope::from(text.as_str());
    let mut forward = String::new();
    let mut cursor = Cursor::new(&rope, 0);
    while let Some(c) = cursor.next_codepoint() {
        forward.push(c);
    }
    assert_eq!(text, forward);
    let mut backward = Vec::new();
    let mut cursor = Cursor::new(&rope, text.len());
    while let Some(c) = cursor.prev_codepoint() {
        backward.push(c);
    }
    backward.reverse();
    assert_eq!(text.chars().collect::<Vec<char>>(), backward);
}

#[test]
fn cursor_beyond_the_end() {
    let rope = Rope::from("ab");
    let mut cursor = Cursor::new(&rope, 5);
    assert_eq!(None, cursor.prev_codepoint());
    assert_eq!(2, cursor.pos());
    assert_eq!(Some('b'), cursor.prev_codepoint());
    assert_eq!(1, cursor.pos());
}

#[test]
fn cursor_leaves() {
    let rope = Rope::concat(Rope::from("a".repeat(600)), Rope::from("b".repeat(700)));
    let mut cursor = Cursor::new(&rope, 3);
    assert_eq!(Some((&"a".repeat(600), 3)), cursor.get_leaf());
    assert_eq!(Some((&"b".repeat(700), 0)), cursor.next_leaf());
    assert_eq!(600, cursor.pos());
    assert_eq!(Some((&"a".repeat(600), 0)), cursor.prev_leaf());
    assert_eq!(0, cursor.pos());
    assert_eq!(None, cursor.prev_leaf());
    assert_eq!(None, cursor.get_leaf());
    cursor.set(1300);
    assert_eq!(Some((&"b".repeat(700), 700)), cursor.get_leaf());
    assert_eq!(None, cursor.next_leaf());
    assert_eq!(1300, cursor.pos());
    assert_eq!(None, cursor.next_grapheme());
    assert_eq!(None, cursor.prev_grapheme());
}

#[test]
fn edit_against_string() {
    let text = long_text();
    for (start, end, new) in [
        (0usize, 0usize, "x"),
        (0, text.len(), ""),
        (5, 5, "\u{1F4A9}"),
        (0, 1024, "short"),
        (text.len(), text.len(), "end\n"),
        (2000, 4100, text.as_str()),
    ] {
        let mut start = start;
        let mut end = end;
        while !text.is_char_boundary(start) {
            start -= 1;
        }
        while !text.is_char_boundary(end) {
            end -= 1;
        }
        let mut expected = text.clone();
        expected.replace_range(start..end, new);
        let mut rope = Rope::from(text.as_str());
        rope.edit_str(start, end, new);
        assert_eq!(expected, String::from(&rope));
        assert_eq!(expected.matches('\n').count(), rope.line_of_offset(expected.len()));
        let old = text[start..end].to_owned();
        rope.edit_str(start, start + new.len(), &old);
        assert_eq!(text, String::from(rope));
    }
}

#[test]
fn edits_merge() {
    let mut once = Rope::from("hello world");
    once.edit_str(2, 5, "y");
    let mut twice = Rope::from("hello world");
    twice.edit_str(2, 5, "llo,");
    twice.edit_str(2, 6, "y");
    assert_eq!("hey world", String::from(once));
    assert_eq!("hey world", String::from(twice));
}

#[test]
fn clones_are_independent() {
    let a = Rope::from("abc");
    let mut b = a.clone();
    b.edit_str(1, 2, "");
    assert_eq!("abc", String::from(a));
    assert_eq!("ac", String::from(b));
}

#[test]
fn concat_is_associative() {
    let (a, b, c) = ("a".repeat(700), long_text(), "c\n".repeat(300));
    let left = Rope::concat(Rope::concat(Rope::from(&a), Rope::from(&b)), Rope::from(&c));
    let right = Rope::concat(Rope::from(&a), Rope::concat(Rope::from(&b), Rope::from(&c)));
    assert_eq!(a.len() + b.len() + c.len(), left.len());
    assert_eq!(String::from(&left), String::from(&right));
    assert_eq!(700, left.line_of_offset(left.len()));
    let empty = Rope::concat(Rope::from(""), Rope::concat(Rope::from("x"), Rope::from("")));
    assert_eq!("x", String::from(empty));
}

#[test]
fn builder_joins_what_is_pushed() {
    let mut b = TreeBuilder::new();
    b.push_str("");
    b.push_str("ab");
    b.push(Rope::from("cd"));
    b.push_leaf("ef".to_owned());
    b.push_leaf_slice(&"xghx".to_owned(), rope::Interval::new(1, 3));
    assert_eq!("abcdefgh", String::from(b.build()));
    assert_eq!("", String::from(TreeBuilder::new().build()));
}

#[test]
fn many_pushes() {
    let mut b = TreeBuilder::new();
    let mut expected = String::new();
    for i in 0..2000usize {
        let piece = format!("{}\n", "x".repeat(i % 50));
        b.push_str(&piece);
        expected.push_str(&piece);
    }
    let rope = b.build();
    assert_eq!(expected, String::from(&rope));
    let start: usize = expected.match_indices('\n').nth(1233).unwrap().0 + 1;
    assert_eq!(start, rope.offset_of_line(1234));
    assert_eq!(1234, rope.line_of_offset(start));
    assert_eq!(2000, rope.line_of_offset(rope.len()));
}

#[test]
fn slices_join() {
    let text = long_text();
    let rope = Rope::from(text.as_str());
    let middle: usize = text.char_indices().nth(1500).unwrap().0;
    let head = rope.slice_to_string(0, middle);
    let tail = rope.slice_to_string(middle, text.len());
    assert_eq!(&text[..middle], head);
    assert_eq!(&text[middle..], tail);
    assert_eq!("", rope.slice_to_string(7, 7));
    assert_eq!("", rope.slice_to_string(9, 7));
    assert_eq!("", Rope::from("").slice_to_string(0, 0));
}

#[test]
fn shown_as_debug() {
    let rope = Rope::from("a\"b\n\u{4e00}");
    assert_eq!("a\"b\n\u{4e00}", rope.debug_text(true));
    assert_eq!("Rope(\"a\\\"b\\n\u{4e00}\")", rope.debug_text(false));
    assert_eq!("Rope(x)", rope::rope::debug_from_quoted("x"));
}

#[test]
fn graphemes_across_leaves() {
    let a = Rope::concat(
        Rope::from("a".repeat(600)),
        Rope::from("\u{030a}".repeat(300) + "b"),
    );
    assert_eq!(Some(599), a.next_grapheme_offset(598));
    assert_eq!(Some(1200), a.next_grapheme_offset(599));
    assert_eq!(Some(1201), a.next_grapheme_offset(1200));
    assert_eq!(Some(1200), a.prev_grapheme_offset(1201));
    assert_eq!(Some(599), a.prev_grapheme_offset(1200));
    assert_eq!(Some(599), a.prev_grapheme_offset(600));
}

#[test]
fn grapheme_longer_than_a_leaf() {
    let a = Rope::concat(
        Rope::from("a".repeat(600)),
        Rope::concat(Rope::from("\u{030a}".repeat(300)), Rope::from("\u{030a}".repeat(300))),
    );
    assert_eq!(Some(599), a.prev_grapheme_offset(1800));
    assert_eq!(Some(599), a.prev_grapheme_offset(1200));
    assert_eq!(Some(598), a.prev_grapheme_offset(599));
}

#[test]
fn graphemes_in_one_leaf_are_those_of_the_segmenter() {
    let text = "e\u{0301}\r\n\u{1f468}\u{200d}\u{1f469}x";
    let rope = Rope::from(text);
    let mut c = unicode_segmentation::GraphemeCursor::new(0, text.len(), true);
    let mut at: usize = 0;
    while let Ok(Some(next)) = c.next_boundary(text, 0) {
        assert_eq!(Some(next), rope.next_grapheme_offset(at));
        assert_eq!(Some(at), rope.prev_grapheme_offset(next));
        at = next;
    }
    assert_eq!(text.len(), at);
}

#[test]
fn graphemes_of_one_leaf_end_with_the_text() {
    let text = "\u{0915}\u{094d}\u{0915}a\u{1f1fa}\u{1f1f8}\u{1f1fa}";
    let rope = Rope::from(text);
    for (i, _) in text.char_indices() {
        assert!(rope.next_grapheme_offset(i).is_some());
        assert_eq!(i == 0, rope.prev_grapheme_offset(i).is_none());
    }
    assert_eq!(None, rope.next_grapheme_offset(text.len()));
    assert_eq!(Some(18), rope.prev_grapheme_offset(text.len()));
    assert_eq!(None, Rope::from("").next_grapheme_offset(0));
    assert_eq!(None, Rope::from("").prev_grapheme_offset(0));
}

#[test]
fn graphemes_of_the_first_leaf() {
    let head = "a".repeat(597) + "\u{0915}";
    let rope = Rope::concat(
        Rope::from(head),
        Rope::from("\u{094d}\u{0915}".to_owned() + &"b".repeat(600)),
    );
    assert_eq!(Some(597), rope.prev_grapheme_offset(600));
    assert_eq!(Some(596), rope.prev_grapheme_offset(597));
    assert_eq!(Some(597), rope.next_grapheme_offset(596));
    assert_eq!(None, rope.next_grapheme_offset(597));
}
