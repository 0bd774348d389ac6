use rope::lines::{cow_append, trim_ending};
use rope::{ChunkIter, Lines, LinesRaw, Rope};
use std::borrow::Cow;

fn chunks(mut it: ChunkIter<'_>) -> Vec<String> {
    let mut all = Vec::new();
    while let Some(chunk) = it.next() {
        all.push(chunk.to_owned());
    }
    all
}

fn raw_lines(mut it: LinesRaw<'_>) -> Vec<String> {
    let mut all = Vec::new();
    while let Some(line) = it.next() {
        all.push(line.into_owned());
    }
    all
}

fn lines(mut it: Lines<'_>) -> Vec<String> {
    let mut all = Vec::new();
    while let Some(line) = it.next() {
        all.push(line.into_owned());
    }
    all
}

fn all_lines(text: &str) -> Vec<String> {
    lines(Rope::from(text).lines(0, text.len()))
}

#[test]
fn chunks_of_a_long_text() {
    let rope = Rope::from("a".repeat(3000));
    let all = chunks(rope.iter_chunks(0, 3000));
    assert_eq!(vec![1024, 1024, 952], all.iter().map(|c| c.len()).collect::<Vec<usize>>());
    let some = chunks(rope.iter_chunks(1000, 2500));
    assert_eq!(vec![24, 1024, 452], some.iter().map(|c| c.len()).collect::<Vec<usize>>());
    assert_eq!(vec!["a".repeat(24)], chunks(rope.iter_chunks(1000, 1024)));
    assert!(chunks(rope.iter_chunks(1000, 1000)).is_empty());
    assert!(chunks(rope.iter_chunks(2000, 1000)).is_empty());
}

#[test]
fn leaves_of_joined_ropes() {
    let lens = |rope: &Rope| {
        chunks(rope.iter_chunks(0, rope.len())).iter().map(|c| c.len()).collect::<Vec<usize>>()
    };
    let join = |a: usize, b: usize| {
        lens(&Rope::concat(Rope::from("a".repeat(a)), Rope::from("b".repeat(b))))
    };
    assert_eq!(vec![600, 511], join(600, 511));
    assert_eq!(vec![700], join(100, 600));
    assert_eq!(vec![1020], join(510, 510));
    assert_eq!(vec![589, 511], join(100, 1000));
    assert_eq!(vec![1024, 1024, 962], join(3000, 10));
    let mut rope = Rope::from("a".repeat(3000));
    rope.edit_str(1000, 1000, "x");
    assert_eq!(vec![514, 511, 1024, 952], lens(&rope));
}

#[test]
fn the_empty_rope_has_one_empty_chunk() {
    assert_eq!(vec![""], chunks(Rope::from("").iter_chunks(0, 0)));
}

#[test]
fn chunks_join_and_are_nonempty() {
    let text = "\u{4e00}x\n".repeat(2000);
    let rope = Rope::from(text.as_str());
    let all = chunks(rope.iter_chunks(0, text.len()));
    assert_eq!(text, all.concat());
    for (i, chunk) in all.iter().enumerate() {
        assert!(!chunk.is_empty());
        assert!(chunk.len() <= 1024);
        assert!(i == 0 || i + 1 == all.len() || chunk.len() >= 511);
    }
}

#[test]
fn raw_lines_keep_their_endings() {
    let rope = Rope::from("a\r\n\nb\nc");
    assert_eq!(vec!["a\r\n", "\n", "b\n", "c"], raw_lines(rope.lines_raw(0, 7)));
    assert_eq!(vec!["\n", "b\n"], raw_lines(rope.lines_raw(3, 6)));
    assert!(raw_lines(rope.lines_raw(4, 4)).is_empty());
    assert!(raw_lines(Rope::from("").lines_raw(0, 0)).is_empty());
    assert_eq!(vec!["\n"], raw_lines(Rope::from("\n").lines_raw(0, 1)));
}

#[test]
fn lines_match_those_of_str() {
    for text in [
        "",
        "\n",
        "\r\n",
        "a",
        "a\n",
        "a\r",
        "a\r\n",
        "a\n\nb",
        "a\r\r\nb\n\r",
        "\u{4e00}\r\n\u{1F4A9}\n",
    ] {
        assert_eq!(text.lines().collect::<Vec<&str>>(), all_lines(text));
    }
    let long = "one\r\ntwo\n\nthree \u{4e00}\n".repeat(500);
    assert_eq!(long.lines().collect::<Vec<&str>>(), all_lines(&long));
}

#[test]
fn raw_lines_join_and_end_with_newline() {
    let text = "one\r\ntwo\n\nthree \u{4e00}\n".repeat(500) + "last";
    let rope = Rope::from(text.as_str());
    let all = raw_lines(rope.lines_raw(0, text.len()));
    assert_eq!(text, all.concat());
    assert_eq!(2001, all.len());
    assert_eq!(2000, rope.line_of_offset(text.len()));
    let mut start: usize = 0;
    for (k, line) in all.iter().enumerate() {
        assert_eq!(start, rope.offset_of_line(k));
        assert_eq!(k, rope.line_of_offset(start));
        assert_eq!(k + 1 < all.len(), line.ends_with('\n'));
        start += line.len();
    }
}

#[test]
fn final_line_ending_is_optional() {
    assert_eq!(all_lines("a\nb"), all_lines("a\nb\n"));
    assert_eq!(vec!["a", "b"], all_lines("a\nb\n"));
    assert_eq!(vec!["a\r"], all_lines("a\r"));
    assert_eq!(vec!["a"], all_lines("a\r\n"));
}

#[test]
fn lines_in_one_piece_are_borrowed() {
    let text = "a".repeat(1000) + "\n" + &"b".repeat(2000) + "\nc";
    let rope = Rope::from(text.as_str());
    let mut raw = rope.lines_raw(0, text.len());
    assert!(matches!(raw.next(), Some(Cow::Borrowed(s)) if s.len() == 1001));
    assert!(matches!(raw.next(), Some(Cow::Owned(s)) if s.len() == 2001));
    assert!(matches!(raw.next(), Some(Cow::Borrowed("c"))));
    assert!(raw.next().is_none());
    assert!(raw.next().is_none());
    let mut it = rope.lines(0, text.len());
    assert!(matches!(it.next(), Some(Cow::Borrowed(s)) if s.len() == 1000));
    assert!(matches!(it.next(), Some(Cow::Owned(s)) if s.len() == 2000));
    assert!(matches!(it.next(), Some(Cow::Borrowed("c"))));
    assert!(it.next().is_none());
}

#[test]
fn line_numbers() {
    let rope = Rope::from("a\nb\n\u{4e00}");
    assert_eq!(0, rope.line_of_offset(0));
    assert_eq!(0, rope.line_of_offset(1));
    assert_eq!(1, rope.line_of_offset(2));
    assert_eq!(2, rope.line_of_offset(4));
    assert_eq!(2, rope.line_of_offset(7));
    assert_eq!(0, rope.offset_of_line(0));
    assert_eq!(2, rope.offset_of_line(1));
    assert_eq!(4, rope.offset_of_line(2));
    assert_eq!(7, rope.offset_of_line(3));
    assert_eq!(7, rope.offset_of_line(100));
    assert_eq!(2, Rope::from("a\n").offset_of_line(1));
    assert_eq!(0, Rope::from("").offset_of_line(0));
    assert_eq!(0, Rope::from("").offset_of_line(1));
}

#[test]
fn line_of_every_offset() {
    let text = "one\r\ntwo\n\nthree\n".repeat(300);
    let rope = Rope::from(text.as_str());
    for offset in 0..text.len() + 1 {
        let line: usize = text.as_bytes()[..offset].iter().filter(|b| **b == b'\n').count();
        assert_eq!(line, rope.line_of_offset(offset));
        assert!(rope.offset_of_line(line) <= offset);
        if line < 1200 {
            assert!(rope.offset_of_line(line + 1) > offset);
        }
    }
}

#[test]
fn appending_to_a_cow() {
    assert!(matches!(cow_append(Cow::from(""), "b"), Cow::Borrowed("b")));
    assert!(matches!(cow_append(Cow::from(String::new()), "b"), Cow::Borrowed("b")));
    assert!(matches!(cow_append(Cow::from("a"), "b"), Cow::Owned(s) if s == "ab"));
    assert!(matches!(cow_append(Cow::from("a".to_owned()), ""), Cow::Owned(s) if s == "a"));
}

#[test]
fn trimming_an_ending() {
    assert_eq!("a", trim_ending("a\n"));
    assert_eq!("a", trim_ending("a\r\n"));
    assert_eq!("a\r", trim_ending("a\r\r\n"));
    assert_eq!("a\r", trim_ending("a\r"));
    assert_eq!("", trim_ending("\r\n"));
    assert_eq!("", trim_ending(""));
}

#[test]
fn later_lines_are_borrowed_where_they_lie_in_one_leaf() {
    let text = "x".repeat(99) + "\n";
    let text = text.repeat(40);
    let rope = Rope::from(text.as_str());
    let mut ends = Vec::new();
    let mut end: usize = 0;
    for chunk in chunks(rope.iter_chunks(0, text.len())) {
        end += chunk.len();
        ends.push(end);
    }
    let mut it = rope.lines_raw(50, text.len());
    let mut start: usize = 50;
    while let Some(line) = it.next() {
        let stop: usize = start + line.len();
        let leaf_end: usize = *ends.iter().find(|e| **e > start).unwrap();
        assert_eq!(stop <= leaf_end, matches!(line, Cow::Borrowed(_)));
        start = stop;
        let left = chunks(rope.iter_chunks(start, text.len()));
        assert_eq!(&text[start..], left.concat());
    }
}
