use rope::interval::Interval;
use rope::leaf::{
    find_leaf_split, find_leaf_split_for_bulk, find_leaf_split_for_merge, str_slice, Leaf,
};
use rope::metric::{BaseMetric, LinesMetric, Metric, RopeInfo};
use rope::scan::{count_newlines, last_newline};

#[test]
fn split_for_bulk() {
    assert_eq!(1024, find_leaf_split_for_bulk(&"a".repeat(3000)));
    assert_eq!(689, find_leaf_split_for_bulk(&"a".repeat(1200)));
    let newline = "a".repeat(600) + "\n" + &"a".repeat(1000);
    assert_eq!(601, find_leaf_split_for_bulk(&newline));
    let early = "a".repeat(509) + "\n" + &"a".repeat(1000);
    assert_eq!(999, find_leaf_split_for_bulk(&early));
    let least = "a".repeat(510) + "\n" + &"a".repeat(1000);
    assert_eq!(511, find_leaf_split_for_bulk(&least));
    let late = "a".repeat(1023) + "\n" + &"a".repeat(1000);
    assert_eq!(1024, find_leaf_split_for_bulk(&late));
    assert_eq!(1023, find_leaf_split_for_bulk(&("a".to_owned() + &"\u{e9}".repeat(800))));
    assert_eq!(1021, find_leaf_split_for_bulk(&("a".to_owned() + &"\u{1F4A9}".repeat(400))));
}

#[test]
fn split_for_merge() {
    assert_eq!(689, find_leaf_split_for_merge(&"a".repeat(1200)));
    assert_eq!(1024, find_leaf_split_for_merge(&"a".repeat(1800)));
    let newline = "a".repeat(775) + "\n" + &"a".repeat(1024);
    assert_eq!(776, find_leaf_split_for_merge(&newline));
    let early = "a".repeat(774) + "\n" + &"a".repeat(1025);
    assert_eq!(1024, find_leaf_split_for_merge(&early));
    assert_eq!(2, find_leaf_split(&("a\n".to_owned() + &"b".repeat(511)), 1));
}

#[test]
fn pushing_onto_a_leaf() {
    let mut leaf = "a".repeat(1000);
    let other = "b".repeat(600);
    assert_eq!(None, leaf.push_maybe_split(&other, Interval::new(10, 34)));
    assert_eq!("a".repeat(1000) + &"b".repeat(24), leaf);
    let mut leaf = "a".repeat(1000);
    let rest = leaf.push_maybe_split(&other, Interval::new(0, 600));
    assert_eq!("a".repeat(1000) + &"b".repeat(24), leaf);
    assert_eq!(Some("b".repeat(576)), rest);
    assert_eq!(1024, Leaf::len(&leaf));
    assert!(leaf.is_ok_child());
    assert!("a".repeat(511).is_ok_child());
    assert!(!"a".repeat(510).is_ok_child());
}

#[test]
fn slicing() {
    assert_eq!("\u{4e00}", str_slice("a\u{4e00}b", 1, 4));
    assert_eq!("", str_slice("a\u{4e00}b", 4, 4));
}

#[test]
fn counting_and_searching() {
    assert_eq!(0, count_newlines(""));
    assert_eq!(3, count_newlines("\na\n\r\n"));
    assert_eq!(100, count_newlines(&"ab\n".repeat(100)));
    assert_eq!(Some(3), last_newline(b"a\nb\nc", 0, 5));
    assert_eq!(Some(1), last_newline(b"a\nb\nc", 0, 3));
    assert_eq!(None, last_newline(b"a\nb\nc", 2, 3));
}

#[test]
fn intervals() {
    let iv = Interval::new(2, 7);
    assert_eq!((2, 7), iv.start_end());
    assert!(!iv.is_empty());
    assert!(Interval::new(3, 3).is_empty());
    assert_eq!(Interval::new(2, 4), iv.prefix(Interval::new(4, 5)));
    assert_eq!(Interval::new(5, 7), iv.suffix(Interval::new(4, 5)));
    assert_eq!(Interval::new(2, 7), iv.prefix(Interval::new(9, 9)));
    assert_eq!(Interval::new(2, 7), iv.suffix(Interval::new(0, 1)));
}

#[test]
fn summaries_add_up() {
    let mut info = RopeInfo::identity();
    assert_eq!(0, <LinesMetric as Metric>::measure(&info, 9));
    info.accumulate(&RopeInfo::compute_info(&"a\nb\n".to_owned()));
    info.accumulate(&RopeInfo::compute_info(&"c\n".to_owned()));
    assert_eq!(3, <LinesMetric as Metric>::measure(&info, 9));
    assert_eq!(9, <BaseMetric as Metric>::measure(&info, 9));
    assert_eq!(3, <LinesMetric as Metric>::measure(&info, 1));
    assert_eq!(1, <BaseMetric as Metric>::measure(&info, 1));
}

#[test]
fn base_metric() {
    let s = "a\u{4e00}b".to_owned();
    assert_eq!(2, <BaseMetric as Metric>::to_base_units(&s, 2));
    assert_eq!(2, <BaseMetric as Metric>::from_base_units(&s, 2));
    assert!(<BaseMetric as Metric>::is_boundary(&s, 1));
    assert!(!<BaseMetric as Metric>::is_boundary(&s, 2));
    assert_eq!(Some(1), <BaseMetric as Metric>::prev(&s, 4));
    assert_eq!(None, <BaseMetric as Metric>::prev(&s, 0));
    assert_eq!(Some(4), <BaseMetric as Metric>::next(&s, 1));
    assert_eq!(None, <BaseMetric as Metric>::next(&s, 5));
    assert!(!<BaseMetric as Metric>::can_fragment());
}

#[test]
fn line_metric() {
    let s = "a\nbc\nd".to_owned();
    assert_eq!(0, <LinesMetric as Metric>::to_base_units(&s, 0));
    assert_eq!(2, <LinesMetric as Metric>::to_base_units(&s, 1));
    assert_eq!(5, <LinesMetric as Metric>::to_base_units(&s, 2));
    assert_eq!(1, <LinesMetric as Metric>::from_base_units(&s, 4));
    assert_eq!(2, <LinesMetric as Metric>::from_base_units(&s, 5));
    assert!(!<LinesMetric as Metric>::is_boundary(&s, 0));
    assert!(!<LinesMetric as Metric>::is_boundary(&s, 1));
    assert!(<LinesMetric as Metric>::is_boundary(&s, 2));
    assert_eq!(Some(2), <LinesMetric as Metric>::prev(&s, 4));
    assert_eq!(Some(5), <LinesMetric as Metric>::prev(&s, 5));
    assert_eq!(None, <LinesMetric as Metric>::prev(&s, 1));
    assert_eq!(Some(5), <LinesMetric as Metric>::next(&s, 2));
    assert_eq!(None, <LinesMetric as Metric>::next(&s, 5));
    assert!(<LinesMetric as Metric>::can_fragment());
}

#[test]
fn width_of_a_codepoint() {
    assert_eq!(1, rope::len_utf8_from_first_byte(b'a'));
    assert_eq!(1, rope::len_utf8_from_first_byte(0x7f));
    assert_eq!(2, rope::len_utf8_from_first_byte(0xc3));
    assert_eq!(2, rope::len_utf8_from_first_byte(0xdf));
    assert_eq!(3, rope::len_utf8_from_first_byte(0xe0));
    assert_eq!(3, rope::len_utf8_from_first_byte(0xef));
    assert_eq!(4, rope::len_utf8_from_first_byte(0xf0));
    assert_eq!(4, rope::len_utf8_from_first_byte(0xff));
}

#[test]
fn base_metric_steps_back() {
    let s = "a\u{a1}\u{4e00}\u{1F4A9}".to_owned();
    for (i, _) in s.char_indices() {
        let next: usize = <BaseMetric as Metric>::next(&s, i).unwrap();
        assert_eq!(Some(i), <BaseMetric as Metric>::prev(&s, next));
    }
    assert_eq!(Some(4), <BaseMetric as Metric>::next(&s, 2));
}
