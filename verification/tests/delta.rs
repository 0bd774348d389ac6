use rope::delta::{PlainDelta, PlainElement};
use rope::{Rope, RopeDelta, RopeDeltaElement};

#[test]
fn plain_delta_and_back() {
    let plain = PlainDelta {
        els: vec![
            PlainElement::Copy(0, 3),
            PlainElement::Insert("a\u{4e00}".to_owned()),
            PlainElement::Copy(5, 9),
        ],
        base_len: 9,
    };
    let delta = RopeDelta::from(plain);
    assert_eq!(9, delta.base_len);
    assert_eq!(3, delta.els.len());
    assert!(matches!(delta.els[0], RopeDeltaElement::Copy(0, 3)));
    assert!(
        matches!(&delta.els[1], RopeDeltaElement::Insert(r) if String::from(r) == "a\u{4e00}")
    );
    assert!(matches!(delta.els[2], RopeDeltaElement::Copy(5, 9)));
    let back = PlainDelta::from(&delta);
    assert_eq!(9, back.base_len);
    assert_eq!(3, back.els.len());
    assert!(matches!(back.els[0], PlainElement::Copy(0, 3)));
    assert!(matches!(&back.els[1], PlainElement::Insert(s) if s == "a\u{4e00}"));
    assert!(matches!(back.els[2], PlainElement::Copy(5, 9)));
}

#[test]
fn plain_element_of_a_long_rope() {
    let text = "abc\n".repeat(1000);
    let el = PlainElement::from(&RopeDeltaElement::Insert(Rope::from(text.as_str())));
    assert!(matches!(&el, PlainElement::Insert(s) if *s == text));
    let back = RopeDeltaElement::from(&el);
    assert!(matches!(&back, RopeDeltaElement::Insert(r) if String::from(r) == text));
}

#[test]
fn inserted_ropes_are_cut_in_bulk() {
    let plain = PlainDelta {
        els: vec![PlainElement::Insert("a".repeat(1500)), PlainElement::Copy(0, 1)],
        base_len: 1,
    };
    let delta = RopeDelta::from(plain);
    if let RopeDeltaElement::Insert(rope) = &delta.els[0] {
        let mut chunks = rope.iter_chunks(0, 1500);
        assert_eq!(Some(989), chunks.next().map(|c| c.len()));
        assert_eq!(Some(511), chunks.next().map(|c| c.len()));
        assert_eq!(None, chunks.next());
    } else {
        panic!("no rope inserted");
    }
}
