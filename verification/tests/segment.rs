use iot_hub::segment::{Segment, convert_segments, split_channel};

#[test]
fn split_keeps_empty_tokens() {
    let tokens = split_channel("a..b");
    assert_eq!(
        tokens,
        vec![String::from("a"), String::from(""), String::from("b")]
    );
    assert_eq!(split_channel(""), vec![String::from("")]);
    assert_eq!(
        split_channel("x."),
        vec![String::from("x"), String::from("")]
    );
}

#[test]
fn tokens_are_classified_by_kind() {
    let segs = convert_segments("a.*.>");
    assert_eq!(3, segs.len());
    assert!(matches!(&segs[0], Segment::Normal(t) if t == "a"));
    assert!(matches!(&segs[1], Segment::Asterisk));
    assert!(matches!(&segs[2], Segment::Greater));
}

#[test]
fn segments_match_published_tokens() {
    let star = Segment::Asterisk;
    let gt = Segment::Greater;
    let lit = Segment::Normal(String::from("floor1"));
    assert!(star.matched(&String::from("anything")));
    assert!(gt.matched(&String::from("anything")));
    assert!(lit.matched(&String::from("floor1")));
    assert!(!lit.matched(&String::from("floor2")));
}
