use site_stats::tag::Tag;

#[test]
fn create_tag_correctly() {
    let tag = Tag::new(2, 10);
    assert_eq!(tag.questions, 2);
    assert_eq!(tag.words, 10);
}

#[test]
fn add_tags_in_place() {
    let mut tag1 = Tag::new(2, 10);
    let tag2 = Tag::new(1, 5);
    tag1.add(&tag2);

    assert_eq!(tag1.questions, 3);
    assert_eq!(tag1.words, 15);

    assert_eq!(tag2.questions, 1);
    assert_eq!(tag2.words, 5);
}

#[test]
fn add_assign_method_for_tags() {
    let mut tag1 = Tag::new(2, 10);
    let tag2 = Tag::new(1, 5);
    tag1.add_assign(tag2);

    assert_eq!(tag1.questions, 3);
    assert_eq!(tag1.words, 15);

    assert_eq!(tag2.questions, 1);
    assert_eq!(tag2.words, 5);
}

#[test]
fn can_add_detects_overflow() {
    let big = Tag::new(usize::MAX, 1);
    let one = Tag::new(1, 1);
    assert!(!big.can_add(&one));
    assert!(one.can_add(&Tag::new(2, 3)));
}
