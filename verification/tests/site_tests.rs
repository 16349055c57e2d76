use site_stats::line::Line;
use site_stats::site::Site;
use site_stats::tag::Tag;

fn tag_of<'a>(tags: &'a [(String, Tag)], name: &str) -> Option<&'a Tag> {
    tags.iter().find(|p| p.0 == name).map(|p| &p.1)
}

#[test]
fn create_site_correctly() {
    let site = Site::new(
        2,
        10,
        vec![("tag_1".to_string(), Tag::new(2, 10))],
        vec!["chatty_1".to_string()],
    );

    assert_eq!(site.questions, 2);
    assert_eq!(site.words, 10);
    assert!(tag_of(&site.tags, "tag_1").is_some());
    assert_eq!(tag_of(&site.tags, "tag_1").unwrap().questions, 2);
    assert_eq!(tag_of(&site.tags, "tag_1").unwrap().words, 10);
    assert_eq!(site.chatty_tags[0], "chatty_1".to_string());
}

#[test]
fn add_sites_in_place() {
    let mut site1 = Site::new(
        2,
        10,
        vec![("tag_1".to_string(), Tag::new(2, 10))],
        vec!["chatty_1".to_string()],
    );
    let site2 = Site::new(
        1,
        5,
        vec![("tag_2".to_string(), Tag::new(1, 5))],
        vec!["chatty_2".to_string()],
    );
    site1.add(&site2);

    // words and questions were added into site 1
    assert_eq!(site1.questions, 3);
    assert_eq!(site1.words, 15);
    assert!(tag_of(&site1.tags, "tag_1").is_some());
    assert!(tag_of(&site1.tags, "tag_2").is_some());
    assert_eq!(tag_of(&site1.tags, "tag_1").unwrap().questions, 2);
    assert_eq!(tag_of(&site1.tags, "tag_1").unwrap().words, 10);
    assert_eq!(tag_of(&site1.tags, "tag_2").unwrap().questions, 1);
    assert_eq!(tag_of(&site1.tags, "tag_2").unwrap().words, 5);
    assert_eq!(site1.chatty_tags[0], "chatty_1".to_string());

    // site 2 was not changed
    assert_eq!(site2.questions, 1);
    assert_eq!(site2.words, 5);
    assert!(tag_of(&site2.tags, "tag_2").is_some());
    assert_eq!(tag_of(&site2.tags, "tag_2").unwrap().questions, 1);
    assert_eq!(tag_of(&site2.tags, "tag_2").unwrap().words, 5);
}

#[test]
fn word_count_spans_text_boundaries() {
    // two texts of two and one words: three words in all
    let line = Line::new(vec!["a b".to_string(), "c".to_string()], vec![]);
    let site = Site::from_line(&line);
    assert_eq!(site.questions, 1);
    assert_eq!(site.words, 3);
}

#[test]
fn word_count_collapses_whitespace_runs() {
    let line = Line::new(vec!["a  b ".to_string(), " c".to_string()], vec![]);
    let site = Site::from_line(&line);
    assert_eq!(site.words, 3);
}

#[test]
fn tag_counts_are_not_divided_between_tags() {
    // ten words and two tags: each tag is attributed all ten words
    let line = Line::new(
        vec!["w1 w2 w3 w4 w5 w6 w7 w8 w9 w10".to_string()],
        vec!["x".to_string(), "y".to_string()],
    );
    let site = Site::from_line(&line);
    assert_eq!(site.words, 10);
    assert_eq!(tag_of(&site.tags, "x").unwrap().words, 10);
    assert_eq!(tag_of(&site.tags, "x").unwrap().questions, 1);
    assert_eq!(tag_of(&site.tags, "y").unwrap().words, 10);
    assert_eq!(tag_of(&site.tags, "y").unwrap().questions, 1);
}

#[test]
fn tag_word_counts_add_when_records_merge() {
    // two records of the same tag with ten and five words
    let one = Line::new(
        vec!["w1 w2 w3 w4 w5 w6 w7 w8 w9 w10".to_string()],
        vec!["t".to_string()],
    );
    let two = Line::new(vec!["v1 v2 v3 v4 v5".to_string()], vec!["t".to_string()]);
    let folded = Site::fold_lines(&vec![one, two]).unwrap();
    assert_eq!(folded.questions, 2);
    assert_eq!(folded.words, 15);
    assert_eq!(tag_of(&folded.tags, "t").unwrap().questions, 2);
    assert_eq!(tag_of(&folded.tags, "t").unwrap().words, 15);
}

#[test]
fn fold_of_no_lines_is_the_identity_aggregate() {
    let folded = Site::fold_lines(&vec![]).unwrap();
    assert_eq!(folded.questions, 0);
    assert_eq!(folded.words, 0);
    assert!(folded.tags.is_empty());
    assert!(folded.chatty_tags.is_empty());
}

#[test]
fn duplicate_tags_on_one_record_count_once() {
    let line = Line::new(
        vec!["one two".to_string()],
        vec!["t".to_string(), "t".to_string()],
    );
    let site = Site::from_line(&line);
    assert_eq!(site.tags.len(), 1);
    assert_eq!(tag_of(&site.tags, "t").unwrap().questions, 1);
    assert_eq!(tag_of(&site.tags, "t").unwrap().words, 2);
}
