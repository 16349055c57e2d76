use site_stats::line::Line;
use site_stats::processed_sites::{process_partitions, ProcessedSites};
use site_stats::ranking::get_chatty;
use site_stats::site::Site;
use site_stats::tag::Tag;

fn site_of<'a>(sites: &'a [(String, Site)], name: &str) -> Option<&'a Site> {
    sites.iter().find(|p| p.0 == name).map(|p| &p.1)
}

fn tag_of<'a>(tags: &'a [(String, Tag)], name: &str) -> Option<&'a Tag> {
    tags.iter().find(|p| p.0 == name).map(|p| &p.1)
}

fn total_of<'a>(totals: &'a [(String, Vec<String>)], name: &str) -> Option<&'a Vec<String>> {
    totals.iter().find(|p| p.0 == name).map(|p| &p.1)
}

#[test]
fn ranking_breaks_ties_by_key_order() {
    // ratios: a 2.0, b 2.0, c 3.0: c first, then a before b
    let items = vec![
        ("b".to_string(), Tag::new(2, 4)),
        ("a".to_string(), Tag::new(1, 2)),
        ("c".to_string(), Tag::new(1, 3)),
    ];
    let ranked = get_chatty(items);
    assert_eq!(
        ranked,
        vec!["c".to_string(), "a".to_string(), "b".to_string()]
    );
}

#[test]
fn ranking_is_bounded_to_ten() {
    // fifteen keys with strictly decreasing ratios
    let mut items: Vec<(String, Tag)> = Vec::new();
    for i in 0..15usize {
        items.push((format!("k{:02}", i + 1), Tag::new(1, 100 - i)));
    }
    let ranked = get_chatty(items);
    let expected: Vec<String> = (0..10usize).map(|i| format!("k{:02}", i + 1)).collect();
    assert_eq!(ranked, expected);
}

#[test]
fn ranking_ignores_input_order() {
    let forward = vec![
        ("a".to_string(), Tag::new(1, 2)),
        ("b".to_string(), Tag::new(2, 4)),
        ("c".to_string(), Tag::new(1, 3)),
    ];
    let mut backward = forward.clone();
    backward.reverse();
    assert_eq!(get_chatty(forward), get_chatty(backward));
}

#[test]
fn end_to_end_two_partitions() {
    let partitions = vec![
        (
            "siteA".to_string(),
            vec![Line::new(
                vec!["hello world".to_string()],
                vec!["t1".to_string()],
            )],
        ),
        (
            "siteB".to_string(),
            vec![Line::new(
                vec!["a".to_string()],
                vec!["t1".to_string(), "t2".to_string()],
            )],
        ),
    ];
    let mut report: ProcessedSites =
        process_partitions("106160".to_string(), &partitions).unwrap();

    let site_a = site_of(&report.sites, "siteA").unwrap();
    assert_eq!(site_a.questions, 1);
    assert_eq!(site_a.words, 2);
    assert_eq!(tag_of(&site_a.tags, "t1").unwrap().questions, 1);
    assert_eq!(tag_of(&site_a.tags, "t1").unwrap().words, 2);

    let site_b = site_of(&report.sites, "siteB").unwrap();
    assert_eq!(site_b.questions, 1);
    assert_eq!(site_b.words, 1);
    assert_eq!(tag_of(&site_b.tags, "t1").unwrap().questions, 1);
    assert_eq!(tag_of(&site_b.tags, "t1").unwrap().words, 1);
    assert_eq!(tag_of(&site_b.tags, "t2").unwrap().questions, 1);
    assert_eq!(tag_of(&site_b.tags, "t2").unwrap().words, 1);

    assert_eq!(tag_of(&report.tags, "t1").unwrap().questions, 2);
    assert_eq!(tag_of(&report.tags, "t1").unwrap().words, 3);
    assert_eq!(tag_of(&report.tags, "t2").unwrap().questions, 1);
    assert_eq!(tag_of(&report.tags, "t2").unwrap().words, 1);

    report.process_chatty();

    // ratio 2.0 for siteA against 1.0 for siteB
    assert_eq!(
        *total_of(&report.totals, "chatty_sites").unwrap(),
        vec!["siteA".to_string(), "siteB".to_string()]
    );
    assert_eq!(
        *total_of(&report.totals, "chatty_tags").unwrap(),
        vec!["t1".to_string(), "t2".to_string()]
    );
    assert_eq!(report.padron, "106160".to_string());
}

#[test]
fn partitions_of_one_source_merge_by_name() {
    let partitions = vec![
        (
            "s".to_string(),
            vec![Line::new(vec!["one two".to_string()], vec!["t".to_string()])],
        ),
        (
            "s".to_string(),
            vec![Line::new(vec!["three".to_string()], vec!["t".to_string()])],
        ),
    ];
    let report = process_partitions("106160".to_string(), &partitions).unwrap();
    assert_eq!(report.sites.len(), 1);
    let s = site_of(&report.sites, "s").unwrap();
    assert_eq!(s.questions, 2);
    assert_eq!(s.words, 3);
    assert_eq!(tag_of(&report.tags, "t").unwrap().questions, 2);
    assert_eq!(tag_of(&report.tags, "t").unwrap().words, 3);
}

#[test]
fn same_totals_whatever_the_partition_order() {
    let a = || {
        (
            "s1".to_string(),
            vec![Line::new(
                vec!["one two three".to_string()],
                vec!["t1".to_string()],
            )],
        )
    };
    let b = || {
        (
            "s2".to_string(),
            vec![Line::new(
                vec!["four five".to_string()],
                vec!["t1".to_string(), "t2".to_string()],
            )],
        )
    };
    let c = || {
        (
            "s1".to_string(),
            vec![Line::new(vec!["six".to_string()], vec!["t2".to_string()])],
        )
    };

    let one = process_partitions("106160".to_string(), &vec![a(), b(), c()]).unwrap();
    let two = process_partitions("106160".to_string(), &vec![c(), a(), b()]).unwrap();

    for (name, site) in one.sites.iter() {
        let other = site_of(&two.sites, name).unwrap();
        assert_eq!(site.questions, other.questions);
        assert_eq!(site.words, other.words);
        for (tn, tv) in site.tags.iter() {
            let ot = tag_of(&other.tags, tn).unwrap();
            assert_eq!(tv.questions, ot.questions);
            assert_eq!(tv.words, ot.words);
        }
    }
    assert_eq!(one.sites.len(), two.sites.len());
    for (name, tag) in one.tags.iter() {
        let other = tag_of(&two.tags, name).unwrap();
        assert_eq!(tag.questions, other.questions);
        assert_eq!(tag.words, other.words);
    }
    assert_eq!(one.tags.len(), two.tags.len());
}

#[test]
fn empty_partition_list_gives_empty_report() {
    let report = process_partitions("106160".to_string(), &vec![]).unwrap();
    assert!(report.sites.is_empty());
    assert!(report.tags.is_empty());
    assert!(report.totals.is_empty());
}
