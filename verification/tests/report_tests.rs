use site_stats::processed_sites::ProcessedSites;
use site_stats::site::Site;
use site_stats::tag::Tag;

fn site_of<'a>(sites: &'a [(String, Site)], name: &str) -> Option<&'a Site> {
    sites.iter().find(|p| p.0 == name).map(|p| &p.1)
}

fn tag_of<'a>(tags: &'a [(String, Tag)], name: &str) -> Option<&'a Tag> {
    tags.iter().find(|p| p.0 == name).map(|p| &p.1)
}

fn total_of<'a>(totals: &'a [(String, Vec<String>)], name: &str) -> Option<&'a Vec<String>> {
    totals.iter().find(|p| p.0 == name).map(|p| &p.1)
}

#[test]
fn create_processed_sites_correctly() {
    let site1 = Site::new(
        2,
        10,
        vec![("tag1".to_string(), Tag::new(2, 10))],
        vec!["chatty_1".to_string()],
    );
    let sites = vec![("site1".to_string(), site1)];

    let tag1 = Tag::new(2, 10);
    let tags = vec![("tag1".to_string(), tag1)];

    let totals = vec![
        ("chatty_sites".to_string(), vec!["site1".to_string()]),
        ("chatty_tags".to_string(), vec!["tag1".to_string()]),
    ];

    let processed_sites = ProcessedSites::new("106160".to_string(), sites, tags, totals);

    assert_eq!(site_of(&processed_sites.sites, "site1").unwrap().questions, 2);
    assert_eq!(site_of(&processed_sites.sites, "site1").unwrap().words, 10);
    assert_eq!(tag_of(&processed_sites.tags, "tag1").unwrap().questions, 2);
    assert_eq!(tag_of(&processed_sites.tags, "tag1").unwrap().words, 10);
    assert_eq!(
        total_of(&processed_sites.totals, "chatty_sites").unwrap()[0],
        "site1".to_string()
    );
    assert_eq!(
        total_of(&processed_sites.totals, "chatty_tags").unwrap()[0],
        "tag1".to_string()
    );
}

#[test]
fn process_chatty_correctly() {
    let site1 = Site::new(
        2,
        10,
        vec![
            ("tag1".to_string(), Tag::new(2, 10)),
            ("tag2".to_string(), Tag::new(1, 25)),
        ],
        vec!["chatty_1".to_string()],
    );
    let site2 = Site::new(
        1,
        25,
        vec![
            ("tag1".to_string(), Tag::new(3, 30)),
            ("tag2".to_string(), Tag::new(4, 4)),
        ],
        vec!["chatty_2".to_string()],
    );
    let sites = vec![
        ("site1".to_string(), site1),
        ("site2".to_string(), site2),
    ];

    let tag1 = Tag::new(2, 10);
    let tag2 = Tag::new(1, 25);
    let tag3 = Tag::new(3, 30);
    let tag4 = Tag::new(4, 4);
    let tags = vec![
        ("tag1".to_string(), tag1),
        ("tag2".to_string(), tag2),
        ("tag3".to_string(), tag3),
        ("tag4".to_string(), tag4),
    ];

    let totals = vec![];

    let mut processed_sites = ProcessedSites::new("106160".to_string(), sites, tags, totals);

    processed_sites.process_chatty();

    let chatty_sites = total_of(&processed_sites.totals, "chatty_sites").unwrap();
    assert_eq!(chatty_sites[0], "site2".to_string());
    assert_eq!(chatty_sites[1], "site1".to_string());

    let chatty_tags = total_of(&processed_sites.totals, "chatty_tags").unwrap();
    assert_eq!(chatty_tags[0], "tag2".to_string());
    assert_eq!(chatty_tags[1], "tag3".to_string());
    assert_eq!(chatty_tags[2], "tag1".to_string());
    assert_eq!(chatty_tags[3], "tag4".to_string());
}

#[test]
fn merge_is_commutative_and_associative_on_totals() {
    let frag = |site: &str, tag: &str, q: usize, w: usize| -> ProcessedSites {
        ProcessedSites::new(
            "106160".to_string(),
            vec![(
                site.to_string(),
                Site::new(q, w, vec![(tag.to_string(), Tag::new(q, w))], vec![]),
            )],
            vec![(tag.to_string(), Tag::new(q, w))],
            vec![],
        )
    };

    // ((a + b) + c) built left to right
    let mut left = frag("s1", "t1", 1, 7);
    left.merge(&frag("s2", "t1", 2, 11));
    left.merge(&frag("s1", "t2", 4, 3));

    // (a + (b + c)) and swapped operand orders
    let mut bc = frag("s2", "t1", 2, 11);
    bc.merge(&frag("s1", "t2", 4, 3));
    let mut right = frag("s1", "t1", 1, 7);
    right.merge(&bc);

    for (sites_a, sites_b) in [(&left.sites, &right.sites), (&right.sites, &left.sites)] {
        for (name, site) in sites_a.iter() {
            let other = site_of(sites_b, name).unwrap();
            assert_eq!(site.questions, other.questions);
            assert_eq!(site.words, other.words);
            for (tn, tv) in site.tags.iter() {
                let ot = tag_of(&other.tags, tn).unwrap();
                assert_eq!(tv.questions, ot.questions);
                assert_eq!(tv.words, ot.words);
            }
        }
    }
    for (name, tag) in left.tags.iter() {
        let other = tag_of(&right.tags, name).unwrap();
        assert_eq!(tag.questions, other.questions);
        assert_eq!(tag.words, other.words);
    }

    assert_eq!(site_of(&left.sites, "s1").unwrap().questions, 5);
    assert_eq!(site_of(&left.sites, "s1").unwrap().words, 10);
    assert_eq!(site_of(&left.sites, "s2").unwrap().questions, 2);
    assert_eq!(tag_of(&left.tags, "t1").unwrap().questions, 3);
    assert_eq!(tag_of(&left.tags, "t1").unwrap().words, 18);
    assert_eq!(tag_of(&left.tags, "t2").unwrap().questions, 4);
}
