use vstd::prelude::*;
use crate::tag::{Tag, TagV, tag_plus, tag_fits};

verus! {

/// Keys of a keyed counter list are pairwise distinct.
pub open spec fn keys_distinct_tags(entries: Seq<(String, Tag)>) -> bool {
    forall|i: int, j: int| 0 <= i < j < entries.len() ==> entries[i].0@ != entries[j].0@
}

/// The mapping a keyed counter list stands for. Insertion order is
/// irrelevant to it; all lookups go by key.
pub open spec fn stats_view(entries: Seq<(String, Tag)>) -> Map<Seq<char>, TagV>
    decreases entries.len(),
{
    if entries.len() == 0 {
        Map::empty()
    } else {
        stats_view(entries.drop_last()).insert(entries.last().0@, entries.last().1@)
    }
}

/// Merge of two tag-statistics mappings: union of the keys; a key present in
/// both maps to the field-wise sum, a key present in one keeps its value.
pub open spec fn stats_plus(a: Map<Seq<char>, TagV>, b: Map<Seq<char>, TagV>) -> Map<
    Seq<char>,
    TagV,
> {
    Map::new(
        |k: Seq<char>| a.contains_key(k) || b.contains_key(k),
        |k: Seq<char>|
            if a.contains_key(k) && b.contains_key(k) {
                tag_plus(a[k], b[k])
            } else if a.contains_key(k) {
                a[k]
            } else {
                b[k]
            },
    )
}

/// Every key present in both mappings can be combined without overflow.
pub open spec fn stats_can_add(a: Map<Seq<char>, TagV>, b: Map<Seq<char>, TagV>) -> bool {
    forall|k: Seq<char>|
        #![trigger a.contains_key(k)]
        #![trigger b.contains_key(k)]
        a.contains_key(k) && b.contains_key(k) ==> tag_fits(tag_plus(a[k], b[k]))
}

/// Law: merging tag-statistics mappings is commutative.
pub proof fn lemma_stats_plus_comm(a: Map<Seq<char>, TagV>, b: Map<Seq<char>, TagV>)
    ensures
        stats_plus(a, b) == stats_plus(b, a),
{
    assert(stats_plus(a, b) =~= stats_plus(b, a));
}

/// Law: merging tag-statistics mappings is associative.
pub proof fn lemma_stats_plus_assoc(
    a: Map<Seq<char>, TagV>,
    b: Map<Seq<char>, TagV>,
    c: Map<Seq<char>, TagV>,
)
    ensures
        stats_plus(stats_plus(a, b), c) == stats_plus(a, stats_plus(b, c)),
{
    assert(stats_plus(stats_plus(a, b), c) =~= stats_plus(a, stats_plus(b, c)));
}

/// A key is in the mapping of a list exactly when some entry carries it.
pub proof fn lemma_stats_view_dom(entries: Seq<(String, Tag)>)
    ensures
        forall|k: Seq<char>|
            #[trigger] stats_view(entries).contains_key(k) <==> exists|i: int|
                0 <= i < entries.len() && entries[i].0@ == k,
    decreases entries.len(),
{
    if entries.len() > 0 {
        let dl = entries.drop_last();
        lemma_stats_view_dom(dl);
        assert(stats_view(entries) == stats_view(dl).insert(entries.last().0@, entries.last().1@));
        assert forall|k: Seq<char>| #[trigger]
            stats_view(entries).contains_key(k) implies exists|i: int|
            0 <= i < entries.len() && entries[i].0@ == k by {
            if k == entries.last().0@ {
                assert(entries[entries.len() - 1].0@ == k);
            } else {
                assert(stats_view(dl).contains_key(k));
                let i = choose|i: int| 0 <= i < dl.len() && dl[i].0@ == k;
                assert(dl[i] == entries[i]);
                assert(entries[i].0@ == k);
            }
        }
        assert forall|k: Seq<char>|
            (exists|i: int|
                0 <= i < entries.len() && entries[i].0@ == k) implies #[trigger] stats_view(
            entries,
        ).contains_key(k) by {
            let i = choose|i: int| 0 <= i < entries.len() && entries[i].0@ == k;
            if i < entries.len() - 1 {
                assert(entries.drop_last()[i].0@ == k);
            }
        }
    }
}

/// With distinct keys, the mapping of a list takes each entry to its value.
pub proof fn lemma_stats_view_index(entries: Seq<(String, Tag)>, i: int)
    requires
        keys_distinct_tags(entries),
        0 <= i < entries.len(),
    ensures
        stats_view(entries).contains_key(entries[i].0@),
        stats_view(entries)[entries[i].0@] == entries[i].1@,
    decreases entries.len(),
{
    if i < entries.len() - 1 {
        let dl = entries.drop_last();
        assert forall|a: int, b: int| 0 <= a < b < dl.len() implies dl[a].0@ != dl[b].0@ by {
            assert(dl[a] == entries[a] && dl[b] == entries[b]);
        }
        lemma_stats_view_index(dl, i);
        assert(dl[i] == entries[i]);
        assert(entries[i].0@ != entries.last().0@);
    }
}

/// Every value of the mapping of a list is the view of a machine counter,
/// so it is representable.
pub proof fn lemma_stats_view_fits(entries: Seq<(String, Tag)>)
    requires
        keys_distinct_tags(entries),
    ensures
        forall|k: Seq<char>| #[trigger] stats_view(entries).contains_key(k) ==> tag_fits(
            stats_view(entries)[k],
        ),
{
    lemma_stats_view_dom(entries);
    assert forall|k: Seq<char>| #[trigger]
        stats_view(entries).contains_key(k) implies tag_fits(stats_view(entries)[k]) by {
        let i = choose|i: int| 0 <= i < entries.len() && entries[i].0@ == k;
        lemma_stats_view_index(entries, i);
    }
}

/// Replacing the value of one entry replaces that key's image in the mapping.
pub proof fn lemma_stats_view_update(entries: Seq<(String, Tag)>, i: int, p: (String, Tag))
    requires
        keys_distinct_tags(entries),
        0 <= i < entries.len(),
        p.0@ == entries[i].0@,
    ensures
        stats_view(entries.update(i, p)) == stats_view(entries).insert(p.0@, p.1@),
        keys_distinct_tags(entries.update(i, p)),
    decreases entries.len(),
{
    let u = entries.update(i, p);
    assert forall|a: int, b: int| 0 <= a < b < u.len() implies u[a].0@ != u[b].0@ by {
        assert(u[a].0@ == entries[a].0@ && u[b].0@ == entries[b].0@);
    }
    if i == entries.len() - 1 {
        assert(u.drop_last() =~= entries.drop_last());
        assert(u.last() == p);
        assert(stats_view(entries).insert(p.0@, p.1@) =~= stats_view(entries.drop_last()).insert(
            p.0@,
            p.1@,
        ));
    } else {
        let dl = entries.drop_last();
        assert forall|a: int, b: int| 0 <= a < b < dl.len() implies dl[a].0@ != dl[b].0@ by {
            assert(dl[a] == entries[a] && dl[b] == entries[b]);
        }
        assert(dl[i] == entries[i]);
        lemma_stats_view_update(dl, i, p);
        assert(u.drop_last() =~= dl.update(i, p));
        assert(u.last() == entries.last());
        assert(p.0@ != entries.last().0@);
        assert(stats_view(u) == stats_view(dl.update(i, p)).insert(
            entries.last().0@,
            entries.last().1@,
        ));
        assert(stats_view(u) =~= stats_view(entries).insert(p.0@, p.1@));
    }
}

/// Extending the walked prefix by one entry inserts that entry's pair.
pub proof fn lemma_stats_view_take_step(entries: Seq<(String, Tag)>, i: int)
    requires
        0 <= i < entries.len(),
    ensures
        stats_view(entries.take(i + 1)) == stats_view(entries.take(i)).insert(
            entries[i].0@,
            entries[i].1@,
        ),
{
    assert(entries.take(i + 1).drop_last() =~= entries.take(i));
    assert(entries.take(i + 1).last() == entries[i]);
}

/// Merging a mapping extended by a fresh key inserts the combined value.
pub proof fn lemma_stats_plus_insert(
    a: Map<Seq<char>, TagV>,
    b: Map<Seq<char>, TagV>,
    k: Seq<char>,
    t: TagV,
)
    requires
        !b.contains_key(k),
    ensures
        a.contains_key(k) ==> stats_plus(a, b.insert(k, t)) == stats_plus(a, b).insert(
            k,
            tag_plus(a[k], t),
        ),
        !a.contains_key(k) ==> stats_plus(a, b.insert(k, t)) == stats_plus(a, b).insert(k, t),
{
    if a.contains_key(k) {
        assert(stats_plus(a, b.insert(k, t)) =~= stats_plus(a, b).insert(k, tag_plus(a[k], t)));
    } else {
        assert(stats_plus(a, b.insert(k, t)) =~= stats_plus(a, b).insert(k, t));
    }
}

/// Index of the entry carrying the given key, if one is present.
pub fn stats_find(entries: &Vec<(String, Tag)>, name: &String) -> (r: Option<usize>)
    ensures
        match r {
            Some(i) => i < entries@.len() && entries@[i as int].0@ == name@,
            None => forall|j: int| 0 <= j < entries@.len() ==> entries@[j].0@ != name@,
        },
{
    let mut i: usize = 0;
    while i < entries.len()
        invariant
            i <= entries@.len(),
            forall|j: int| 0 <= j < i ==> entries@[j].0@ != name@,
        decreases entries@.len() - i,
    {
        if entries[i].0 == *name {
            return Some(i);
        }
        i += 1;
    }
    None
}

/// Counters recorded for the given key, if present.
pub fn stats_get(entries: &Vec<(String, Tag)>, name: &String) -> (r: Option<Tag>)
    requires
        keys_distinct_tags(entries@),
    ensures
        match r {
            Some(t) => stats_view(entries@).contains_key(name@) && t@ == stats_view(entries@)[name@],
            None => !stats_view(entries@).contains_key(name@),
        },
{
    match stats_find(entries, name) {
        Some(i) => {
            proof {
                lemma_stats_view_index(entries@, i as int);
            }
            Some(entries[i].1)
        },
        None => {
            proof {
                lemma_stats_view_dom(entries@);
            }
            None
        },
    }
}

/// Merges one keyed counter into the list: adds into the entry carrying this
/// key, or appends a new entry for it.
pub fn stats_add(entries: &mut Vec<(String, Tag)>, name: &String, t: Tag)
    requires
        keys_distinct_tags(old(entries)@),
        stats_view(old(entries)@).contains_key(name@) ==> tag_fits(
            tag_plus(stats_view(old(entries)@)[name@], t@),
        ),
    ensures
        keys_distinct_tags(final(entries)@),
        stats_view(final(entries)@) == (if stats_view(old(entries)@).contains_key(name@) {
            stats_view(old(entries)@).insert(
                name@,
                tag_plus(stats_view(old(entries)@)[name@], t@),
            )
        } else {
            stats_view(old(entries)@).insert(name@, t@)
        }),
{
    match stats_find(entries, name) {
        Some(i) => {
            proof {
                lemma_stats_view_index(entries@, i as int);
            }
            let mut pair = entries.remove(i);
            pair.1.add(&t);
            let ghost updated = old(entries)@.update(i as int, pair);
            entries.insert(i, pair);
            proof {
                assert(entries@ =~= updated);
                lemma_stats_view_update(old(entries)@, i as int, pair);
            }
        },
        None => {
            proof {
                lemma_stats_view_dom(entries@);
            }
            entries.push((name.clone(), t));
            proof {
                assert(entries@.drop_last() =~= old(entries)@);
            }
        },
    }
}

/// Merges every entry of `src` into `dst`.
pub fn stats_add_all(dst: &mut Vec<(String, Tag)>, src: &Vec<(String, Tag)>)
    requires
        keys_distinct_tags(old(dst)@),
        keys_distinct_tags(src@),
        stats_can_add(stats_view(old(dst)@), stats_view(src@)),
    ensures
        keys_distinct_tags(final(dst)@),
        stats_view(final(dst)@) == stats_plus(stats_view(old(dst)@), stats_view(src@)),
{
    let ghost m0 = stats_view(dst@);
    proof {
        assert(stats_view(src@.take(0)) =~= Map::<Seq<char>, TagV>::empty());
        assert(stats_view(dst@) =~= stats_plus(m0, stats_view(src@.take(0))));
    }
    let mut i: usize = 0;
    while i < src.len()
        invariant
            i <= src@.len(),
            keys_distinct_tags(src@),
            keys_distinct_tags(dst@),
            stats_can_add(m0, stats_view(src@)),
            stats_view(dst@) == stats_plus(m0, stats_view(src@.take(i as int))),
        decreases src@.len() - i,
    {
        let ghost mi = stats_view(src@.take(i as int));
        let ghost k = src@[i as int].0@;
        proof {
            lemma_stats_view_dom(src@.take(i as int));
            assert forall|j: int| 0 <= j < i implies src@.take(i as int)[j].0@ != k by {
                assert(src@.take(i as int)[j] == src@[j]);
            }
            assert(!mi.contains_key(k));
            lemma_stats_view_index(src@, i as int);
            lemma_stats_view_take_step(src@, i as int);
            lemma_stats_plus_insert(m0, mi, k, src@[i as int].1@);
        }
        stats_add(dst, &src[i].0, src[i].1);
        i += 1;
    }
    proof {
        assert(src@.take(src@.len() as int) =~= src@);
    }
}

/// True when `dst` and `src` can be merged without any counter overflowing.
pub fn stats_can_merge(dst: &Vec<(String, Tag)>, src: &Vec<(String, Tag)>) -> (r: bool)
    requires
        keys_distinct_tags(dst@),
        keys_distinct_tags(src@),
    ensures
        r == stats_can_add(stats_view(dst@), stats_view(src@)),
{
    let mut i: usize = 0;
    while i < src.len()
        invariant
            i <= src@.len(),
            keys_distinct_tags(dst@),
            keys_distinct_tags(src@),
            forall|j: int|
                0 <= j < i && stats_view(dst@).contains_key(#[trigger] src@[j].0@)
                    ==> tag_fits(tag_plus(stats_view(dst@)[src@[j].0@], src@[j].1@)),
        decreases src@.len() - i,
    {
        match stats_get(dst, &src[i].0) {
            Some(t) => {
                if !t.can_add(&src[i].1) {
                    proof {
                        lemma_stats_view_index(src@, i as int);
                    }
                    return false;
                }
            },
            None => {},
        }
        i += 1;
    }
    proof {
        lemma_stats_view_dom(src@);
        assert forall|k: Seq<char>|
            stats_view(dst@).contains_key(k) && stats_view(src@).contains_key(
                k,
            ) implies tag_fits(tag_plus(stats_view(dst@)[k], stats_view(src@)[k])) by {
            let j = choose|j: int| 0 <= j < src@.len() && src@[j].0@ == k;
            lemma_stats_view_index(src@, j);
        }
    }
    true
}

} // verus!
