use vstd::prelude::*;

verus! {

/// Keys of a keyed list are pairwise distinct.
pub open spec fn keys_distinct<T>(entries: Seq<(String, T)>) -> bool {
    forall|i: int, j: int| 0 <= i < j < entries.len() ==> entries[i].0@ != entries[j].0@
}

/// The mapping a keyed list stands for, each value taken to its mathematical
/// counterpart. Insertion order is irrelevant to it; lookups go by key.
pub open spec fn keyed_view<T: DeepView>(entries: Seq<(String, T)>) -> Map<Seq<char>, T::V>
    decreases entries.len(),
{
    if entries.len() == 0 {
        Map::empty()
    } else {
        keyed_view(entries.drop_last()).insert(entries.last().0@, entries.last().1.deep_view())
    }
}

/// A key is in the mapping of a list exactly when some entry carries it.
pub proof fn lemma_keyed_view_dom<T: DeepView>(entries: Seq<(String, T)>)
    ensures
        forall|k: Seq<char>|
            #[trigger] keyed_view(entries).contains_key(k) <==> exists|i: int|
                0 <= i < entries.len() && entries[i].0@ == k,
    decreases entries.len(),
{
    if entries.len() > 0 {
        let dl = entries.drop_last();
        lemma_keyed_view_dom(dl);
        assert(keyed_view(entries) == keyed_view(dl).insert(
            entries.last().0@,
            entries.last().1.deep_view(),
        ));
        assert forall|k: Seq<char>| #[trigger]
            keyed_view(entries).contains_key(k) implies exists|i: int|
            0 <= i < entries.len() && entries[i].0@ == k by {
            if k == entries.last().0@ {
                assert(entries[entries.len() - 1].0@ == k);
            } else {
                assert(keyed_view(dl).contains_key(k));
                let i = choose|i: int| 0 <= i < dl.len() && dl[i].0@ == k;
                assert(dl[i] == entries[i]);
                assert(entries[i].0@ == k);
            }
        }
        assert forall|k: Seq<char>|
            (exists|i: int|
                0 <= i < entries.len() && entries[i].0@ == k) implies #[trigger] keyed_view(
            entries,
        ).contains_key(k) by {
            let i = choose|i: int| 0 <= i < entries.len() && entries[i].0@ == k;
            if i < entries.len() - 1 {
                assert(dl[i].0@ == k);
            }
        }
    }
}

/// With distinct keys, the mapping of a list takes each entry to its value.
pub proof fn lemma_keyed_view_index<T: DeepView>(entries: Seq<(String, T)>, i: int)
    requires
        keys_distinct(entries),
        0 <= i < entries.len(),
    ensures
        keyed_view(entries).contains_key(entries[i].0@),
        keyed_view(entries)[entries[i].0@] == entries[i].1.deep_view(),
    decreases entries.len(),
{
    if i < entries.len() - 1 {
        let dl = entries.drop_last();
        assert forall|a: int, b: int| 0 <= a < b < dl.len() implies dl[a].0@ != dl[b].0@ by {
            assert(dl[a] == entries[a] && dl[b] == entries[b]);
        }
        lemma_keyed_view_index(dl, i);
        assert(dl[i] == entries[i]);
        assert(entries[i].0@ != entries.last().0@);
    }
}

/// Replacing the value of one entry replaces that key's image in the mapping.
pub proof fn lemma_keyed_view_update<T: DeepView>(entries: Seq<(String, T)>, i: int, p: (String, T))
    requires
        keys_distinct(entries),
        0 <= i < entries.len(),
        p.0@ == entries[i].0@,
    ensures
        keyed_view(entries.update(i, p)) == keyed_view(entries).insert(p.0@, p.1.deep_view()),
        keys_distinct(entries.update(i, p)),
    decreases entries.len(),
{
    let u = entries.update(i, p);
    assert forall|a: int, b: int| 0 <= a < b < u.len() implies u[a].0@ != u[b].0@ by {
        assert(u[a].0@ == entries[a].0@ && u[b].0@ == entries[b].0@);
    }
    if i == entries.len() - 1 {
        assert(u.drop_last() =~= entries.drop_last());
        assert(u.last() == p);
        assert(keyed_view(entries).insert(p.0@, p.1.deep_view()) =~= keyed_view(
            entries.drop_last(),
        ).insert(p.0@, p.1.deep_view()));
    } else {
        let dl = entries.drop_last();
        assert forall|a: int, b: int| 0 <= a < b < dl.len() implies dl[a].0@ != dl[b].0@ by {
            assert(dl[a] == entries[a] && dl[b] == entries[b]);
        }
        assert(dl[i] == entries[i]);
        lemma_keyed_view_update(dl, i, p);
        assert(u.drop_last() =~= dl.update(i, p));
        assert(u.last() == entries.last());
        assert(p.0@ != entries.last().0@);
        assert(keyed_view(u) == keyed_view(dl.update(i, p)).insert(
            entries.last().0@,
            entries.last().1.deep_view(),
        ));
        assert(keyed_view(u) =~= keyed_view(entries).insert(p.0@, p.1.deep_view()));
    }
}

/// Extending the walked prefix by one entry inserts that entry's pair.
pub proof fn lemma_keyed_view_take_step<T: DeepView>(entries: Seq<(String, T)>, i: int)
    requires
        0 <= i < entries.len(),
    ensures
        keyed_view(entries.take(i + 1)) == keyed_view(entries.take(i)).insert(
            entries[i].0@,
            entries[i].1.deep_view(),
        ),
{
    assert(entries.take(i + 1).drop_last() =~= entries.take(i));
    assert(entries.take(i + 1).last() == entries[i]);
}

/// Index of the entry carrying the given key, if one is present.
pub fn keyed_find<T>(entries: &Vec<(String, T)>, name: &String) -> (r: Option<usize>)
    ensures
        match r {
            Some(i) => i < entries@.len() && entries@[i as int].0@ == name@,
            None => forall|j: int| 0 <= j < entries@.len() ==> entries@[j].0@ != name@,
        },
{
    let mut i: usize = 0;
    while i < entries.len()
        invariant
            i <= entries@.len(),
            forall|j: int| 0 <= j < i ==> entries@[j].0@ != name@,
        decreases entries@.len() - i,
    {
        if entries[i].0 == *name {
            return Some(i);
        }
        i += 1;
    }
    None
}

} // verus!
