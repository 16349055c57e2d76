use vstd::prelude::*;
use vstd::string::StrSliceExecFns;
use crate::stats::keys_distinct_tags;
use crate::tag::{Tag, TagV};

verus! {

/// Strict lexicographic order on character sequences, by code point.
pub open spec fn lex_lt(a: Seq<char>, b: Seq<char>) -> bool
    decreases a.len(),
{
    if b.len() == 0 {
        false
    } else if a.len() == 0 {
        true
    } else if a[0] != b[0] {
        a[0] < b[0]
    } else {
        lex_lt(a.drop_first(), b.drop_first())
    }
}

/// The lexicographic order is irreflexive and asymmetric.
pub proof fn lemma_lex_asym(a: Seq<char>, b: Seq<char>)
    ensures
        !(lex_lt(a, b) && lex_lt(b, a)),
        !lex_lt(a, a),
    decreases a.len(),
{
    if a.len() > 0 && b.len() > 0 && a[0] == b[0] {
        lemma_lex_asym(a.drop_first(), b.drop_first());
    }
    if a.len() > 0 {
        lemma_lex_asym(a.drop_first(), a.drop_first());
    }
}

/// Two distinct character sequences are lexicographically comparable.
pub proof fn lemma_lex_total(a: Seq<char>, b: Seq<char>)
    requires
        a != b,
    ensures
        lex_lt(a, b) || lex_lt(b, a),
    decreases a.len(),
{
    if a.len() == 0 {
        if b.len() == 0 {
            assert(a =~= b);
        }
    } else if b.len() == 0 {
    } else if a[0] == b[0] {
        assert(a.drop_first() != b.drop_first()) by {
            if a.drop_first() == b.drop_first() {
                assert(a.drop_first().len() == b.drop_first().len());
                assert(a.len() == b.len());
                assert forall|i: int| 0 <= i < a.len() implies a[i] == b[i] by {
                    if i > 0 {
                        assert(a.drop_first()[i - 1] == a[i]);
                        assert(b.drop_first()[i - 1] == b[i]);
                    }
                }
                assert(a =~= b);
            }
        }
        lemma_lex_total(a.drop_first(), b.drop_first());
    }
}

/// The lexicographic order is transitive.
pub proof fn lemma_lex_trans(a: Seq<char>, b: Seq<char>, c: Seq<char>)
    requires
        lex_lt(a, b),
        lex_lt(b, c),
    ensures
        lex_lt(a, c),
    decreases a.len(),
{
    if a.len() == 0 {
    } else if a[0] == b[0] && b[0] == c[0] {
        lemma_lex_trans(a.drop_first(), b.drop_first(), c.drop_first());
    }
}

/// Comparing two equal-length prefixes character by character: once the first
/// `i` characters agree, the order is decided by the remainders.
proof fn lemma_lex_skip(a: Seq<char>, b: Seq<char>, i: int)
    requires
        0 <= i <= a.len(),
        i <= b.len(),
        forall|j: int| 0 <= j < i ==> a[j] == b[j],
    ensures
        lex_lt(a, b) == lex_lt(a.skip(i), b.skip(i)),
    decreases i,
{
    if i == 0 {
        assert(a.skip(0) =~= a);
        assert(b.skip(0) =~= b);
    } else {
        assert(a.len() > 0 && b.len() > 0 && a[0] == b[0]);
        assert(a.drop_first() =~= a.skip(1));
        assert(b.drop_first() =~= b.skip(1));
        lemma_lex_skip(a.drop_first(), b.drop_first(), i - 1);
        assert(a.drop_first().skip(i - 1) =~= a.skip(i));
        assert(b.drop_first().skip(i - 1) =~= b.skip(i));
    }
}

/// Lexicographic comparison of two keys.
fn lex_less(a: &String, b: &String) -> (r: bool)
    ensures
        r == lex_lt(a@, b@),
{
    let na: usize = a.as_str().unicode_len();
    let nb: usize = b.as_str().unicode_len();
    let mut i: usize = 0;
    while i < na && i < nb
        invariant
            i <= na,
            i <= nb,
            na == a@.len(),
            nb == b@.len(),
            forall|j: int| 0 <= j < i ==> a@[j] == b@[j],
        decreases na - i,
    {
        let x = a.as_str().get_char(i);
        let y = b.as_str().get_char(i);
        if x != y {
            proof {
                lemma_lex_skip(a@, b@, i as int);
                assert(a@.skip(i as int)[0] == a@[i as int]);
                assert(b@.skip(i as int)[0] == b@[i as int]);
            }
            return (x as u32) < (y as u32);
        }
        i += 1;
    }
    proof {
        lemma_lex_skip(a@, b@, i as int);
    }
    i < nb
}

/// The counters are those of at least one real record.
pub open spec fn tag_pos(t: TagV) -> bool {
    t.questions >= 1 && t.words >= 0
}

/// The ranking order on keyed counters: strictly greater words-per-question
/// ratio first; equal ratios are broken by ascending lexicographic key
/// order. Ratios are compared exactly, by cross-multiplication.
pub open spec fn rank_before(a: (Seq<char>, TagV), b: (Seq<char>, TagV)) -> bool {
    ||| a.1.words * b.1.questions > b.1.words * a.1.questions
    ||| (a.1.words * b.1.questions == b.1.words * a.1.questions && lex_lt(a.0, b.0))
}

/// The ranking order is asymmetric.
pub proof fn lemma_rank_asym(a: (Seq<char>, TagV), b: (Seq<char>, TagV))
    ensures
        !(rank_before(a, b) && rank_before(b, a)),
{
    lemma_lex_asym(a.0, b.0);
}

/// Two keyed counters with distinct keys are comparable.
pub proof fn lemma_rank_total(a: (Seq<char>, TagV), b: (Seq<char>, TagV))
    requires
        a.0 != b.0,
    ensures
        rank_before(a, b) || rank_before(b, a),
{
    lemma_lex_total(a.0, b.0);
}

/// Transitivity of the exact ratio comparison.
proof fn lemma_cross_trans(aw: int, aq: int, bw: int, bq: int, cw: int, cq: int)
    requires
        aq >= 1,
        bq >= 1,
        cq >= 1,
        aw * bq >= bw * aq,
        bw * cq >= cw * bq,
    ensures
        aw * cq >= cw * aq,
        aw * bq > bw * aq || bw * cq > cw * bq ==> aw * cq > cw * aq,
{
    assert(aw * cq * bq >= cw * aq * bq && (aw * bq > bw * aq || bw * cq > cw * bq ==> aw * cq * bq
        > cw * aq * bq)) by (nonlinear_arith)
        requires
            aq >= 1,
            bq >= 1,
            cq >= 1,
            aw * bq >= bw * aq,
            bw * cq >= cw * bq,
    ;
    assert(aw * cq >= cw * aq) by (nonlinear_arith)
        requires
            bq >= 1,
            aw * cq * bq >= cw * aq * bq,
    ;
    if aw * bq > bw * aq || bw * cq > cw * bq {
        assert(aw * cq > cw * aq) by (nonlinear_arith)
            requires
                bq >= 1,
                aw * cq * bq > cw * aq * bq,
        ;
    }
}

/// The ranking order is transitive on positive counters.
pub proof fn lemma_rank_trans(a: (Seq<char>, TagV), b: (Seq<char>, TagV), c: (Seq<char>, TagV))
    requires
        tag_pos(a.1),
        tag_pos(b.1),
        tag_pos(c.1),
        rank_before(a, b),
        rank_before(b, c),
    ensures
        rank_before(a, c),
{
    lemma_cross_trans(a.1.words, a.1.questions, b.1.words, b.1.questions, c.1.words, c.1.questions);
    if a.1.words * b.1.questions == b.1.words * a.1.questions && b.1.words * c.1.questions
        == c.1.words * b.1.questions {
        lemma_lex_trans(a.0, b.0, c.0);
    }
}

/// The mathematical pairs a keyed counter list stands for.
pub open spec fn pair_views(s: Seq<(String, Tag)>) -> Seq<(Seq<char>, TagV)> {
    s.map_values(|p: (String, Tag)| (p.0@, p.1@))
}

/// Each element strictly precedes every later one in the ranking order.
pub open spec fn sorted_by_rank(s: Seq<(Seq<char>, TagV)>) -> bool {
    forall|i: int, j: int| 0 <= i < j < s.len() ==> rank_before(s[i], s[j])
}

/// Every counter pair of the sequence is positive.
pub open spec fn all_positive(s: Seq<(Seq<char>, TagV)>) -> bool {
    forall|i: int| 0 <= i < s.len() ==> tag_pos(#[trigger] s[i].1)
}

/// Keys of the sequence are pairwise distinct.
pub open spec fn pairs_distinct(s: Seq<(Seq<char>, TagV)>) -> bool {
    forall|i: int, j: int| 0 <= i < j < s.len() ==> s[i].0 != s[j].0
}

/// The keys of the best-ranked pairs, at most ten of them.
pub open spec fn ranking_keys(s: Seq<(Seq<char>, TagV)>) -> Seq<Seq<char>> {
    s.map_values(|p: (Seq<char>, TagV)| p.0).take(
        if s.len() < 10 {
            s.len() as int
        } else {
            10
        },
    )
}

/// `r` ranks the collection `items`: it lists the keys of some arrangement
/// of `items` that is sorted by the ranking order, cut off after ten.
pub open spec fn ranking_of(r: Seq<Seq<char>>, items: Seq<(Seq<char>, TagV)>) -> bool {
    exists|s: Seq<(Seq<char>, TagV)>|
        sorted_by_rank(s) && s.to_multiset() == items.to_multiset() && r == ranking_keys(s)
}

/// Law: the ranking order admits exactly one sorted arrangement of any
/// collection of keyed counters, so a ranking is deterministic: it depends
/// only on the collection itself, never on the order its elements arrive in
/// or on how the collection was split and merged.
pub proof fn lemma_sorted_unique(a: Seq<(Seq<char>, TagV)>, b: Seq<(Seq<char>, TagV)>)
    requires
        sorted_by_rank(a),
        sorted_by_rank(b),
        a.to_multiset() == b.to_multiset(),
    ensures
        a == b,
    decreases a.len(),
{
    broadcast use vstd::seq_lib::group_to_multiset_ensures;

    assert(a.to_multiset().len() == a.len());
    assert(b.to_multiset().len() == b.len());
    if a.len() == 0 {
        assert(a =~= b);
    } else {
        assert(b.len() == a.len());
        assert(a.contains(a[0]));
        assert(b.to_multiset().count(a[0]) > 0);
        assert(b.contains(a[0]));
        let j = choose|j: int| 0 <= j < b.len() && b[j] == a[0];
        assert(a.to_multiset().count(b[0]) > 0);
        assert(a.contains(b[0]));
        let i = choose|i: int| 0 <= i < a.len() && a[i] == b[0];
        if a[0] != b[0] {
            assert(i > 0 && j > 0);
            assert(rank_before(a[0], a[i]));
            assert(rank_before(b[0], b[j]));
            lemma_rank_asym(a[0], b[0]);
            assert(false);
        }
        assert(a.remove(0).to_multiset() =~= a.to_multiset().remove(a[0]));
        assert(b.remove(0).to_multiset() =~= b.to_multiset().remove(b[0]));
        assert(a.remove(0).to_multiset() == b.remove(0).to_multiset());
        assert(sorted_by_rank(a.remove(0))) by {
            assert forall|p: int, q: int|
                0 <= p < q < a.remove(0).len() implies rank_before(
                a.remove(0)[p],
                a.remove(0)[q],
            ) by {
                assert(a.remove(0)[p] == a[p + 1] && a.remove(0)[q] == a[q + 1]);
            }
        }
        assert(sorted_by_rank(b.remove(0))) by {
            assert forall|p: int, q: int|
                0 <= p < q < b.remove(0).len() implies rank_before(
                b.remove(0)[p],
                b.remove(0)[q],
            ) by {
                assert(b.remove(0)[p] == b[p + 1] && b.remove(0)[q] == b[q + 1]);
            }
        }
        lemma_sorted_unique(a.remove(0), b.remove(0));
        assert(a =~= b) by {
            assert forall|p: int| 0 <= p < a.len() implies a[p] == b[p] by {
                if p > 0 {
                    assert(a.remove(0)[p - 1] == a[p] && b.remove(0)[p - 1] == b[p]);
                }
            }
        }
    }
}

/// The ranking comparison on machine counters, by exact cross-multiplication
/// in double-width integers.
fn rank_less(a: &(String, Tag), b: &(String, Tag)) -> (r: bool)
    requires
        a.1.questions >= 1,
        b.1.questions >= 1,
    ensures
        r == rank_before((a.0@, a.1@), (b.0@, b.1@)),
{
    proof {
        assert((a.1.words as u128) * (b.1.questions as u128) <= u128::MAX && (b.1.words as u128) * (
        a.1.questions as u128) <= u128::MAX) by (nonlinear_arith)
            requires
                a.1.words <= usize::MAX,
                b.1.words <= usize::MAX,
                a.1.questions <= usize::MAX,
                b.1.questions <= usize::MAX,
                usize::MAX <= u64::MAX,
        ;
    }
    let left: u128 = (a.1.words as u128) * (b.1.questions as u128);
    let right: u128 = (b.1.words as u128) * (a.1.questions as u128);
    if left > right {
        true
    } else if left == right {
        lex_less(&a.0, &b.0)
    } else {
        false
    }
}

/// Arranges the keyed counters in the ranking order, best first, by
/// repeatedly extracting the best remaining one.
fn sort_by_rank(items: Vec<(String, Tag)>) -> (r: Vec<(String, Tag)>)
    requires
        keys_distinct_tags(items@),
        forall|i: int| 0 <= i < items@.len() ==> items@[i].1.questions >= 1,
    ensures
        sorted_by_rank(pair_views(r@)),
        pair_views(r@).to_multiset() == pair_views(items@).to_multiset(),
{
    broadcast use vstd::seq_lib::group_to_multiset_ensures;

    let ghost orig = pair_views(items@);
    let mut rest = items;
    let mut out: Vec<(String, Tag)> = Vec::new();
    proof {
        assert(pair_views(out@) =~= Seq::<(Seq<char>, TagV)>::empty());
        assert(pair_views(out@).to_multiset().add(pair_views(rest@).to_multiset())
            =~= orig.to_multiset());
    }
    while rest.len() > 0
        invariant
            pairs_distinct(pair_views(rest@)),
            all_positive(pair_views(rest@)),
            forall|i: int| 0 <= i < rest@.len() ==> rest@[i].1.questions >= 1,
            sorted_by_rank(pair_views(out@)),
            forall|i: int, j: int|
                0 <= i < out@.len() && 0 <= j < rest@.len() ==> rank_before(
                    pair_views(out@)[i],
                    pair_views(rest@)[j],
                ),
            all_positive(pair_views(out@)),
            pair_views(out@).to_multiset().add(pair_views(rest@).to_multiset())
                == orig.to_multiset(),
        decreases rest@.len(),
    {
        let ghost rv = pair_views(rest@);
        let mut m: usize = 0;
        let mut i: usize = 1;
        while i < rest.len()
            invariant
                rest@.len() > 0,
                m < i,
                1 <= i <= rest@.len(),
                pairs_distinct(pair_views(rest@)),
                all_positive(pair_views(rest@)),
                forall|k: int| 0 <= k < rest@.len() ==> rest@[k].1.questions >= 1,
                forall|j: int|
                    0 <= j < i && j != m ==> rank_before(
                        pair_views(rest@)[m as int],
                        pair_views(rest@)[j],
                    ),
            decreases rest@.len() - i,
        {
            let ghost pv = pair_views(rest@);
            if rank_less(&rest[i], &rest[m]) {
                proof {
                    assert forall|j: int| 0 <= j < i + 1 && j != i implies rank_before(
                        pv[i as int],
                        pv[j],
                    ) by {
                        if j != m {
                            lemma_rank_trans(pv[i as int], pv[m as int], pv[j]);
                        }
                    }
                }
                m = i;
            } else {
                proof {
                    if m < i {
                        lemma_rank_total(pv[m as int], pv[i as int]);
                        lemma_rank_asym(pv[m as int], pv[i as int]);
                    }
                }
            }
            i += 1;
        }
        let ghost rest0 = rest@;
        let ghost picked_v = rv[m as int];
        let ghost ov0 = pair_views(out@);
        let picked = rest.remove(m);
        out.push(picked);
        proof {
            assert(rv.len() == rest0.len());
            assert(pair_views(out@) =~= ov0.push(picked_v));
            assert forall|k: int| 0 <= k < rest@.len() implies pair_views(rest@)[k] == rv.remove(
                m as int,
            )[k] by {
                if k < m {
                    assert(rest@[k] == rest0[k]);
                } else {
                    assert(rest@[k] == rest0[k + 1]);
                }
            }
            assert(pair_views(rest@) =~= rv.remove(m as int));
            vstd::seq_lib::to_multiset_remove(rv, m as int);
            vstd::seq_lib::to_multiset_build(ov0, picked_v);
            assert(rv.contains(picked_v)) by {
                assert(rv[m as int] == picked_v);
            }
            vstd::seq_lib::to_multiset_contains(rv, picked_v);
            assert(rv.to_multiset().count(picked_v) > 0);
            assert(pair_views(out@).to_multiset().add(pair_views(rest@).to_multiset())
                =~= orig.to_multiset());
            let ghost ov = pair_views(out@);
            let ghost nv = pair_views(rest@);
            assert forall|p: int, q: int| 0 <= p < q < ov.len() implies rank_before(
                ov[p],
                ov[q],
            ) by {
                assert(ov[p] == ov0[p]);
                if q < ov0.len() {
                    assert(ov[q] == ov0[q]);
                } else {
                    assert(ov[q] == picked_v);
                    assert(rank_before(ov0[p], rv[m as int]));
                }
            }
            assert forall|p: int, j: int|
                0 <= p < ov.len() && 0 <= j < nv.len() implies rank_before(ov[p], nv[j]) by {
                let j0: int = if j < m { j } else { j + 1 };
                assert(nv[j] == rv[j0]);
                if p < ov0.len() {
                    assert(ov[p] == ov0[p]);
                    assert(rank_before(ov0[p], rv[j0]));
                } else {
                    assert(ov[p] == picked_v);
                    assert(j0 != m as int);
                    assert(rank_before(rv[m as int], rv[j0]));
                }
            }
            assert forall|p: int, q: int| 0 <= p < q < nv.len() implies nv[p].0 != nv[q].0 by {
                let p0: int = if p < m { p } else { p + 1 };
                let q0: int = if q < m { q } else { q + 1 };
                assert(nv[p] == rv[p0] && nv[q] == rv[q0]);
            }
            assert forall|p: int| 0 <= p < nv.len() implies tag_pos(#[trigger] nv[p].1)
                && rest@[p].1.questions >= 1 by {
                let p0: int = if p < m { p } else { p + 1 };
                assert(nv[p] == rv[p0]);
                assert(rest@[p] == rest0[p0]);
            }
            assert forall|p: int| 0 <= p < ov.len() implies tag_pos(#[trigger] ov[p].1) by {
                if p < ov0.len() {
                    assert(ov[p] == ov0[p]);
                } else {
                    assert(ov[p] == picked_v);
                }
            }
        }
    }
    proof {
        let ghost ov = pair_views(out@);
        let ghost nv = pair_views(rest@);
        assert forall|x: (Seq<char>, TagV)| #[trigger]
            ov.to_multiset().count(x) == pair_views(items@).to_multiset().count(x) by {
            assert(!nv.contains(x));
            vstd::seq_lib::to_multiset_contains(nv, x);
            assert(nv.to_multiset().count(x) == 0);
            assert(ov.to_multiset().add(nv.to_multiset()).count(x) == ov.to_multiset().count(x)
                + nv.to_multiset().count(x));
        }
        assert(ov.to_multiset() =~= pair_views(items@).to_multiset());
    }
    out
}

/// The bounded "chatty" selector: the keys with the greatest
/// words-per-question ratio, at most ten of them, best first, equal ratios
/// broken by ascending lexicographic key order; all keys, in that same
/// order, when fewer than ten are present.
pub fn get_chatty(items: Vec<(String, Tag)>) -> (r: Vec<String>)
    requires
        keys_distinct_tags(items@),
        forall|i: int| 0 <= i < items@.len() ==> items@[i].1.questions >= 1,
    ensures
        ranking_of(r.deep_view(), pair_views(items@)),
        r@.len() == (if items@.len() < 10 {
            items@.len()
        } else {
            10nat
        }),
{
    let ghost iv = pair_views(items@);
    let sorted = sort_by_rank(items);
    let ghost sv = pair_views(sorted@);
    proof {
        vstd::seq_lib::to_multiset_len(sv);
        vstd::seq_lib::to_multiset_len(iv);
    }
    let n: usize = if sorted.len() < 10 {
        sorted.len()
    } else {
        10
    };
    let mut r: Vec<String> = Vec::new();
    let mut i: usize = 0;
    while i < n
        invariant
            i <= n,
            n <= sorted@.len(),
            sv == pair_views(sorted@),
            r@.len() == i,
            forall|k: int| 0 <= k < i ==> r@[k]@ == sv[k].0,
        decreases n - i,
    {
        r.push(sorted[i].0.clone());
        i += 1;
    }
    proof {
        assert(r.deep_view() =~= ranking_keys(sv)) by {
            assert(r.deep_view().len() == r@.len());
            assert forall|k: int| 0 <= k < r@.len() implies r.deep_view()[k] == ranking_keys(
                sv,
            )[k] by {
                assert(r.deep_view()[k] == r@[k].deep_view());
                assert(ranking_keys(sv)[k] == sv.map_values(|p: (Seq<char>, TagV)| p.0)[k]);
            }
        }
        assert(sorted_by_rank(sv) && sv.to_multiset() == iv.to_multiset() && r.deep_view()
            == ranking_keys(sv));
    }
    r
}

} // verus!
