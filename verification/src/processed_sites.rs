use vstd::prelude::*;
use crate::keyed::{
    keyed_find, keyed_view, keys_distinct, lemma_keyed_view_dom, lemma_keyed_view_index,
    lemma_keyed_view_take_step, lemma_keyed_view_update,
};
use crate::line::{Line, LineV};
use crate::ranking::{get_chatty, pair_views, ranking_of};
use crate::site::{
    lemma_lines_site_ok, lemma_site_le_fits, lemma_site_le_trans, lemma_site_plus_le,
    lines_site_v, lines_views, site_fits, site_le, site_ok, site_plus, stats_le, Site, SiteV,
};
use crate::stats::{
    keys_distinct_tags, stats_add_all, stats_can_add, stats_can_merge, stats_plus, stats_view,
};
use crate::tag::{tag_fits, tag_le, tag_plus, Tag, TagV};

verus! {

/// The final report: an identifier, every source's aggregate, the global
/// per-tag totals, and - after the ranking phase - the two global rankings.
pub struct ProcessedSites {
    pub padron: String,
    pub sites: Vec<(String, Site)>,
    pub tags: Vec<(String, Tag)>,
    pub totals: Vec<(String, Vec<String>)>,
}

/// Mathematical counterpart of `ProcessedSites`.
#[verifier::ext_equal]
pub ghost struct ReportV {
    pub padron: Seq<char>,
    pub sites: Map<Seq<char>, SiteV>,
    pub tags: Map<Seq<char>, TagV>,
    pub totals: Map<Seq<char>, Seq<Seq<char>>>,
}

impl View for ProcessedSites {
    type V = ReportV;

    open spec fn view(&self) -> ReportV {
        ReportV {
            padron: self.padron@,
            sites: keyed_view(self.sites@),
            tags: stats_view(self.tags@),
            totals: keyed_view(self.totals@),
        }
    }
}

/// Merge of two source mappings: union of the source names; a name present
/// in both maps to the merge of its two aggregates.
pub open spec fn sites_plus(a: Map<Seq<char>, SiteV>, b: Map<Seq<char>, SiteV>) -> Map<
    Seq<char>,
    SiteV,
> {
    Map::new(
        |k: Seq<char>| a.contains_key(k) || b.contains_key(k),
        |k: Seq<char>|
            if a.contains_key(k) && b.contains_key(k) {
                site_plus(a[k], b[k])
            } else if a.contains_key(k) {
                a[k]
            } else {
                b[k]
            },
    )
}

/// Every source present in both mappings can be merged without overflow.
pub open spec fn sites_can_add(a: Map<Seq<char>, SiteV>, b: Map<Seq<char>, SiteV>) -> bool {
    forall|k: Seq<char>|
        #![trigger a.contains_key(k)]
        #![trigger b.contains_key(k)]
        a.contains_key(k) && b.contains_key(k) ==> site_fits(site_plus(a[k], b[k]))
}

/// No aggregate of the mapping carries a ranking yet, as none does before
/// the ranking phase.
pub open spec fn no_rankings(m: Map<Seq<char>, SiteV>) -> bool {
    forall|k: Seq<char>| #[trigger] m.contains_key(k) ==> m[k].chatty_tags == Seq::<
        Seq<char>,
    >::empty()
}

/// Law: merging source mappings is associative.
pub proof fn lemma_sites_plus_assoc(
    a: Map<Seq<char>, SiteV>,
    b: Map<Seq<char>, SiteV>,
    c: Map<Seq<char>, SiteV>,
)
    ensures
        sites_plus(sites_plus(a, b), c) == sites_plus(a, sites_plus(b, c)),
{
    assert forall|k: Seq<char>|
        #![trigger sites_plus(sites_plus(a, b), c).contains_key(k)]
        true implies {
        &&& sites_plus(sites_plus(a, b), c).contains_key(k) == sites_plus(
            a,
            sites_plus(b, c),
        ).contains_key(k)
        &&& (sites_plus(sites_plus(a, b), c).contains_key(k) ==> sites_plus(sites_plus(a, b), c)[k]
            == sites_plus(a, sites_plus(b, c))[k])
    } by {
        if a.contains_key(k) && b.contains_key(k) && c.contains_key(k) {
            crate::site::lemma_site_plus_assoc(a[k], b[k], c[k]);
        }
    }
    assert(sites_plus(sites_plus(a, b), c) =~= sites_plus(a, sites_plus(b, c)));
}

/// Law: merging source mappings before the ranking phase is commutative.
pub proof fn lemma_sites_plus_comm(a: Map<Seq<char>, SiteV>, b: Map<Seq<char>, SiteV>)
    requires
        no_rankings(a),
        no_rankings(b),
    ensures
        sites_plus(a, b) == sites_plus(b, a),
{
    assert forall|k: Seq<char>|
        #![trigger sites_plus(a, b).contains_key(k)]
        true implies {
        &&& sites_plus(a, b).contains_key(k) == sites_plus(b, a).contains_key(k)
        &&& (sites_plus(a, b).contains_key(k) ==> sites_plus(a, b)[k] == sites_plus(b, a)[k])
    } by {
        if a.contains_key(k) && b.contains_key(k) {
            crate::site::lemma_site_plus_comm(a[k], b[k]);
        }
    }
    assert(sites_plus(a, b) =~= sites_plus(b, a));
}

/// Merge of two whole reports: source mappings merge, tag totals merge; the
/// identifier and the rankings, not yet computed, stay the left operand's.
pub open spec fn global_plus(a: ReportV, b: ReportV) -> ReportV {
    ReportV {
        padron: a.padron,
        sites: sites_plus(a.sites, b.sites),
        tags: stats_plus(a.tags, b.tags),
        totals: a.totals,
    }
}

/// Law: merging whole reports is associative.
pub proof fn lemma_global_plus_assoc(a: ReportV, b: ReportV, c: ReportV)
    ensures
        global_plus(global_plus(a, b), c) == global_plus(a, global_plus(b, c)),
{
    lemma_sites_plus_assoc(a.sites, b.sites, c.sites);
    crate::stats::lemma_stats_plus_assoc(a.tags, b.tags, c.tags);
    assert(global_plus(global_plus(a, b), c) =~= global_plus(a, global_plus(b, c)));
}

/// Law: merging whole partial reports is commutative: before the ranking
/// phase no aggregate carries a ranking, the rankings mapping is empty, and
/// the identifier is shared, so the merged totals are the same integers
/// whatever the order.
pub proof fn lemma_global_plus_comm(a: ReportV, b: ReportV)
    requires
        no_rankings(a.sites),
        no_rankings(b.sites),
        a.padron == b.padron,
        a.totals == b.totals,
    ensures
        global_plus(a, b) == global_plus(b, a),
{
    lemma_sites_plus_comm(a.sites, b.sites);
    crate::stats::lemma_stats_plus_comm(a.tags, b.tags);
    assert(global_plus(a, b) =~= global_plus(b, a));
}

/// Merging a source mapping extended by a fresh name inserts the merged
/// aggregate.
pub proof fn lemma_sites_plus_insert(
    a: Map<Seq<char>, SiteV>,
    b: Map<Seq<char>, SiteV>,
    k: Seq<char>,
    s: SiteV,
)
    requires
        !b.contains_key(k),
    ensures
        a.contains_key(k) ==> sites_plus(a, b.insert(k, s)) == sites_plus(a, b).insert(
            k,
            site_plus(a[k], s),
        ),
        !a.contains_key(k) ==> sites_plus(a, b.insert(k, s)) == sites_plus(a, b).insert(k, s),
{
    if a.contains_key(k) {
        assert(sites_plus(a, b.insert(k, s)) =~= sites_plus(a, b).insert(k, site_plus(a[k], s)));
    } else {
        assert(sites_plus(a, b.insert(k, s)) =~= sites_plus(a, b).insert(k, s));
    }
}

/// The views of a sequence of named partitions, each a source name with the
/// records scanned out of it.
pub open spec fn partition_views(ps: Seq<(String, Vec<Line>)>) -> Seq<(Seq<char>, Seq<LineV>)> {
    ps.map_values(|p: (String, Vec<Line>)| (p.0@, lines_views(p.1@)))
}

/// The report before any partition was folded in.
pub open spec fn empty_report_v(padron: Seq<char>) -> ReportV {
    ReportV { padron, sites: Map::empty(), tags: Map::empty(), totals: Map::empty() }
}

/// One reduce step: a source aggregate folds into the report's source
/// mapping, and its tag counters into the global tag totals.
pub open spec fn report_step(g: ReportV, name: Seq<char>, s: SiteV) -> ReportV {
    ReportV {
        padron: g.padron,
        sites: if g.sites.contains_key(name) {
            g.sites.insert(name, site_plus(g.sites[name], s))
        } else {
            g.sites.insert(name, s)
        },
        tags: stats_plus(g.tags, s.tags),
        totals: g.totals,
    }
}

/// The report of a sequence of partitions: every partition's aggregate
/// folded into the empty report, the rankings not yet computed.
pub open spec fn partitions_report_v(padron: Seq<char>, parts: Seq<(Seq<char>, Seq<LineV>)>) -> ReportV
    decreases parts.len(),
{
    if parts.len() == 0 {
        empty_report_v(padron)
    } else {
        report_step(
            partitions_report_v(padron, parts.drop_last()),
            parts.last().0,
            lines_site_v(parts.last().1),
        )
    }
}

/// All counters of the report are representable on the machine.
pub open spec fn report_fits(g: ReportV) -> bool {
    &&& forall|k: Seq<char>| #[trigger] g.sites.contains_key(k) ==> site_fits(g.sites[k])
    &&& forall|k: Seq<char>| #[trigger] g.tags.contains_key(k) ==> tag_fits(g.tags[k])
}

/// All counters of the report are non-negative.
pub open spec fn report_ok(g: ReportV) -> bool {
    &&& forall|k: Seq<char>| #[trigger] g.sites.contains_key(k) ==> site_ok(g.sites[k])
    &&& forall|k: Seq<char>| #[trigger] g.tags.contains_key(k) ==> 0 <= g.tags[k].questions && 0
        <= g.tags[k].words
}

/// One source mapping is dominated by another, source by source.
pub open spec fn sites_le_m(a: Map<Seq<char>, SiteV>, b: Map<Seq<char>, SiteV>) -> bool {
    forall|k: Seq<char>| #[trigger] a.contains_key(k) ==> b.contains_key(k) && site_le(a[k], b[k])
}

/// One report is dominated by another in every counter.
pub open spec fn report_le(a: ReportV, b: ReportV) -> bool {
    sites_le_m(a.sites, b.sites) && stats_le(a.tags, b.tags)
}

/// A reduce step dominates the report it starts from and the aggregate it
/// folds in.
pub proof fn lemma_report_step_le(g: ReportV, name: Seq<char>, s: SiteV)
    requires
        report_ok(g),
        site_ok(s),
    ensures
        report_le(g, report_step(g, name, s)),
        report_ok(report_step(g, name, s)),
        report_step(g, name, s).sites.contains_key(name),
        site_le(s, report_step(g, name, s).sites[name]),
{
    let st = report_step(g, name, s);
    if g.sites.contains_key(name) {
        lemma_site_plus_le(g.sites[name], s);
    }
    assert forall|k: Seq<char>| #[trigger]
        g.sites.contains_key(k) implies st.sites.contains_key(k) && site_le(
        g.sites[k],
        st.sites[k],
    ) by {
        if k == name {
        } else {
            assert(st.sites[k] == g.sites[k]);
        }
    }
    assert forall|k: Seq<char>| #[trigger]
        g.tags.contains_key(k) implies st.tags.contains_key(k) && tag_le(g.tags[k], st.tags[k]) by {
        if s.tags.contains_key(k) {
            assert(st.tags[k] == tag_plus(g.tags[k], s.tags[k]));
        } else {
            assert(st.tags[k] == g.tags[k]);
        }
    }
    assert forall|k: Seq<char>| #[trigger] st.sites.contains_key(k) implies site_ok(st.sites[k]) by {
        if k == name {
            if !g.sites.contains_key(name) {
                assert(st.sites[k] == s);
            }
        } else {
            assert(st.sites[k] == g.sites[k]);
        }
    }
    assert forall|k: Seq<char>| #[trigger]
        st.tags.contains_key(k) implies 0 <= st.tags[k].questions && 0 <= st.tags[k].words by {
        if g.tags.contains_key(k) && s.tags.contains_key(k) {
            assert(st.tags[k] == tag_plus(g.tags[k], s.tags[k]));
        } else if g.tags.contains_key(k) {
            assert(st.tags[k] == g.tags[k]);
        } else {
            assert(st.tags[k] == s.tags[k]);
        }
    }
}

/// Domination of reports is transitive.
pub proof fn lemma_report_le_trans(a: ReportV, b: ReportV, c: ReportV)
    requires
        report_le(a, b),
        report_le(b, c),
    ensures
        report_le(a, c),
{
    assert forall|k: Seq<char>| #[trigger]
        a.sites.contains_key(k) implies c.sites.contains_key(k) && site_le(
        a.sites[k],
        c.sites[k],
    ) by {
        lemma_site_le_trans(a.sites[k], b.sites[k], c.sites[k]);
    }
}

/// Domination carries machine representability downward.
pub proof fn lemma_report_le_fits(a: ReportV, b: ReportV)
    requires
        report_le(a, b),
        report_ok(a),
        report_fits(b),
    ensures
        report_fits(a),
{
    assert forall|k: Seq<char>| #[trigger] a.sites.contains_key(k) implies site_fits(
        a.sites[k],
    ) by {
        lemma_site_le_fits(a.sites[k], b.sites[k]);
    }
}

/// The report of a prefix of the partitions is dominated by the report of
/// all of them.
pub proof fn lemma_partitions_prefix_le(
    padron: Seq<char>,
    parts: Seq<(Seq<char>, Seq<LineV>)>,
    i: int,
)
    requires
        0 <= i <= parts.len(),
    ensures
        report_le(partitions_report_v(padron, parts.take(i)), partitions_report_v(padron, parts)),
        report_ok(partitions_report_v(padron, parts.take(i))),
    decreases parts.len() - i,
{
    if i == parts.len() {
        assert(parts.take(i) =~= parts);
        lemma_partitions_report_ok(padron, parts);
    } else {
        assert(parts.take(i + 1).drop_last() =~= parts.take(i));
        assert(parts.take(i + 1).last() == parts[i]);
        lemma_partitions_report_ok(padron, parts.take(i));
        lemma_lines_site_ok(parts[i].1);
        lemma_report_step_le(
            partitions_report_v(padron, parts.take(i)),
            parts[i].0,
            lines_site_v(parts[i].1),
        );
        lemma_partitions_prefix_le(padron, parts, i + 1);
        lemma_report_le_trans(
            partitions_report_v(padron, parts.take(i)),
            partitions_report_v(padron, parts.take(i + 1)),
            partitions_report_v(padron, parts),
        );
    }
}

/// Every fold of partitions gives a non-negative report.
pub proof fn lemma_partitions_report_ok(padron: Seq<char>, parts: Seq<(Seq<char>, Seq<LineV>)>)
    ensures
        report_ok(partitions_report_v(padron, parts)),
    decreases parts.len(),
{
    if parts.len() > 0 {
        lemma_partitions_report_ok(padron, parts.drop_last());
        lemma_lines_site_ok(parts.last().1);
        lemma_report_step_le(
            partitions_report_v(padron, parts.drop_last()),
            parts.last().0,
            lines_site_v(parts.last().1),
        );
    }
}

/// Every counter of the list belongs to at least one record, so no ratio
/// divides by zero.
pub open spec fn counters_positive(entries: Seq<(String, Tag)>) -> bool {
    forall|i: int| 0 <= i < entries.len() ==> (#[trigger] entries[i].1).questions >= 1
}

/// The ranking items of the source mapping: each source name with its own
/// question and word counters.
pub open spec fn site_pairs(s: Seq<(String, Site)>) -> Seq<(Seq<char>, TagV)> {
    s.map_values(
        |p: (String, Site)|
            (p.0@, TagV { questions: p.1.questions as int, words: p.1.words as int }),
    )
}

/// The ranking items of one source mapping, ready to rank.
fn site_items(sites: &Vec<(String, Site)>) -> (r: Vec<(String, Tag)>)
    ensures
        pair_views(r@) == site_pairs(sites@),
        r@.len() == sites@.len(),
        forall|i: int| 0 <= i < r@.len() ==> (#[trigger] r@[i]).0@ == sites@[i].0@
            && r@[i].1.questions == sites@[i].1.questions,
        keys_distinct(sites@) ==> keys_distinct_tags(r@),
{
    let mut r: Vec<(String, Tag)> = Vec::new();
    let mut i: usize = 0;
    while i < sites.len()
        invariant
            i <= sites@.len(),
            r@.len() == i,
            forall|k: int| 0 <= k < i ==> (#[trigger] r@[k]).0@ == sites@[k].0@
                && r@[k].1.questions == sites@[k].1.questions && r@[k].1.words
                == sites@[k].1.words,
        decreases sites@.len() - i,
    {
        r.push((sites[i].0.clone(), Tag::new(sites[i].1.questions, sites[i].1.words)));
        i += 1;
    }
    proof {
        assert(pair_views(r@) =~= site_pairs(sites@));
    }
    r
}

/// A copy of the keyed counters of one mapping, ready to rank.
fn tag_items(tags: &Vec<(String, Tag)>) -> (r: Vec<(String, Tag)>)
    ensures
        pair_views(r@) == pair_views(tags@),
        r@.len() == tags@.len(),
        forall|i: int| 0 <= i < r@.len() ==> (#[trigger] r@[i]).0@ == tags@[i].0@ && r@[i].1
            == tags@[i].1,
        keys_distinct_tags(tags@) ==> keys_distinct_tags(r@),
{
    let mut r: Vec<(String, Tag)> = Vec::new();
    let mut i: usize = 0;
    while i < tags.len()
        invariant
            i <= tags@.len(),
            r@.len() == i,
            forall|k: int| 0 <= k < i ==> (#[trigger] r@[k]).0@ == tags@[k].0@ && r@[k].1
                == tags@[k].1,
        decreases tags@.len() - i,
    {
        r.push((tags[i].0.clone(), tags[i].1));
        i += 1;
    }
    proof {
        assert(pair_views(r@) =~= pair_views(tags@));
    }
    r
}

/// Sets the value of one key of the rankings mapping, replacing an earlier
/// value of the same key.
fn totals_set(entries: &mut Vec<(String, Vec<String>)>, name: String, value: Vec<String>)
    requires
        keys_distinct(old(entries)@),
    ensures
        keys_distinct(final(entries)@),
        keyed_view(final(entries)@) == keyed_view(old(entries)@).insert(name@, value.deep_view()),
{
    match keyed_find(entries, &name) {
        Some(i) => {
            let ghost pre = entries@;
            let _replaced = entries.remove(i);
            let p = (name, value);
            let ghost pv = p;
            entries.insert(i, p);
            proof {
                assert(entries@ =~= pre.update(i as int, pv));
                lemma_keyed_view_update(pre, i as int, pv);
            }
        },
        None => {
            proof {
                lemma_keyed_view_dom(entries@);
            }
            let ghost prev = entries@;
            let ghost k = name@;
            entries.push((name, value));
            proof {
                assert(entries@.drop_last() =~= prev);
                assert forall|a: int, b: int|
                    0 <= a < b < entries@.len() implies entries@[a].0@ != entries@[b].0@ by {
                    if b < prev.len() {
                        assert(entries@[a] == prev[a] && entries@[b] == prev[b]);
                    } else {
                        assert(entries@[a] == prev[a]);
                        assert(entries@[b].0@ == k);
                    }
                }
            }
        },
    }
}

impl ProcessedSites {
    /// Keys of every mapping are distinct and every source aggregate is
    /// well formed: the well-formedness of a report.
    pub open spec fn wf(&self) -> bool {
        &&& keys_distinct(self.sites@)
        &&& keys_distinct_tags(self.tags@)
        &&& keys_distinct(self.totals@)
        &&& forall|i: int| 0 <= i < self.sites@.len() ==> (#[trigger] self.sites@[i].1).wf()
    }

    /// Builds a report from parts that were computed beforehand.
    pub fn new(
        padron: String,
        sites: Vec<(String, Site)>,
        tags: Vec<(String, Tag)>,
        totals: Vec<(String, Vec<String>)>,
    ) -> (r: ProcessedSites)
        requires
            keys_distinct(sites@),
            keys_distinct_tags(tags@),
            keys_distinct(totals@),
            forall|i: int| 0 <= i < sites@.len() ==> (#[trigger] sites@[i].1).wf(),
        ensures
            r.padron == padron,
            r.sites == sites,
            r.tags == tags,
            r.totals == totals,
            r.wf(),
    {
        ProcessedSites { padron, sites, tags, totals }
    }

    /// The reduce step: merges one source aggregate into the report, both
    /// into its entry of the source mapping and into the global tag totals.
    pub fn add_site(&mut self, name: String, site: Site)
        requires
            old(self).wf(),
            site.wf(),
            old(self)@.sites.contains_key(name@) ==> site_fits(
                site_plus(old(self)@.sites[name@], site@),
            ),
            stats_can_add(old(self)@.tags, site@.tags),
        ensures
            final(self).wf(),
            final(self)@.padron == old(self)@.padron,
            final(self)@.totals == old(self)@.totals,
            final(self)@.tags == stats_plus(old(self)@.tags, site@.tags),
            final(self)@.sites == (if old(self)@.sites.contains_key(name@) {
                old(self)@.sites.insert(name@, site_plus(old(self)@.sites[name@], site@))
            } else {
                old(self)@.sites.insert(name@, site@)
            }),
    {
        stats_add_all(&mut self.tags, &site.tags);
        match keyed_find(&self.sites, &name) {
            Some(i) => {
                proof {
                    lemma_keyed_view_index(self.sites@, i as int);
                    let merged = site_plus(old(self)@.sites[name@], site@);
                    assert forall|k: Seq<char>|
                        #![trigger old(self)@.sites[name@].tags.contains_key(k)]
                        #![trigger site@.tags.contains_key(k)]
                        old(self)@.sites[name@].tags.contains_key(k) && site@.tags.contains_key(
                            k,
                        ) implies tag_fits(
                        tag_plus(old(self)@.sites[name@].tags[k], site@.tags[k]),
                    ) by {
                        assert(merged.tags.contains_key(k));
                        assert(merged.tags[k] == tag_plus(
                            old(self)@.sites[name@].tags[k],
                            site@.tags[k],
                        ));
                    }
                }
                let mut entry = self.sites.remove(i);
                entry.1.add(&site);
                let ghost updated = old(self).sites@.update(i as int, entry);
                self.sites.insert(i, entry);
                proof {
                    assert(self.sites@ =~= updated);
                    lemma_keyed_view_update(old(self).sites@, i as int, entry);
                }
            },
            None => {
                proof {
                    lemma_keyed_view_dom(self.sites@);
                }
                let ghost prev = self.sites@;
                self.sites.push((name, site));
                proof {
                    assert(self.sites@.drop_last() =~= prev);
                }
            },
        }
    }

    /// True when merging `other` into this report overflows no counter.
    pub fn can_merge(&self, other: &ProcessedSites) -> (r: bool)
        requires
            self.wf(),
            other.wf(),
        ensures
            r == (sites_can_add(self@.sites, other@.sites) && stats_can_add(
                self@.tags,
                other@.tags,
            )),
    {
        let mut i: usize = 0;
        let mut ok = stats_can_merge(&self.tags, &other.tags);
        while i < other.sites.len()
            invariant
                i <= other.sites@.len(),
                self.wf(),
                other.wf(),
                ok ==> stats_can_add(self@.tags, other@.tags),
                !ok ==> !(sites_can_add(self@.sites, other@.sites) && stats_can_add(
                    self@.tags,
                    other@.tags,
                )),
                ok ==> forall|j: int|
                    0 <= j < i && self@.sites.contains_key(#[trigger] other.sites@[j].0@)
                        ==> site_fits(
                        site_plus(self@.sites[other.sites@[j].0@], other.sites@[j].1@),
                    ),
            decreases other.sites@.len() - i,
        {
            if ok {
                match keyed_find(&self.sites, &other.sites[i].0) {
                    Some(j) => {
                        proof {
                            lemma_keyed_view_index(self.sites@, j as int);
                            lemma_keyed_view_index(other.sites@, i as int);
                        }
                        if !self.sites[j].1.can_add(&other.sites[i].1) {
                            ok = false;
                        }
                    },
                    None => {
                        proof {
                            lemma_keyed_view_dom(self.sites@);
                        }
                    },
                }
            }
            i += 1;
        }
        proof {
            if ok {
                lemma_keyed_view_dom(other.sites@);
                assert forall|k: Seq<char>|
                    self@.sites.contains_key(k) && other@.sites.contains_key(k) implies site_fits(
                    site_plus(self@.sites[k], other@.sites[k]),
                ) by {
                    let j = choose|j: int| 0 <= j < other.sites@.len() && other.sites@[j].0@ == k;
                    lemma_keyed_view_index(other.sites@, j);
                }
            }
        }
        ok
    }

    /// The merge of two reports: every source aggregate of `other` merges
    /// into this report's source mapping and the two tag-total mappings
    /// merge; the identifier and the rankings stay this report's own.
    pub fn merge(&mut self, other: &ProcessedSites)
        requires
            old(self).wf(),
            other.wf(),
            sites_can_add(old(self)@.sites, other@.sites),
            stats_can_add(old(self)@.tags, other@.tags),
        ensures
            final(self).wf(),
            final(self)@ == global_plus(old(self)@, other@),
    {
        stats_add_all(&mut self.tags, &other.tags);
        let ghost m0 = keyed_view(old(self).sites@);
        let mut i: usize = 0;
        while i < other.sites.len()
            invariant
                i <= other.sites@.len(),
                other.wf(),
                self.wf(),
                self.padron == old(self).padron,
                self.totals == old(self).totals,
                keys_distinct_tags(self.tags@),
                stats_view(self.tags@) == stats_plus(
                    stats_view(old(self).tags@),
                    stats_view(other.tags@),
                ),
                sites_can_add(m0, keyed_view(other.sites@)),
                keyed_view(self.sites@) == sites_plus(m0, keyed_view(other.sites@.take(i as int))),
            decreases other.sites@.len() - i,
        {
            let ghost mi = keyed_view(other.sites@.take(i as int));
            let ghost k = other.sites@[i as int].0@;
            proof {
                lemma_keyed_view_dom(other.sites@.take(i as int));
                assert forall|j: int| 0 <= j < i implies other.sites@.take(i as int)[j].0@ != k by {
                    assert(other.sites@.take(i as int)[j] == other.sites@[j]);
                }
                assert(!mi.contains_key(k));
                lemma_keyed_view_index(other.sites@, i as int);
                lemma_keyed_view_take_step(other.sites@, i as int);
                lemma_sites_plus_insert(m0, mi, k, other.sites@[i as int].1@);
            }
            let dup = other.sites[i].1.duplicate();
            match keyed_find(&self.sites, &other.sites[i].0) {
                Some(j) => {
                    proof {
                        lemma_keyed_view_index(self.sites@, j as int);
                        let a = keyed_view(self.sites@)[k];
                        let b = other.sites@[i as int].1@;
                        assert(a == m0[k]);
                        assert(site_fits(site_plus(a, b)));
                        assert forall|kk: Seq<char>|
                            #![trigger a.tags.contains_key(kk)]
                            #![trigger b.tags.contains_key(kk)]
                            a.tags.contains_key(kk) && b.tags.contains_key(kk) implies tag_fits(
                            tag_plus(a.tags[kk], b.tags[kk]),
                        ) by {
                            assert(site_plus(a, b).tags.contains_key(kk));
                            assert(site_plus(a, b).tags[kk] == tag_plus(a.tags[kk], b.tags[kk]));
                        }
                    }
                    let ghost pre = self.sites@;
                    let mut entry = self.sites.remove(j);
                    entry.1.add(&dup);
                    let ghost ev = entry;
                    self.sites.insert(j, entry);
                    proof {
                        assert(self.sites@ =~= pre.update(j as int, ev));
                        lemma_keyed_view_update(pre, j as int, ev);
                        assert(ev.0@ == k);
                        assert(ev.1@ == site_plus(m0[k], other.sites@[i as int].1@));
                        assert(keyed_view(self.sites@) =~= sites_plus(
                            m0,
                            keyed_view(other.sites@.take(i + 1)),
                        ));
                    }
                },
                None => {
                    proof {
                        lemma_keyed_view_dom(self.sites@);
                    }
                    let ghost prev = self.sites@;
                    self.sites.push((other.sites[i].0.clone(), dup));
                    proof {
                        assert(self.sites@.drop_last() =~= prev);
                        assert(!keyed_view(prev).contains_key(k));
                        assert(!m0.contains_key(k));
                        assert forall|a: int, b: int|
                            0 <= a < b < self.sites@.len() implies self.sites@[a].0@
                            != self.sites@[b].0@ by {
                            if b < prev.len() {
                                assert(self.sites@[a] == prev[a] && self.sites@[b] == prev[b]);
                            } else {
                                assert(self.sites@[a] == prev[a]);
                                assert(self.sites@[b].0@ == k);
                            }
                        }
                        assert(keyed_view(self.sites@) == keyed_view(prev).insert(
                            k,
                            self.sites@.last().1@,
                        ));
                        assert(keyed_view(self.sites@) =~= sites_plus(
                            m0,
                            keyed_view(other.sites@.take(i + 1)),
                        ));
                    }
                },
            }
            i += 1;
        }
        proof {
            assert(other.sites@.take(other.sites@.len() as int) =~= other.sites@);
            assert(self@ =~= global_plus(old(self)@, other@));
        }
    }

    /// Every ratio the ranking phase will form has a positive denominator.
    pub open spec fn report_positive(&self) -> bool {
        &&& forall|i: int| 0 <= i < self.sites@.len() ==> (#[trigger] self.sites@[i]).1.questions >= 1
        &&& counters_positive(self.tags@)
        &&& forall|i: int| 0 <= i < self.sites@.len() ==> counters_positive(
            (#[trigger] self.sites@[i]).1.tags@,
        )
    }

    /// The ranking phase, run once after all merging is final: computes the
    /// bounded "chatty" ranking of the sources and of the global tags into
    /// the rankings mapping, and each source's own tag ranking into that
    /// source's aggregate. Counters are not changed.
    pub fn process_chatty(&mut self)
        requires
            old(self).wf(),
            old(self).report_positive(),
        ensures
            final(self).wf(),
            final(self).padron == old(self).padron,
            final(self).tags == old(self).tags,
            final(self).sites@.len() == old(self).sites@.len(),
            forall|i: int|
                0 <= i < old(self).sites@.len() ==> {
                    &&& (#[trigger] final(self).sites@[i]).0 == old(self).sites@[i].0
                    &&& final(self).sites@[i].1.questions == old(self).sites@[i].1.questions
                    &&& final(self).sites@[i].1.words == old(self).sites@[i].1.words
                    &&& final(self).sites@[i].1.tags == old(self).sites@[i].1.tags
                    &&& exists|r: Seq<Seq<char>>|
                        ranking_of(r, pair_views(old(self).sites@[i].1.tags@)) && final(self).sites@[i].1.chatty_tags.deep_view() == old(self).sites@[i].1.chatty_tags.deep_view() + r
                },
            exists|cs: Seq<Seq<char>>, ct: Seq<Seq<char>>|
                {
                    &&& ranking_of(cs, site_pairs(old(self).sites@))
                    &&& ranking_of(ct, pair_views(old(self).tags@))
                    &&& final(self)@.totals == old(self)@.totals.insert(
                        "chatty_sites"@,
                        cs,
                    ).insert("chatty_tags"@, ct)
                },
    {
        let items = site_items(&self.sites);
        proof {
            assert forall|i: int| 0 <= i < items@.len() implies (#[trigger] items@[i]).1.questions >= 1 by {
                assert(self.sites@[i].1.questions >= 1);
            }
        }
        let cs = get_chatty(items);
        let ghost csv = cs.deep_view();
        totals_set(&mut self.totals, "chatty_sites".to_owned(), cs);
        let titems = tag_items(&self.tags);
        proof {
            assert forall|i: int| 0 <= i < titems@.len() implies (#[trigger] titems@[i]).1.questions >= 1 by {
                assert(self.tags@[i].1.questions >= 1);
            }
        }
        let ct = get_chatty(titems);
        let ghost ctv = ct.deep_view();
        totals_set(&mut self.totals, "chatty_tags".to_owned(), ct);
        let ghost totals_after = keyed_view(self.totals@);
        let mut i: usize = 0;
        while i < self.sites.len()
            invariant
                i <= self.sites@.len(),
                old(self).wf(),
                old(self).report_positive(),
                self.padron == old(self).padron,
                self.tags == old(self).tags,
                keys_distinct(self.totals@),
                keyed_view(self.totals@) == totals_after,
                self.sites@.len() == old(self).sites@.len(),
                keys_distinct(old(self).sites@),
                forall|k: int| i <= k < self.sites@.len() ==> self.sites@[k] == old(self).sites@[k],
                forall|k: int|
                    0 <= k < i ==> {
                        &&& (#[trigger] self.sites@[k]).0 == old(self).sites@[k].0
                        &&& self.sites@[k].1.questions == old(self).sites@[k].1.questions
                        &&& self.sites@[k].1.words == old(self).sites@[k].1.words
                        &&& self.sites@[k].1.tags == old(self).sites@[k].1.tags
                        &&& exists|r: Seq<Seq<char>>|
                            ranking_of(r, pair_views(old(self).sites@[k].1.tags@))
                                && self.sites@[k].1.chatty_tags.deep_view() == old(self).sites@[k].1.chatty_tags.deep_view() + r
                    },
            decreases self.sites@.len() - i,
        {
            let ghost pre = self.sites@;
            let mut entry = self.sites.remove(i);
            let titems2 = tag_items(&entry.1.tags);
            proof {
                assert(entry == old(self).sites@[i as int]);
                assert(old(self).sites@[i as int].1.wf());
                assert(counters_positive(old(self).sites@[i as int].1.tags@));
                assert(entry.1.wf());
                assert forall|k: int| 0 <= k < titems2@.len() implies (#[trigger] titems2@[k]).1.questions >= 1 by {
                    assert(entry.1.tags@[k].1.questions >= 1);
                }
            }
            let mut rk = get_chatty(titems2);
            let ghost rkv = rk.deep_view();
            let ghost rk0 = rk@;
            let ghost chatty0 = entry.1.chatty_tags@;
            entry.1.chatty_tags.append(&mut rk);
            let ghost ev = entry;
            self.sites.insert(i, entry);
            proof {
                assert(self.sites@ =~= pre.update(i as int, ev));
                assert(ev.1.chatty_tags.deep_view() =~= old(self).sites@[i as int].1.chatty_tags.deep_view() + rkv) by {
                    assert(ev.1.chatty_tags@ == chatty0 + rk0);
                    assert forall|k: int|
                        0 <= k < ev.1.chatty_tags@.len() implies ev.1.chatty_tags.deep_view()[k]
                        == (old(self).sites@[i as int].1.chatty_tags.deep_view() + rkv)[k] by {
                        assert(ev.1.chatty_tags.deep_view()[k] == ev.1.chatty_tags@[k]@);
                        if k < chatty0.len() {
                            assert(ev.1.chatty_tags@[k] == chatty0[k]);
                        } else {
                            assert(ev.1.chatty_tags@[k] == rk0[k - chatty0.len()]);
                            assert(rkv[k - chatty0.len()] == rk0[k - chatty0.len()]@);
                        }
                    }
                }
                assert(ranking_of(rkv, pair_views(old(self).sites@[i as int].1.tags@)));
            }
            i += 1;
        }
        proof {
            assert forall|a: int, b: int|
                0 <= a < b < self.sites@.len() implies self.sites@[a].0@ != self.sites@[b].0@ by {
                assert(self.sites@[a].0@ == old(self).sites@[a].0@);
                assert(self.sites@[b].0@ == old(self).sites@[b].0@);
            }
            assert forall|k: int| 0 <= k < self.sites@.len() implies (#[trigger] self.sites@[k]).1.wf() by {
                assert(self.sites@[k].1.tags == old(self).sites@[k].1.tags);
            }
            assert(ranking_of(csv, site_pairs(old(self).sites@)) && ranking_of(
                ctv,
                pair_views(old(self).tags@),
            ) && final(self)@.totals == old(self)@.totals.insert("chatty_sites"@, csv).insert(
                "chatty_tags"@,
                ctv,
            ));
        }
    }

    /// True when folding `site` in under `name` overflows no counter.
    fn can_add_site(&self, name: &String, site: &Site) -> (r: bool)
        requires
            self.wf(),
            site.wf(),
        ensures
            r == ((self@.sites.contains_key(name@) ==> site_fits(
                site_plus(self@.sites[name@], site@),
            )) && stats_can_add(self@.tags, site@.tags)),
    {
        let tags_ok = stats_can_merge(&self.tags, &site.tags);
        let entry_ok = match keyed_find(&self.sites, name) {
            Some(j) => {
                proof {
                    lemma_keyed_view_index(self.sites@, j as int);
                }
                self.sites[j].1.can_add(site)
            },
            None => {
                proof {
                    lemma_keyed_view_dom(self.sites@);
                }
                true
            },
        };
        tags_ok && entry_ok
    }
}

/// The whole pipeline on partitions that were already read and decoded: the
/// scan of every partition into its source aggregate and the reduce of all
/// aggregates into one report, under the given identifier. The rankings are
/// not yet computed. Returns nothing exactly when a total of the report
/// would overflow a machine counter.
pub fn process_partitions(padron: String, partitions: &Vec<(String, Vec<Line>)>) -> (r: Option<
    ProcessedSites,
>)
    ensures
        match r {
            Some(ps) => ps@ == partitions_report_v(padron@, partition_views(partitions@))
                && ps.wf(),
            None => !report_fits(partitions_report_v(padron@, partition_views(partitions@))),
        },
{
    let ghost pv = partition_views(partitions@);
    let mut ps = ProcessedSites::new(padron, Vec::new(), Vec::new(), Vec::new());
    proof {
        assert(ps@ =~= partitions_report_v(padron@, pv.take(0)));
    }
    let mut i: usize = 0;
    while i < partitions.len()
        invariant
            i <= pv.len(),
            pv == partition_views(partitions@),
            partitions@.len() == pv.len(),
            ps.wf(),
            ps@ == partitions_report_v(padron@, pv.take(i as int)),
        decreases pv.len() - i,
    {
        let ghost g = partitions_report_v(padron@, pv.take(i as int));
        let ghost name_v = pv[i as int].0;
        proof {
            assert(pv[i as int] == (partitions@[i as int].0@, lines_views(partitions@[i as int].1@)));
            assert(pv.take(i + 1).drop_last() =~= pv.take(i as int));
            assert(pv.take(i + 1).last() == pv[i as int]);
            lemma_partitions_report_ok(padron@, pv.take(i as int));
            lemma_lines_site_ok(pv[i as int].1);
            lemma_report_step_le(g, name_v, lines_site_v(pv[i as int].1));
        }
        let ghost s = lines_site_v(pv[i as int].1);
        let ghost next = partitions_report_v(padron@, pv.take(i + 1));
        match Site::fold_lines(&partitions[i].1) {
            None => {
                proof {
                    assert(!site_fits(s));
                    assert(site_le(s, next.sites[name_v]));
                    assert(!site_fits(next.sites[name_v])) by {
                        if site_fits(next.sites[name_v]) {
                            lemma_site_le_fits(s, next.sites[name_v]);
                        }
                    }
                    assert(!report_fits(next));
                    lemma_not_fits_carries(padron@, pv, i + 1);
                }
                return None;
            },
            Some(site) => {
                if !ps.can_add_site(&partitions[i].0, &site) {
                    proof {
                        assert(!report_fits(next)) by {
                            if report_fits(next) {
                                if g.sites.contains_key(name_v) {
                                    assert(next.sites[name_v] == site_plus(g.sites[name_v], s));
                                    assert(site_fits(site_plus(g.sites[name_v], site@)));
                                }
                                assert forall|k: Seq<char>|
                                    #![trigger g.tags.contains_key(k)]
                                    #![trigger site@.tags.contains_key(k)]
                                    g.tags.contains_key(k) && site@.tags.contains_key(
                                        k,
                                    ) implies tag_fits(tag_plus(g.tags[k], site@.tags[k])) by {
                                    assert(next.tags.contains_key(k));
                                    assert(next.tags[k] == tag_plus(g.tags[k], site@.tags[k]));
                                }
                                assert(stats_can_add(g.tags, site@.tags));
                            }
                        }
                        lemma_not_fits_carries(padron@, pv, i + 1);
                    }
                    return None;
                }
                ps.add_site(partitions[i].0.clone(), site);
                proof {
                    assert(ps@ =~= next);
                }
            },
        }
        i += 1;
    }
    proof {
        assert(pv.take(pv.len() as int) =~= pv);
    }
    Some(ps)
}

/// A report whose prefix already overflows cannot fit as a whole.
proof fn lemma_not_fits_carries(padron: Seq<char>, parts: Seq<(Seq<char>, Seq<LineV>)>, i: int)
    requires
        0 <= i <= parts.len(),
        !report_fits(partitions_report_v(padron, parts.take(i))),
    ensures
        !report_fits(partitions_report_v(padron, parts)),
{
    lemma_partitions_prefix_le(padron, parts, i);
    if report_fits(partitions_report_v(padron, parts)) {
        lemma_report_le_fits(
            partitions_report_v(padron, parts.take(i)),
            partitions_report_v(padron, parts),
        );
    }
}

} // verus!
