use vstd::prelude::*;
use crate::line::{Line, LineV};
use crate::stats::{
    keys_distinct_tags, lemma_stats_view_dom, stats_add_all, stats_can_add, stats_can_merge,
    stats_find, stats_plus, stats_view,
};
use crate::tag::{Tag, TagV, tag_fits, tag_le, tag_plus};
use crate::words::{count_words, join_texts, word_count};

verus! {

/// One data source: its question and word counts, the counters of every tag
/// that appears in it, and - once the ranking phase has run - its ten most
/// talkative tags.
pub struct Site {
    pub questions: usize,
    pub words: usize,
    pub tags: Vec<(String, Tag)>,
    pub chatty_tags: Vec<String>,
}

/// Mathematical counterpart of `Site`.
#[verifier::ext_equal]
pub ghost struct SiteV {
    pub questions: int,
    pub words: int,
    pub tags: Map<Seq<char>, TagV>,
    pub chatty_tags: Seq<Seq<char>>,
}

impl View for Site {
    type V = SiteV;

    open spec fn view(&self) -> SiteV {
        SiteV {
            questions: self.questions as int,
            words: self.words as int,
            tags: stats_view(self.tags@),
            chatty_tags: self.chatty_tags.deep_view(),
        }
    }
}

impl DeepView for Site {
    type V = SiteV;

    open spec fn deep_view(&self) -> SiteV {
        self@
    }
}

/// Merge of two aggregates of the same source: counters add field-wise and
/// the tag mappings merge; the ranking field is not part of the merge and
/// stays as the left operand's.
pub open spec fn site_plus(a: SiteV, b: SiteV) -> SiteV {
    SiteV {
        questions: a.questions + b.questions,
        words: a.words + b.words,
        tags: stats_plus(a.tags, b.tags),
        chatty_tags: a.chatty_tags,
    }
}

/// All counters of the aggregate are representable on the machine.
pub open spec fn site_fits(v: SiteV) -> bool {
    &&& 0 <= v.questions <= usize::MAX
    &&& 0 <= v.words <= usize::MAX
    &&& forall|k: Seq<char>| #[trigger] v.tags.contains_key(k) ==> tag_fits(v.tags[k])
}

/// All counters of the aggregate are non-negative.
pub open spec fn site_ok(v: SiteV) -> bool {
    &&& 0 <= v.questions
    &&& 0 <= v.words
    &&& forall|k: Seq<char>| #[trigger] v.tags.contains_key(k) ==> 0 <= v.tags[k].questions
        && 0 <= v.tags[k].words
}

/// One tag mapping is dominated by another, key by key.
pub open spec fn stats_le(a: Map<Seq<char>, TagV>, b: Map<Seq<char>, TagV>) -> bool {
    forall|k: Seq<char>| #[trigger]
        a.contains_key(k) ==> b.contains_key(k) && tag_le(a[k], b[k])
}

/// One aggregate is dominated by another in every counter.
pub open spec fn site_le(a: SiteV, b: SiteV) -> bool {
    a.questions <= b.questions && a.words <= b.words && stats_le(a.tags, b.tags)
}

/// Law: merging source aggregates is associative.
pub proof fn lemma_site_plus_assoc(a: SiteV, b: SiteV, c: SiteV)
    ensures
        site_plus(site_plus(a, b), c) == site_plus(a, site_plus(b, c)),
{
    crate::stats::lemma_stats_plus_assoc(a.tags, b.tags, c.tags);
    assert(site_plus(site_plus(a, b), c) =~= site_plus(a, site_plus(b, c)));
}

/// Law: merging source aggregates is commutative in every counter; it is a
/// full equality whenever the ranking fields agree, as they do before the
/// ranking phase, when both are empty.
pub proof fn lemma_site_plus_comm(a: SiteV, b: SiteV)
    ensures
        site_plus(a, b).questions == site_plus(b, a).questions,
        site_plus(a, b).words == site_plus(b, a).words,
        site_plus(a, b).tags == site_plus(b, a).tags,
        a.chatty_tags == b.chatty_tags ==> site_plus(a, b) == site_plus(b, a),
{
    crate::stats::lemma_stats_plus_comm(a.tags, b.tags);
    if a.chatty_tags == b.chatty_tags {
        assert(site_plus(a, b) =~= site_plus(b, a));
    }
}

/// A merge dominates both of its non-negative operands.
pub proof fn lemma_site_plus_le(a: SiteV, b: SiteV)
    requires
        site_ok(a),
        site_ok(b),
    ensures
        site_le(a, site_plus(a, b)),
        site_le(b, site_plus(a, b)),
        site_ok(site_plus(a, b)),
{
}

/// Domination carries machine representability downward.
pub proof fn lemma_site_le_fits(a: SiteV, b: SiteV)
    requires
        site_le(a, b),
        site_ok(a),
        site_fits(b),
    ensures
        site_fits(a),
{
}

/// Domination is transitive.
pub proof fn lemma_site_le_trans(a: SiteV, b: SiteV, c: SiteV)
    requires
        site_le(a, b),
        site_le(b, c),
    ensures
        site_le(a, c),
{
}

/// The tag mapping of one record: every tag of the record maps to one
/// question and the record's word count.
pub open spec fn tags_stats(tags: Seq<Seq<char>>, words: int) -> Map<Seq<char>, TagV>
    decreases tags.len(),
{
    if tags.len() == 0 {
        Map::empty()
    } else {
        tags_stats(tags.drop_last(), words).insert(tags.last(), TagV { questions: 1, words })
    }
}

/// Every value of a record's tag mapping is one question with the record's
/// word count.
pub proof fn lemma_tags_stats_value(tags: Seq<Seq<char>>, words: int)
    ensures
        forall|k: Seq<char>| #[trigger] tags_stats(tags, words).contains_key(k) ==> tags_stats(
            tags,
            words,
        )[k] == (TagV { questions: 1, words }),
    decreases tags.len(),
{
    if tags.len() > 0 {
        lemma_tags_stats_value(tags.drop_last(), words);
        assert forall|k: Seq<char>| #[trigger]
            tags_stats(tags, words).contains_key(k) implies tags_stats(tags, words)[k] == (TagV {
            questions: 1,
            words,
        }) by {
            if k != tags.last() {
                assert(tags_stats(tags.drop_last(), words).contains_key(k));
            }
        }
    }
}

/// The aggregate fragment of one record: one question, the record's word
/// count, and that same count attributed to each of its tags.
pub open spec fn line_site_v(l: LineV) -> SiteV {
    SiteV {
        questions: 1,
        words: word_count(join_texts(l.texts)) as int,
        tags: tags_stats(l.tags, word_count(join_texts(l.texts)) as int),
        chatty_tags: Seq::empty(),
    }
}

/// The empty aggregate: identity of the merge.
pub open spec fn zero_site_v() -> SiteV {
    SiteV { questions: 0, words: 0, tags: Map::empty(), chatty_tags: Seq::empty() }
}

/// The views of a sequence of records.
pub open spec fn lines_views(ls: Seq<Line>) -> Seq<LineV> {
    ls.map_values(|l: Line| l@)
}

/// The aggregate of a sequence of records of one source: the merge of all
/// their fragments, the empty aggregate for an empty sequence.
pub open spec fn lines_site_v(ls: Seq<LineV>) -> SiteV
    decreases ls.len(),
{
    if ls.len() == 0 {
        zero_site_v()
    } else {
        site_plus(lines_site_v(ls.drop_last()), line_site_v(ls.last()))
    }
}

/// Every record fragment is non-negative.
pub proof fn lemma_line_site_ok(l: LineV)
    ensures
        site_ok(line_site_v(l)),
{
    lemma_tags_stats_value(l.tags, word_count(join_texts(l.texts)) as int);
}

/// Every fold of record fragments is non-negative.
pub proof fn lemma_lines_site_ok(ls: Seq<LineV>)
    ensures
        site_ok(lines_site_v(ls)),
    decreases ls.len(),
{
    if ls.len() > 0 {
        lemma_lines_site_ok(ls.drop_last());
        lemma_line_site_ok(ls.last());
        lemma_site_plus_le(lines_site_v(ls.drop_last()), line_site_v(ls.last()));
    }
}

/// A fold over a prefix of the records is dominated by the fold over all of
/// them.
pub proof fn lemma_lines_site_le(ls: Seq<LineV>, i: int)
    requires
        0 <= i <= ls.len(),
    ensures
        site_le(lines_site_v(ls.take(i)), lines_site_v(ls)),
    decreases ls.len() - i,
{
    lemma_lines_site_ok(ls.take(i));
    if i == ls.len() {
        assert(ls.take(i) =~= ls);
        assert(site_le(lines_site_v(ls.take(i)), lines_site_v(ls)));
    } else {
        assert(ls.take(i + 1).drop_last() =~= ls.take(i));
        assert(ls.take(i + 1).last() == ls[i]);
        lemma_lines_site_ok(ls.take(i));
        lemma_line_site_ok(ls[i]);
        lemma_site_plus_le(lines_site_v(ls.take(i)), line_site_v(ls[i]));
        lemma_lines_site_le(ls, i + 1);
        lemma_site_le_trans(
            lines_site_v(ls.take(i)),
            lines_site_v(ls.take(i + 1)),
            lines_site_v(ls),
        );
    }
}

impl Site {
    /// Keys of the tag list are distinct: the well-formedness of a source
    /// aggregate.
    pub open spec fn wf(&self) -> bool {
        keys_distinct_tags(self.tags@)
    }

    /// Builds a source aggregate from its parts.
    pub fn new(questions: usize, words: usize, tags: Vec<(String, Tag)>, chatty_tags: Vec<
        String,
    >) -> (r: Site)
        ensures
            r.questions == questions,
            r.words == words,
            r.tags == tags,
            r.chatty_tags == chatty_tags,
    {
        Site { questions, words, tags, chatty_tags }
    }

    /// Adds another aggregate of the same source into this one, in place:
    /// counters add and tag entries merge without duplicating keys. The
    /// ranking field of the argument is not merged.
    pub fn add(&mut self, site: &Site)
        requires
            old(self).wf(),
            site.wf(),
            old(self)@.questions + site@.questions <= usize::MAX,
            old(self)@.words + site@.words <= usize::MAX,
            stats_can_add(old(self)@.tags, site@.tags),
        ensures
            final(self).wf(),
            final(self)@ == site_plus(old(self)@, site@),
    {
        self.questions = self.questions + site.questions;
        self.words = self.words + site.words;
        stats_add_all(&mut self.tags, &site.tags);
        proof {
            assert(self@ =~= site_plus(old(self)@, site@));
        }
    }

    /// True when adding `site` into this aggregate overflows no counter.
    pub fn can_add(&self, site: &Site) -> (r: bool)
        requires
            self.wf(),
            site.wf(),
        ensures
            r == site_fits(site_plus(self@, site@)),
    {
        let scalars_ok = self.questions <= usize::MAX - site.questions && self.words <= usize::MAX
            - site.words;
        let r = scalars_ok && stats_can_merge(&self.tags, &site.tags);
        proof {
            crate::stats::lemma_stats_view_fits(self.tags@);
            crate::stats::lemma_stats_view_fits(site.tags@);
            let sum = site_plus(self@, site@);
            if r {
                assert forall|k: Seq<char>| #[trigger]
                    sum.tags.contains_key(k) implies tag_fits(sum.tags[k]) by {
                    if self@.tags.contains_key(k) && site@.tags.contains_key(k) {
                    } else if self@.tags.contains_key(k) {
                        assert(sum.tags[k] == self@.tags[k]);
                    } else {
                        assert(sum.tags[k] == site@.tags[k]);
                    }
                }
                assert(site_fits(sum));
            } else if scalars_ok {
                assert(!stats_can_add(self@.tags, site@.tags));
                let k = choose|k: Seq<char>|
                    self@.tags.contains_key(k) && site@.tags.contains_key(k) && !tag_fits(
                        tag_plus(self@.tags[k], site@.tags[k]),
                    );
                assert(sum.tags.contains_key(k));
                assert(!tag_fits(sum.tags[k]));
                assert(!site_fits(sum));
            } else {
                assert(!site_fits(sum));
            }
        }
        r
    }

    /// An identical copy of this aggregate.
    pub fn duplicate(&self) -> (r: Site)
        ensures
            r@ == self@,
            r.tags@ == self.tags@,
            r.chatty_tags@ == self.chatty_tags@,
    {
        let mut tags: Vec<(String, Tag)> = Vec::new();
        let mut i: usize = 0;
        while i < self.tags.len()
            invariant
                i <= self.tags@.len(),
                tags@ =~= self.tags@.take(i as int),
            decreases self.tags@.len() - i,
        {
            tags.push((self.tags[i].0.clone(), self.tags[i].1));
            proof {
                assert(tags@ =~= self.tags@.take(i + 1));
            }
            i += 1;
        }
        let mut chatty_tags: Vec<String> = Vec::new();
        let mut j: usize = 0;
        while j < self.chatty_tags.len()
            invariant
                j <= self.chatty_tags@.len(),
                chatty_tags@ =~= self.chatty_tags@.take(j as int),
            decreases self.chatty_tags@.len() - j,
        {
            chatty_tags.push(self.chatty_tags[j].clone());
            proof {
                assert(chatty_tags@ =~= self.chatty_tags@.take(j + 1));
            }
            j += 1;
        }
        proof {
            assert(tags@ =~= self.tags@);
            assert(chatty_tags@ =~= self.chatty_tags@);
        }
        let r = Site { questions: self.questions, words: self.words, tags, chatty_tags };
        proof {
            assert(r@ =~= self@);
        }
        r
    }

    /// The map stage: turns one record into the aggregate fragment that
    /// represents exactly that record, with the record's word count
    /// attributed undivided to each of its tags.
    pub fn from_line(line: &Line) -> (r: Site)
        ensures
            r@ == line_site_v(line@),
            r.wf(),
    {
        let words: usize = count_words(&line.texts);
        let mut tags: Vec<(String, Tag)> = Vec::new();
        let ghost tv = line.tags.deep_view();
        let mut i: usize = 0;
        while i < line.tags.len()
            invariant
                i <= tv.len(),
                tv == line.tags.deep_view(),
                line.tags@.len() == tv.len(),
                forall|j: int| 0 <= j < tv.len() ==> tv[j] == line.tags@[j]@,
                keys_distinct_tags(tags@),
                stats_view(tags@) == tags_stats(tv.take(i as int), words as int),
            decreases tv.len() - i,
        {
            let ghost k = tv[i as int];
            proof {
                assert(tv.take(i + 1).drop_last() =~= tv.take(i as int));
                assert(tv.take(i + 1).last() == k);
            }
            match stats_find(&tags, &line.tags[i]) {
                Some(_) => {
                    proof {
                        lemma_stats_view_dom(tags@);
                        lemma_tags_stats_value(tv.take(i as int), words as int);
                        assert(stats_view(tags@).contains_key(k));
                        assert(stats_view(tags@).insert(k, TagV { questions: 1, words: words as int })
                            =~= stats_view(tags@));
                    }
                },
                None => {
                    proof {
                        lemma_stats_view_dom(tags@);
                    }
                    let ghost prev = tags@;
                    tags.push((line.tags[i].clone(), Tag::new(1, words)));
                    proof {
                        assert(tags@.drop_last() =~= prev);
                    }
                },
            }
            i += 1;
        }
        proof {
            assert(tv.take(tv.len() as int) =~= tv);
        }
        let r = Site { questions: 1, words, tags, chatty_tags: Vec::new() };
        proof {
            assert(r@ =~= line_site_v(line@));
        }
        r
    }

    /// The accumulator stage: folds the fragments of all records of one
    /// source into one aggregate, the empty aggregate for no records. Returns
    /// nothing exactly when the totals would overflow a counter.
    pub fn fold_lines(lines: &Vec<Line>) -> (r: Option<Site>)
        ensures
            match r {
                Some(s) => s@ == lines_site_v(lines_views(lines@)) && s.wf(),
                None => !site_fits(lines_site_v(lines_views(lines@))),
            },
    {
        let ghost lv = lines_views(lines@);
        let mut acc = Site::new(0, 0, Vec::new(), Vec::new());
        proof {
            assert(acc@ =~= lines_site_v(lv.take(0)));
        }
        let mut i: usize = 0;
        while i < lines.len()
            invariant
                i <= lv.len(),
                lv == lines_views(lines@),
                lines@.len() == lv.len(),
                acc.wf(),
                acc@ == lines_site_v(lv.take(i as int)),
            decreases lv.len() - i,
        {
            let frag = Site::from_line(&lines[i]);
            proof {
                assert(lv[i as int] == lines@[i as int]@);
                assert(lv.take(i + 1).drop_last() =~= lv.take(i as int));
                assert(lv.take(i + 1).last() == lv[i as int]);
            }
            if !acc.can_add(&frag) {
                proof {
                    lemma_lines_site_le(lv, i + 1);
                    lemma_lines_site_ok(lv.take(i + 1));
                    if site_fits(lines_site_v(lv)) {
                        lemma_site_le_fits(lines_site_v(lv.take(i + 1)), lines_site_v(lv));
                    }
                }
                return None;
            }
            proof {
                let sum = site_plus(acc@, frag@);
                assert forall|k: Seq<char>|
                    #![trigger acc@.tags.contains_key(k)]
                    #![trigger frag@.tags.contains_key(k)]
                    acc@.tags.contains_key(k) && frag@.tags.contains_key(k) implies tag_fits(
                    tag_plus(acc@.tags[k], frag@.tags[k]),
                ) by {
                    assert(sum.tags.contains_key(k));
                    assert(sum.tags[k] == tag_plus(acc@.tags[k], frag@.tags[k]));
                }
            }
            acc.add(&frag);
            i += 1;
        }
        proof {
            assert(lv.take(lv.len() as int) =~= lv);
        }
        Some(acc)
    }
}

} // verus!
