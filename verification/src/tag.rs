use vstd::prelude::*;

verus! {

/// Number of questions a tag appears in, and the total word count of those
/// questions. Also used as the per-source counter pair, where `questions` is
/// the number of records of the source and `words` their total word count.
#[derive(Clone, Copy, Debug)]
pub struct Tag {
    pub questions: usize,
    pub words: usize,
}

/// Mathematical counterpart of `Tag`, with unbounded integers.
pub ghost struct TagV {
    pub questions: int,
    pub words: int,
}

impl View for Tag {
    type V = TagV;

    open spec fn view(&self) -> TagV {
        TagV { questions: self.questions as int, words: self.words as int }
    }
}

/// Field-wise addition: the combination of two usage counters.
pub open spec fn tag_plus(a: TagV, b: TagV) -> TagV {
    TagV { questions: a.questions + b.questions, words: a.words + b.words }
}

/// Both counters are representable on the machine.
pub open spec fn tag_fits(a: TagV) -> bool {
    0 <= a.questions <= usize::MAX && 0 <= a.words <= usize::MAX
}

/// Component-wise comparison of counter pairs.
pub open spec fn tag_le(a: TagV, b: TagV) -> bool {
    a.questions <= b.questions && a.words <= b.words
}

/// Law: combining usage counters is commutative.
pub proof fn lemma_tag_plus_comm(a: TagV, b: TagV)
    ensures
        tag_plus(a, b) == tag_plus(b, a),
{
}

/// Law: combining usage counters is associative.
pub proof fn lemma_tag_plus_assoc(a: TagV, b: TagV, c: TagV)
    ensures
        tag_plus(tag_plus(a, b), c) == tag_plus(a, tag_plus(b, c)),
{
}

impl Tag {
    /// Builds a counter pair with the given number of questions and words.
    pub fn new(questions: usize, words: usize) -> (r: Tag)
        ensures
            r.questions == questions,
            r.words == words,
    {
        Tag { questions, words }
    }

    /// Adds another counter pair into this one, in place.
    pub fn add(&mut self, tag: &Tag)
        requires
            tag_fits(tag_plus(old(self)@, tag@)),
        ensures
            final(self)@ == tag_plus(old(self)@, tag@),
    {
        self.questions = self.questions + tag.questions;
        self.words = self.words + tag.words;
    }

    /// Adds another counter pair into this one, taking the addend by value.
    pub fn add_assign(&mut self, other: Tag)
        requires
            tag_fits(tag_plus(old(self)@, other@)),
        ensures
            final(self)@ == tag_plus(old(self)@, other@),
    {
        self.add(&other);
    }

    /// True when the field-wise sum of the two pairs fits in the counters.
    pub fn can_add(&self, other: &Tag) -> (r: bool)
        ensures
            r == tag_fits(tag_plus(self@, other@)),
    {
        self.questions <= usize::MAX - other.questions && self.words <= usize::MAX - other.words
    }
}

} // verus!
