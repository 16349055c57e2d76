use vstd::prelude::*;

verus! {

/// One decoded record: the question texts of one line and the tags attached
/// to it. Ephemeral, produced by the decoding collaborator one line at a time.
pub struct Line {
    pub texts: Vec<String>,
    pub tags: Vec<String>,
}

/// Mathematical counterpart of `Line`.
pub ghost struct LineV {
    pub texts: Seq<Seq<char>>,
    pub tags: Seq<Seq<char>>,
}

impl View for Line {
    type V = LineV;

    open spec fn view(&self) -> LineV {
        LineV { texts: self.texts.deep_view(), tags: self.tags.deep_view() }
    }
}

impl Line {
    /// Builds a record from its question texts and tags.
    pub fn new(texts: Vec<String>, tags: Vec<String>) -> (r: Line)
        ensures
            r.texts == texts,
            r.tags == tags,
    {
        Line { texts, tags }
    }
}

} // verus!
