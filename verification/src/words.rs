use vstd::prelude::*;
use vstd::string::StrSliceExecFns;
use vstd::string::StringExecFns;

verus! {

/// Whether a character counts as whitespace for word splitting. Stands for
/// the Unicode whitespace property that `char::is_whitespace` decides, a
/// function of the character alone.
pub uninterp spec fn is_space(c: char) -> bool;

/// Relies on `char::is_whitespace`: whitespace per the Unicode `White_Space`
/// property, depending on the character alone; the documentation lists the
/// space character as whitespace.
#[verifier::external_body]
fn char_is_space(c: char) -> (r: bool)
    ensures
        r == is_space(c),
        c == ' ' ==> r,
{
    c.is_whitespace()
}

/// Number of words in a character sequence: maximal runs of non-whitespace
/// characters, counted by their first character.
pub open spec fn word_count(s: Seq<char>) -> nat
    decreases s.len(),
{
    if s.len() == 0 {
        0
    } else {
        word_count(s.drop_last()) + (if !is_space(s.last()) && (s.len() == 1 || is_space(
            s[s.len() - 2],
        )) {
            1nat
        } else {
            0nat
        })
    }
}

/// The texts of a record joined with one separating space between them.
pub open spec fn join_texts(ts: Seq<Seq<char>>) -> Seq<char>
    decreases ts.len(),
{
    if ts.len() == 0 {
        Seq::empty()
    } else if ts.len() == 1 {
        ts[0]
    } else {
        join_texts(ts.drop_last()) + seq![' '] + ts.last()
    }
}

/// Joins the given texts with a single space between consecutive ones.
pub fn join_all(texts: &Vec<String>) -> (r: String)
    ensures
        r@ == join_texts(texts.deep_view()),
{
    let mut r = String::new();
    let mut i: usize = 0;
    while i < texts.len()
        invariant
            i <= texts.len(),
            r@ == join_texts(texts.deep_view().take(i as int)),
        decreases texts.len() - i,
    {
        proof {
            reveal_strlit(" ");
            assert(texts.deep_view().take(i + 1).drop_last() =~= texts.deep_view().take(i as int));
            assert(texts.deep_view().take(i + 1).last() == texts.deep_view()[i as int]);
        }
        if i > 0 {
            r.append(" ");
            proof {
                assert(" "@ =~= seq![' ']);
            }
        }
        r.append(texts[i].as_str());
        i += 1;
    }
    proof {
        assert(texts.deep_view().take(texts@.len() as int) =~= texts.deep_view());
    }
    r
}

/// Counts the words of one character sequence, walking it left to right.
fn count_words_in(s: &str) -> (r: usize)
    ensures
        r == word_count(s@),
{
    let n: usize = s.unicode_len();
    let mut count: usize = 0;
    let mut prev_space = true;
    let mut i: usize = 0;
    while i < n
        invariant
            i <= n,
            n == s@.len(),
            count == word_count(s@.take(i as int)),
            count <= i,
            prev_space == (i == 0 || is_space(s@[i as int - 1])),
        decreases n - i,
    {
        let c = s.get_char(i);
        let sp = char_is_space(c);
        proof {
            assert(s@.take(i + 1).drop_last() =~= s@.take(i as int));
            assert(s@.take(i + 1).last() == s@[i as int]);
        }
        if !sp && prev_space {
            count = count + 1;
        }
        prev_space = sp;
        i += 1;
    }
    proof {
        assert(s@.take(n as int) =~= s@);
    }
    count
}

/// Number of whitespace-delimited words across all texts of a record, the
/// texts joined with a single separating space.
pub fn count_words(texts: &Vec<String>) -> (r: usize)
    ensures
        r == word_count(join_texts(texts.deep_view())),
{
    let joined = join_all(texts);
    count_words_in(joined.as_str())
}

} // verus!
