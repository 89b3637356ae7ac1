//! Text-model tokenization: lowercase the input and split it into maximal
//! runs of alphanumeric characters.

use vstd::prelude::*;
use crate::strings::{runs, runs_from, views, lowercase_of, alphanumeric, to_lowercase, chars_of, is_alphanumeric, string_of_chars, lemma_runs_well_formed};

verus! {

/// The tokens of `text`: the maximal runs of alphanumeric characters of its
/// lowercase form, in order.
pub open spec fn tokens_of(text: Seq<char>) -> Seq<Seq<char>> {
    runs(lowercase_of(text), |c: char| alphanumeric(c))
}

/// Lowercase `text` and split it on non-alphanumeric characters, dropping
/// empty pieces.
pub fn tokenize(text: &str) -> (tokens: Vec<String>)
    ensures
        views(tokens@) == tokens_of(text@),
{
    let lower = to_lowercase(text);
    let cs = chars_of(lower.as_str());
    let ghost keep = |c: char| alphanumeric(c);
    let mut acc: Vec<String> = Vec::new();
    let mut cur: Vec<char> = Vec::new();
    let mut i: usize = 0;
    assert(cs@.skip(0) =~= cs@);
    assert(views(acc@) =~= Seq::<Seq<char>>::empty());
    while i < cs.len()
        invariant
            i <= cs.len(),
            cs@ == lowercase_of(text@),
            keep == (|c: char| alphanumeric(c)),
            tokens_of(text@) == runs_from(cs@.skip(i as int), keep, cur@, views(acc@)),
        decreases cs.len() - i,
    {
        let c = cs[i];
        let ghost rest = cs@.skip(i as int);
        assert(rest[0] == c);
        assert(rest.drop_first() =~= cs@.skip(i + 1));
        if is_alphanumeric(c) {
            cur.push(c);
        } else if cur.len() > 0 {
            let ghost before = acc@;
            let w = string_of_chars(&cur);
            acc.push(w);
            assert(views(acc@) =~= views(before).push(cur@));
            cur = Vec::new();
            assert(cur@ =~= Seq::<char>::empty());
        }
        i = i + 1;
    }
    assert(cs@.skip(i as int) =~= Seq::<char>::empty());
    if cur.len() > 0 {
        let ghost before = acc@;
        let w = string_of_chars(&cur);
        acc.push(w);
        assert(views(acc@) =~= views(before).push(cur@));
    }
    acc
}

/// Every token is non-empty and made only of alphanumeric characters.
pub proof fn tokens_are_alphanumeric_runs(text: Seq<char>)
    ensures
        forall|t: int|
            0 <= t < tokens_of(text).len() ==> (#[trigger] tokens_of(text)[t]).len() > 0
                && forall|k: int|
                0 <= k < tokens_of(text)[t].len() ==> alphanumeric(
                    #[trigger] tokens_of(text)[t][k],
                ),
{
    lemma_runs_well_formed(lowercase_of(text), |c: char| alphanumeric(c), seq![], seq![]);
}

} // verus!
