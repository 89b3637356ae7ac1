//! `MapValues` table lookup on interned symbols: the first row whose input
//! matches gives the output, otherwise the default.

use vstd::prelude::*;
use crate::value::SymbolId;

verus! {

/// The output of the first row of `table` whose input is `s`.
pub open spec fn first_match(table: Seq<(SymbolId, SymbolId)>, s: SymbolId) -> Option<SymbolId>
    decreases table.len(),
{
    if table.len() == 0 {
        None
    } else if table[0].0 == s {
        Some(table[0].1)
    } else {
        first_match(table.drop_first(), s)
    }
}

/// What a lookup of `input` gives: the first matching output, or `default`
/// when the input is not a symbol or no row matches.
pub open spec fn mapped(input: Option<SymbolId>, table: Seq<(SymbolId, SymbolId)>, default: Option<SymbolId>) -> Option<SymbolId> {
    match input {
        Some(s) => match first_match(table, s) {
            Some(o) => Some(o),
            None => default,
        },
        None => default,
    }
}

/// Look up a discrete input (`None` for a missing or continuous one) in a
/// `MapValues` table.
pub fn map_discrete(input: Option<SymbolId>, table: &Vec<(SymbolId, SymbolId)>, default: Option<SymbolId>) -> (r: Option<
    SymbolId,
>)
    ensures
        r == mapped(input, table@, default),
{
    let s = match input {
        Some(s) => s,
        None => return default,
    };
    let mut i: usize = 0;
    assert(table@.skip(0) =~= table@);
    while i < table.len()
        invariant
            i <= table@.len(),
            input == Some(s),
            first_match(table@, s) == first_match(table@.skip(i as int), s),
        decreases table@.len() - i,
    {
        assert(table@.skip(i as int).drop_first() =~= table@.skip(i + 1));
        assert(table@.skip(i as int)[0] == table@[i as int]);
        let (k, v) = table[i];
        if k == s {
            return Some(v);
        }
        i = i + 1;
    }
    assert(table@.skip(i as int).len() == 0);
    default
}

/// The first match is the output of the first row with that input: no
/// earlier row has the input, and without a match no row has it.
pub proof fn first_match_is_first(table: Seq<(SymbolId, SymbolId)>, s: SymbolId)
    ensures
        first_match(table, s) matches Some(o) ==> exists|i: int|
            0 <= i < table.len() && #[trigger] table[i] == (s, o) && forall|j: int|
                0 <= j < i ==> (#[trigger] table[j]).0 != s,
        first_match(table, s) is None ==> forall|j: int| 0 <= j < table.len() ==> (#[trigger] table[j]).0 != s,
    decreases table.len(),
{
    if table.len() > 0 && table[0].0 != s {
        first_match_is_first(table.drop_first(), s);
        if let Some(o) = first_match(table, s) {
            let i = choose|i: int|
                0 <= i < table.drop_first().len() && #[trigger] table.drop_first()[i] == (s, o)
                    && forall|j: int| 0 <= j < i ==> (#[trigger] table.drop_first()[j]).0 != s;
            assert(table[i + 1] == (s, o));
            assert forall|j: int| 0 <= j < i + 1 implies (#[trigger] table[j]).0 != s by {
                if j > 0 {
                    assert(table[j] == table.drop_first()[j - 1]);
                }
            }
        } else {
            assert forall|j: int| 0 <= j < table.len() implies (#[trigger] table[j]).0 != s by {
                if j > 0 {
                    assert(table[j] == table.drop_first()[j - 1]);
                }
            }
        }
    } else if table.len() > 0 {
        assert(table[0] == (s, table[0].1));
    }
}

} // verus!
