//! Game-wide laws: consequences of the rules that hold for every deck, stated
//! and proved once rather than left implicit in `play`'s contract.

use vstd::prelude::*;
use crate::game::{
    factor_count, has_factor_in, is_factor_of, lemma_factor_count_positive,
    lemma_remaining_counts, remaining,
};

verus! {

/// On every successful play the deck shrinks by exactly one plus the number
/// of available factors — in particular it shrinks strictly.
pub proof fn lemma_deck_strictly_shrinks(s: Seq<u8>, c: u8)
    requires
        s.no_duplicates(),
        s.contains(c),
        1 <= c,
        has_factor_in(s, c),
    ensures
        remaining(s, c).len() == s.len() - 1 - factor_count(s, c),
        factor_count(s, c) >= 1,
        remaining(s, c).len() < s.len(),
{
    lemma_remaining_counts(s, c);
    lemma_factor_count_positive(s, c);
}

/// The card 1 has no proper divisor at all, so whatever the deck holds,
/// playing 1 can never succeed.
pub proof fn lemma_one_never_capturable(s: Seq<u8>)
    ensures
        !has_factor_in(s, 1),
{
    assert forall|i: int| 0 <= i < s.len() implies !is_factor_of(#[trigger] s[i], 1) by {}
}

} // verus!
