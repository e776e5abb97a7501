//! The rule engine: the deck, the scores, and the single mutating move `play`.

use vstd::prelude::*;

verus! {

/// A rejected move. Neither variant is fatal: the state is unchanged and the
/// caller may try another card.
#[derive(Debug, Clone, Copy, PartialEq, Eq, Structural)]
pub enum GameError {
    /// The requested card is outside `[1, 23]` or no longer in the deck.
    CardDoesNotExist,
    /// The requested card has no proper divisor left in the deck, so it
    /// cannot be captured.
    NoFactors,
}

/// A card value is playable only in `[1, 23]`.
pub open spec fn card_in_range(c: u8) -> bool {
    1 <= c && c <= 23
}

/// `f` is a proper divisor of `c`: at least 1, strictly below `c`, dividing it.
pub open spec fn is_factor_of(f: u8, c: u8) -> bool {
    1 <= f && f < c && (c as int) % (f as int) == 0
}

/// A card removed by a successful play of `c`: the card itself or one of its
/// proper divisors.
pub open spec fn taken_by(x: u8, c: u8) -> bool {
    x == c || is_factor_of(x, c)
}

/// Sum of the integers `1 + 2 + ... + n` (0 when `n <= 0`).
pub open spec fn sum_to(n: int) -> int
    decreases n,
{
    if n <= 0 {
        0
    } else {
        sum_to(n - 1) + n
    }
}

/// Sum of all card values in a deck sequence.
pub open spec fn deck_sum(s: Seq<u8>) -> int
    decreases s.len(),
{
    if s.len() == 0 {
        0
    } else {
        deck_sum(s.drop_last()) + s.last()
    }
}

/// Sum of the cards of a deck that some card in `[1, 23]` could capture:
/// a proper divisor of a card at most 23 is at most 11.
pub open spec fn small_sum(s: Seq<u8>) -> int
    decreases s.len(),
{
    if s.len() == 0 {
        0
    } else {
        small_sum(s.drop_last()) + if s.last() <= 11 { s.last() as int } else { 0 }
    }
}

/// Number of cards of a deck with value at most 11.
pub open spec fn small_count(s: Seq<u8>) -> int
    decreases s.len(),
{
    if s.len() == 0 {
        0
    } else {
        small_count(s.drop_last()) + if s.last() <= 11 { 1int } else { 0 }
    }
}

/// Sum of the proper divisors of `c` present in the deck sequence `s`:
/// what the enemy scores when `c` is played.
pub open spec fn factor_sum(s: Seq<u8>, c: u8) -> int
    decreases s.len(),
{
    if s.len() == 0 {
        0
    } else {
        factor_sum(s.drop_last(), c) + if is_factor_of(s.last(), c) { s.last() as int } else { 0 }
    }
}

/// Number of proper divisors of `c` present in the deck sequence `s`.
pub open spec fn factor_count(s: Seq<u8>, c: u8) -> int
    decreases s.len(),
{
    if s.len() == 0 {
        0
    } else {
        factor_count(s.drop_last(), c) + if is_factor_of(s.last(), c) { 1int } else { 0 }
    }
}

/// Some proper divisor of `c` is present in the deck sequence `s`.
pub open spec fn has_factor_in(s: Seq<u8>, c: u8) -> bool {
    exists|i: int| 0 <= i < s.len() && is_factor_of(#[trigger] s[i], c)
}

/// The deck left after a successful play of `c`: every card taken by `c` is
/// removed, the rest keep their order.
pub open spec fn remaining(s: Seq<u8>, c: u8) -> Seq<u8>
    decreases s.len(),
{
    if s.len() == 0 {
        Seq::empty()
    } else if taken_by(s.last(), c) {
        remaining(s.drop_last(), c)
    } else {
        remaining(s.drop_last(), c).push(s.last())
    }
}

/// The whole game: two scores and the cards still in the deck.
pub struct GameState {
    /// Points the acting player has earned by picking cards.
    pub player_pts: u8,
    /// Points the enemy has earned from captured divisors.
    pub enemy_pts: u8,
    /// Cards not yet removed, in a stable display order.
    pub cards: Vec<u8>,
}

impl GameState {
    /// Everything a reachable game state satisfies.
    ///
    /// The deck holds distinct cards in `[1, 23]`. The two conservation
    /// bounds make every score update fit in `u8`: all points ever awarded
    /// came from removed cards (the total `276` is the sum `1 + ... + 23`),
    /// the enemy only ever scores cards at most 11 (sum at most `66`), and
    /// the player scores at most 23 points for each of the at most 11
    /// capturable cards that leave the deck (at most `253`).
    pub open spec fn wf(self) -> bool {
        &&& forall|i: int|
            0 <= i < self.cards@.len() ==> card_in_range(#[trigger] self.cards@[i])
        &&& self.cards@.no_duplicates()
        &&& self.player_pts + self.enemy_pts + deck_sum(self.cards@) == 276
        &&& self.enemy_pts + small_sum(self.cards@) <= 66
        &&& self.player_pts + 23 * small_count(self.cards@) <= 253
    }

    /// A fresh game: zero scores and the full deck `1, 2, ..., 23` in order.
    pub fn new() -> (game: GameState)
        ensures
            game.wf(),
            game.player_pts == 0,
            game.enemy_pts == 0,
            game.cards@.len() == 23,
            forall|i: int| 0 <= i < 23 ==> game.cards@[i] == i + 1,
    {
        let mut cards: Vec<u8> = Vec::new();
        let mut c: u8 = 1;
        while c <= 23
            invariant
                1 <= c <= 24,
                cards@.len() == c - 1,
                forall|i: int| 0 <= i < c - 1 ==> cards@[i] == i + 1,
                deck_sum(cards@) == sum_to(c - 1),
                small_sum(cards@) == if c <= 12 { sum_to(c - 1) } else { sum_to(11) },
                small_count(cards@) == if c <= 12 { c - 1 } else { 11int },
            decreases 24 - c,
        {
            let ghost prev = cards@;
            cards.push(c);
            proof {
                assert(cards@.drop_last() =~= prev);
            }
            c = c + 1;
        }
        proof {
            assert(sum_to(23) == 276) by {
                reveal_with_fuel(sum_to, 24);
            }
            assert(sum_to(11) == 66) by {
                reveal_with_fuel(sum_to, 12);
            }
        }
        GameState { player_pts: 0, enemy_pts: 0, cards }
    }

    /// Pick the card `player_card`.
    ///
    /// On success the player scores the card, the enemy scores every proper
    /// divisor of it still in the deck, and all those cards leave the deck.
    /// A failed pick leaves the whole state untouched.
    pub fn play(&mut self, player_card: u8) -> (r: Result<(), GameError>)
        requires
            old(self).wf(),
        ensures
            final(self).wf(),
            r == Ok::<(), GameError>(()) <==> card_in_range(player_card) && old(
                self,
            ).cards@.contains(player_card) && has_factor_in(old(self).cards@, player_card),
            r == Err::<(), GameError>(GameError::CardDoesNotExist) <==> !(card_in_range(
                player_card,
            ) && old(self).cards@.contains(player_card)),
            r == Err::<(), GameError>(GameError::NoFactors) <==> card_in_range(player_card) && old(
                self,
            ).cards@.contains(player_card) && !has_factor_in(old(self).cards@, player_card),
            r.is_err() ==> *final(self) == *old(self),
            r.is_ok() ==> final(self).player_pts == old(self).player_pts + player_card,
            r.is_ok() ==> final(self).enemy_pts == old(self).enemy_pts + factor_sum(
                old(self).cards@,
                player_card,
            ),
            r.is_ok() ==> final(self).cards@ == remaining(old(self).cards@, player_card),
            r.is_ok() ==> final(self).cards@.len() == old(self).cards@.len() - 1 - factor_count(
                old(self).cards@,
                player_card,
            ),
    {
        if player_card < 1 || player_card > 23 || !deck_contains(&self.cards, player_card) {
            return Err(GameError::CardDoesNotExist);
        }
        if !find_factor(&self.cards, player_card) {
            return Err(GameError::NoFactors);
        }
        let ghost s = self.cards@;
        proof {
            lemma_factor_count_positive(s, player_card);
            lemma_factor_le_small(s, player_card);
        }
        self.player_pts = self.player_pts + player_card;
        let ghost player_after = self.player_pts;
        let ghost enemy_before = self.enemy_pts as int;
        let mut kept: Vec<u8> = Vec::new();
        let mut i: usize = 0;
        while i < self.cards.len()
            invariant
                0 <= i <= s.len(),
                self.cards@ == s,
                self.player_pts == player_after,
                card_in_range(player_card),
                forall|j: int| 0 <= j < s.len() ==> card_in_range(#[trigger] s[j]),
                kept@ == remaining(s.take(i as int), player_card),
                self.enemy_pts == enemy_before + factor_sum(s.take(i as int), player_card),
                enemy_before + small_sum(s) <= 66,
            decreases s.len() - i,
        {
            let x = self.cards[i];
            proof {
                assert(s.take(i + 1).drop_last() =~= s.take(i as int));
                assert(s.take(i + 1).last() == s[i as int]);
            }
            if x == player_card {
                // the picked card leaves the deck, already scored
            } else if x < player_card && player_card % x == 0 {
                proof {
                    lemma_factor_le_small(s.take(i + 1), player_card);
                    lemma_small_sum_take(s, i + 1);
                }
                self.enemy_pts = self.enemy_pts + x;
            } else {
                kept.push(x);
                proof {
                    assert(kept@.drop_last() =~= remaining(s.take(i as int), player_card));
                }
            }
            i = i + 1;
        }
        proof {
            assert(s.take(s.len() as int) =~= s);
            lemma_remaining_counts(s, player_card);
            lemma_remaining_small(s, player_card);
            lemma_remaining_distinct(s, player_card);
            lemma_remaining_membership(s, player_card);
            assert forall|j: int|
                0 <= j < remaining(s, player_card).len() implies card_in_range(
                #[trigger] remaining(s, player_card)[j],
            ) by {
                let x = remaining(s, player_card)[j];
                assert(remaining(s, player_card).contains(x));
                let k = choose|k: int| 0 <= k < s.len() && s[k] == x;
                assert(card_in_range(s[k]));
            }
        }
        self.cards = kept;
        Ok(())
    }
}

/// Whether a deck sequence holds the card `v`.
fn deck_contains(cards: &Vec<u8>, v: u8) -> (r: bool)
    ensures
        r == cards@.contains(v),
{
    let mut i: usize = 0;
    while i < cards.len()
        invariant
            0 <= i <= cards@.len(),
            forall|j: int| 0 <= j < i ==> cards@[j] != v,
        decreases cards@.len() - i,
    {
        if cards[i] == v {
            proof {
                assert(cards@[i as int] == v);
            }
            return true;
        }
        i = i + 1;
    }
    false
}

/// Whether some proper divisor of `c` is present in the deck sequence.
fn find_factor(cards: &Vec<u8>, c: u8) -> (r: bool)
    requires
        forall|j: int| 0 <= j < cards@.len() ==> card_in_range(#[trigger] cards@[j]),
    ensures
        r == has_factor_in(cards@, c),
{
    let mut i: usize = 0;
    while i < cards.len()
        invariant
            0 <= i <= cards@.len(),
            forall|j: int| 0 <= j < cards@.len() ==> card_in_range(#[trigger] cards@[j]),
            forall|j: int| 0 <= j < i ==> !is_factor_of(#[trigger] cards@[j], c),
        decreases cards@.len() - i,
    {
        let x = cards[i];
        if x < c && c % x == 0 {
            proof {
                assert(is_factor_of(cards@[i as int], c));
            }
            return true;
        }
        i = i + 1;
    }
    false
}

/// The end-of-session rule the shell applies: the player wins only with the
/// strictly greater score, so a tie goes to the enemy.
pub fn player_wins(player_pts: u8, enemy_pts: u8) -> (r: bool)
    ensures
        r == (player_pts > enemy_pts),
{
    player_pts > enemy_pts
}

/// The factor measures are sums of non-negative card values.
pub(crate) proof fn lemma_factor_nonneg(s: Seq<u8>, c: u8)
    ensures
        factor_sum(s, c) >= 0,
        factor_count(s, c) >= 0,
    decreases s.len(),
{
    if s.len() > 0 {
        lemma_factor_nonneg(s.drop_last(), c);
    }
}

/// A proper divisor of a card at most 23 is at most 11: a divisor below `c`
/// is at most half of `c`.
pub(crate) proof fn lemma_factor_is_small(f: u8, c: u8)
    requires
        is_factor_of(f, c),
        c <= 23,
    ensures
        f <= 11,
{
    assert(f <= 11) by (nonlinear_arith)
        requires
            1 <= f < c <= 23,
            (c as int) % (f as int) == 0,
    ;
}

/// A prefix of a deck carries at most the whole deck's small-card sum.
pub(crate) proof fn lemma_small_sum_take(s: Seq<u8>, i: int)
    requires
        0 <= i <= s.len(),
    ensures
        small_sum(s.take(i)) <= small_sum(s),
    decreases s.len(),
{
    if i == s.len() {
        assert(s.take(i) =~= s);
    } else {
        assert(s.take(i) =~= s.drop_last().take(i));
        lemma_small_sum_take(s.drop_last(), i);
    }
}

/// In-deck factors of a card at most 23 are all small cards, so the factor
/// measures are bounded by the small-card measures.
pub(crate) proof fn lemma_factor_le_small(s: Seq<u8>, c: u8)
    requires
        c <= 23,
    ensures
        factor_sum(s, c) <= small_sum(s),
        factor_count(s, c) <= small_count(s),
    decreases s.len(),
{
    if s.len() > 0 {
        lemma_factor_le_small(s.drop_last(), c);
        if is_factor_of(s.last(), c) {
            lemma_factor_is_small(s.last(), c);
        }
    }
}

/// The deck holds a factor of `c` exactly when the factor count is positive.
pub proof fn lemma_factor_count_positive(s: Seq<u8>, c: u8)
    ensures
        factor_count(s, c) > 0 <==> has_factor_in(s, c),
    decreases s.len(),
{
    if s.len() > 0 {
        let dl = s.drop_last();
        lemma_factor_count_positive(dl, c);
        lemma_factor_nonneg(dl, c);
        if is_factor_of(s.last(), c) {
            assert(s[s.len() - 1] == s.last());
            assert(has_factor_in(s, c));
        }
        if has_factor_in(dl, c) {
            let i = choose|i: int| 0 <= i < dl.len() && is_factor_of(dl[i], c);
            assert(is_factor_of(s[i], c));
        }
        if has_factor_in(s, c) && !is_factor_of(s.last(), c) {
            let i = choose|i: int| 0 <= i < s.len() && is_factor_of(s[i], c);
            assert(i < dl.len() && is_factor_of(dl[i], c));
            assert(has_factor_in(dl, c));
        }
    }
}

/// Playing `c` removes exactly `c` and the in-deck factors of `c`: a card
/// stays in the deck if and only if it was there and is not taken by `c`.
pub proof fn lemma_remaining_membership(s: Seq<u8>, c: u8)
    ensures
        forall|x: u8|
            #[trigger] remaining(s, c).contains(x) <==> s.contains(x) && !taken_by(x, c),
    decreases s.len(),
{
    broadcast use vstd::seq_lib::lemma_seq_contains_after_push;

    if s.len() > 0 {
        let dl = s.drop_last();
        lemma_remaining_membership(dl, c);
        assert(s =~= dl.push(s.last()));
        assert forall|x: u8|
            #[trigger] remaining(s, c).contains(x) <==> s.contains(x) && !taken_by(x, c) by {
            assert(dl.push(s.last()).contains(x) <==> dl.contains(x) || x == s.last());
            assert(s.contains(x) <==> dl.contains(x) || x == s.last());
            assert(remaining(dl, c).contains(x) <==> dl.contains(x) && !taken_by(x, c));
            if taken_by(s.last(), c) {
                assert(remaining(s, c) == remaining(dl, c));
            } else {
                assert(remaining(s, c) == remaining(dl, c).push(s.last()));
                assert(remaining(dl, c).push(s.last()).contains(x) <==> remaining(dl, c).contains(
                    x,
                ) || x == s.last());
            }
        }
    }
}

/// Pushing a fresh value keeps a sequence free of duplicates.
pub(crate) proof fn lemma_push_no_duplicates(s: Seq<u8>, v: u8)
    requires
        s.no_duplicates(),
        !s.contains(v),
    ensures
        s.push(v).no_duplicates(),
{
    let p = s.push(v);
    assert forall|i: int, j: int|
        0 <= i < p.len() && 0 <= j < p.len() && i != j implies p[i] != p[j] by {
        if i < s.len() && s[i] == v {
            assert(s.contains(v));
        }
        if j < s.len() && s[j] == v {
            assert(s.contains(v));
        }
    }
}

/// Removal keeps the deck free of duplicates.
pub(crate) proof fn lemma_remaining_distinct(s: Seq<u8>, c: u8)
    requires
        s.no_duplicates(),
    ensures
        remaining(s, c).no_duplicates(),
    decreases s.len(),
{
    if s.len() > 0 {
        let dl = s.drop_last();
        lemma_remaining_distinct(dl, c);
        if !taken_by(s.last(), c) {
            assert(!dl.contains(s.last())) by {
                if dl.contains(s.last()) {
                    let i = choose|i: int| 0 <= i < dl.len() && dl[i] == s.last();
                    assert(s[i] == s[s.len() - 1]);
                }
            }
            lemma_remaining_membership(dl, c);
            lemma_push_no_duplicates(remaining(dl, c), s.last());
        }
    }
}

/// What a successful play of `c` takes out of the deck, exactly: the value of
/// the removed cards is `c` plus the in-deck factor sum, and the number of
/// removed cards is one plus the in-deck factor count.
pub proof fn lemma_remaining_counts(s: Seq<u8>, c: u8)
    requires
        s.no_duplicates(),
        1 <= c,
    ensures
        deck_sum(remaining(s, c)) == deck_sum(s) - factor_sum(s, c) - if s.contains(c) {
            c as int
        } else {
            0
        },
        remaining(s, c).len() == s.len() - factor_count(s, c) - if s.contains(c) {
            1int
        } else {
            0
        },
    decreases s.len(),
{
    broadcast use vstd::seq_lib::lemma_seq_contains_after_push;

    if s.len() == 0 {
        assert(!s.contains(c));
    } else {
        let dl = s.drop_last();
        lemma_remaining_counts(dl, c);
        assert(s =~= dl.push(s.last()));
        if s.last() == c {
            assert(!dl.contains(c)) by {
                if dl.contains(c) {
                    let i = choose|i: int| 0 <= i < dl.len() && dl[i] == c;
                    assert(s[i] == s[s.len() - 1]);
                }
            }
        }
        if !taken_by(s.last(), c) {
            assert(remaining(s, c).drop_last() =~= remaining(dl, c));
        }
    }
}

/// Removal only shrinks the small-card measures: what the enemy scores comes
/// out of the deck's small cards, and a play with an available factor removes
/// at least one small card.
pub(crate) proof fn lemma_remaining_small(s: Seq<u8>, c: u8)
    requires
        c <= 23,
    ensures
        small_sum(remaining(s, c)) + factor_sum(s, c) <= small_sum(s),
        small_count(remaining(s, c)) <= small_count(s) - if factor_count(s, c) > 0 {
            1int
        } else {
            0
        },
    decreases s.len(),
{
    if s.len() > 0 {
        let dl = s.drop_last();
        lemma_remaining_small(dl, c);
        lemma_factor_nonneg(dl, c);
        if is_factor_of(s.last(), c) {
            lemma_factor_is_small(s.last(), c);
        }
        if !taken_by(s.last(), c) {
            assert(remaining(s, c).drop_last() =~= remaining(dl, c));
        }
    }
}

} // verus!
