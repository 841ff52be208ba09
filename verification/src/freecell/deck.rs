//! Deck creation and shuffle.
use vstd::prelude::*;

use super::cards::{Card, Rank, Suit, suit_at};
use crate::shuffle::{fisher_yates, picks_valid, shuffled};

verus! {

/// The card at position `i` of the canonical deck: all spades, then hearts,
/// then diamonds, then clubs, each from ace to king.
pub open spec fn canonical_card(i: int) -> Card {
    Card { suit: suit_at(i / 13), rank: Rank((i % 13 + 1) as u8) }
}

/// Two canonical positions hold the same card only if they are the same position.
proof fn lemma_canonical_injective(i: int, j: int)
    requires
        0 <= i < 52,
        0 <= j < 52,
        canonical_card(i) == canonical_card(j),
    ensures
        i == j,
{
    assert(0 <= i / 13 < 4) by (nonlinear_arith)
        requires
            0 <= i < 52,
    ;
    assert(0 <= j / 13 < 4) by (nonlinear_arith)
        requires
            0 <= j < 52,
    ;
    assert(i / 13 == j / 13);
    assert(i % 13 == j % 13);
    assert(i == 13 * (i / 13) + i % 13) by (nonlinear_arith);
    assert(j == 13 * (j / 13) + j % 13) by (nonlinear_arith);
}

/// Build a full 52-card deck in canonical order (all spades, then hearts,
/// then diamonds, then clubs, each A..K).
pub fn full_deck() -> (deck: Vec<Card>)
    ensures
        deck@.len() == 52,
        forall|i: int| 0 <= i < 52 ==> #[trigger] deck@[i] == canonical_card(i),
        forall|i: int, j: int|
            0 <= i < 52 && 0 <= j < 52 && i != j ==> #[trigger] deck@[i] != #[trigger] deck@[j],
{
    let mut deck: Vec<Card> = Vec::with_capacity(52);
    let mut s: usize = 0;
    while s < 4
        invariant
            s <= 4,
            deck@.len() == 13 * s,
            forall|i: int| 0 <= i < deck@.len() ==> #[trigger] deck@[i] == canonical_card(i),
        decreases 4 - s,
    {
        let suit = Suit::from_index(s);
        let mut r: u8 = 1;
        while r <= 13
            invariant
                s < 4,
                suit == suit_at(s as int),
                1 <= r <= 14,
                deck@.len() == 13 * s + r - 1,
                forall|i: int| 0 <= i < deck@.len() ==> #[trigger] deck@[i] == canonical_card(i),
            decreases 14 - r,
        {
            let ghost pos = deck@.len() as int;
            assert(pos / 13 == s as int && pos % 13 == r - 1) by (nonlinear_arith)
                requires
                    pos == 13 * s + r - 1,
                    1 <= r <= 13,
            ;
            deck.push(Card::new(suit, Rank(r)));
            r = r + 1;
        }
        s = s + 1;
    }
    assert forall|i: int, j: int|
        0 <= i < 52 && 0 <= j < 52 && i != j implies #[trigger] deck@[i] != #[trigger] deck@[j] by {
        if deck@[i] == deck@[j] {
            lemma_canonical_injective(i, j);
        }
    }
    deck
}

/// Shuffle a deck in place with Fisher-Yates. `picks` holds the random
/// draws, one per position from the last down to 1, the draw for
/// position `i` lying in `0..=i`. Deterministic given the same draws.
pub fn shuffle(deck: &mut Vec<Card>, picks: &Vec<usize>)
    requires
        picks_valid(old(deck)@.len(), picks@),
    ensures
        final(deck)@ == shuffled(old(deck)@, picks@),
        final(deck)@.to_multiset() =~= old(deck)@.to_multiset(),
{
    fisher_yates(deck, picks);
}

/// Build a shuffled 52-card deck from the draws of a seeded generator.
pub fn deal(picks: &Vec<usize>) -> (deck: Vec<Card>)
    requires
        picks_valid(52, picks@),
    ensures
        deck@ == shuffled(Seq::new(52, |i: int| canonical_card(i)), picks@),
        deck@.len() == 52,
        deck@.to_multiset() =~= Seq::new(52, |i: int| canonical_card(i)).to_multiset(),
{
    let mut deck = full_deck();
    assert(deck@ =~= Seq::new(52, |i: int| canonical_card(i)));
    shuffle(&mut deck, picks);
    proof {
        crate::shuffle::lemma_shuffled_is_permutation(Seq::new(52, |i: int| canonical_card(i)), picks@);
    }
    deck
}

} // verus!
