//! The best five cards out of more: every five-card selection is rated, and
//! the strongest is kept.

use vstd::prelude::*;
use crate::cards::Card;
use crate::hands::Hand;
use crate::order::{strength_le, strength_lt};
use crate::rating::{lemma_distinct_cards_are_rated, rating};
use crate::wrappers::{index_combinations, is_selection, lists_selections, selection_lt};

verus! {

/// The cards at the chosen positions, in the order of the positions.
pub open spec fn selected(cards: Seq<Card>, picks: Seq<usize>) -> Seq<Card> {
    Seq::new(picks.len(), |i: int| cards[picks[i] as int])
}

/// The level and score of five cards; a level of 0 where they have no rating.
pub open spec fn strength_of(cards: Seq<Card>) -> (u8, u64) {
    match rating(cards) {
        Some((_, level, score)) => (level, score),
        None => (0u8, 0u64),
    }
}

/// Every choice of five of the cards has a rating.
pub open spec fn all_selections_rated(cards: Seq<Card>) -> bool {
    forall|picks: Seq<usize>| #[trigger]
        is_selection(picks, 5, cards.len()) ==> rating(selected(cards, picks)) is Some
}

/// `picks` chooses five of the cards that no other choice beats, and is the
/// last such choice in lexicographic order.
pub open spec fn is_best_selection(cards: Seq<Card>, picks: Seq<usize>) -> bool {
    &&& is_selection(picks, 5, cards.len())
    &&& forall|other: Seq<usize>| #[trigger]
        is_selection(other, 5, cards.len()) ==> strength_le(
            strength_of(selected(cards, other)),
            strength_of(selected(cards, picks)),
        )
    &&& forall|other: Seq<usize>|
        #[trigger] is_selection(other, 5, cards.len()) && selection_lt(picks, other)
            ==> strength_lt(
            strength_of(selected(cards, other)),
            strength_of(selected(cards, picks)),
        )
}

/// `hand` is the best five-card hand that `cards` hold.
pub open spec fn is_best_hand(hand: Hand, cards: Seq<Card>) -> bool {
    &&& hand.wf()
    &&& exists|picks: Seq<usize>| #[trigger]
        is_best_selection(cards, picks) && hand.cards@ == selected(cards, picks)
}

/// Cards that are all different can be rated five at a time, whichever five
/// are chosen.
pub proof fn lemma_distinct_cards_all_rated(cards: Seq<Card>)
    requires
        cards.no_duplicates(),
    ensures
        all_selections_rated(cards),
{
    assert forall|picks: Seq<usize>| #[trigger]
        is_selection(picks, 5, cards.len()) implies rating(selected(cards, picks)) is Some by {
        let five = selected(cards, picks);
        assert forall|i: int, j: int| 0 <= i < five.len() && 0 <= j < five.len() && i
            != j implies five[i] != five[j] by {
            if i < j {
                assert(picks[i] < picks[j]);
            } else {
                assert(picks[j] < picks[i]);
            }
        }
        lemma_distinct_cards_are_rated(five);
    }
}

/// Of two different selections of equal length one comes before the other.
proof fn lemma_selection_order(a: Seq<usize>, b: Seq<usize>)
    requires
        selection_lt(a, b),
    ensures
        !selection_lt(b, a),
        a != b,
{
    let at = choose|at: int|
        0 <= at < a.len() && at < b.len() && #[trigger] a[at] < b[at] && forall|i: int|
            0 <= i < at ==> a[i] == b[i];
    if selection_lt(b, a) {
        let back = choose|back: int|
            0 <= back < b.len() && back < a.len() && #[trigger] b[back] < a[back] && forall|i: int|
                0 <= i < back ==> b[i] == a[i];
        if at < back {
            assert(b[at] == a[at]);
        } else if back < at {
            assert(a[back] == b[back]);
        }
    }
}

fn pick_cards(cards: &Vec<Card>, picks: &Vec<usize>) -> (picked: Vec<Card>)
    requires
        forall|i: int| 0 <= i < picks@.len() ==> picks@[i] < cards@.len(),
    ensures
        picked@ == selected(cards@, picks@),
{
    let mut picked: Vec<Card> = Vec::new();
    let mut n: usize = 0;
    while n < picks.len()
        invariant
            n <= picks.len(),
            forall|i: int| 0 <= i < picks@.len() ==> picks@[i] < cards@.len(),
            picked@.len() == n,
            forall|i: int| 0 <= i < n ==> picked@[i] == cards@[picks@[i] as int],
        decreases picks.len() - n,
    {
        picked.push(cards[picks[n]]);
        n = n + 1;
    }
    assert(picked@ =~= selected(cards@, picks@));
    picked
}

/// The strongest hand that five of the cards make; among equally strong
/// choices the last in lexicographic order of positions. The cards are at
/// least five and no more than a deck holds.
pub fn best_hand(cards: &Vec<Card>) -> (hand: Hand)
    requires
        5 <= cards@.len() <= 52,
        all_selections_rated(cards@),
    ensures
        is_best_hand(hand, cards@),
{
    let combos = index_combinations(cards.len(), 5);
    let ghost lists = combos@.map_values(|combo: Vec<usize>| combo@);
    proof {
        let first = seq![0usize, 1usize, 2usize, 3usize, 4usize];
        assert(is_selection(first, 5, cards@.len() as nat));
        assert(lists.contains(first));
    }
    assert(is_selection(lists[0], 5, cards@.len() as nat));
    let mut best = Hand::evaluate(pick_cards(cards, &combos[0])).unwrap();
    let ghost mut best_at: int = 0;
    let mut n: usize = 1;
    while n < combos.len()
        invariant
            1 <= n <= combos.len(),
            lists == combos@.map_values(|combo: Vec<usize>| combo@),
            lists_selections(lists, 5, cards@.len() as nat),
            all_selections_rated(cards@),
            0 <= best_at < n,
            best.wf(),
            best.cards@ == selected(cards@, lists[best_at]),
            forall|i: int|
                0 <= i < n ==> strength_le(
                    strength_of(selected(cards@, #[trigger] lists[i])),
                    best.strength(),
                ),
            forall|i: int|
                best_at < i < n ==> strength_lt(
                    strength_of(selected(cards@, #[trigger] lists[i])),
                    best.strength(),
                ),
        decreases combos.len() - n,
    {
        assert(is_selection(lists[n as int], 5, cards@.len() as nat));
        let hand = Hand::evaluate(pick_cards(cards, &combos[n])).unwrap();
        if hand >= best {
            best = hand;
            proof {
                best_at = n as int;
            }
        }
        n = n + 1;
    }
    proof {
        let picks = lists[best_at];
        assert(is_selection(picks, 5, cards@.len() as nat));
        assert forall|other: Seq<usize>| #[trigger]
            is_selection(other, 5, cards@.len() as nat) implies strength_le(
            strength_of(selected(cards@, other)),
            strength_of(selected(cards@, picks)),
        ) && (selection_lt(picks, other) ==> strength_lt(
            strength_of(selected(cards@, other)),
            strength_of(selected(cards@, picks)),
        )) by {
            assert(lists.contains(other));
            let at = choose|at: int| 0 <= at < lists.len() && lists[at] == other;
            if selection_lt(picks, other) {
                lemma_selection_order(picks, other);
                if at < best_at {
                    assert(selection_lt(lists[at], lists[best_at]));
                }
            }
        }
        assert(is_best_selection(cards@, picks));
    }
    best
}

} // verus!
