//! A worked showdown: a pair of queens against a pair of aces with queen,
//! king, jack and ten on the board, and one card to come.
//!
//! Whatever the last card is, the contracts of the showdown decide who wins:
//! the queens where it pairs the board or is the fourth queen, nobody alone
//! where it is an ace, which puts the highest straight on the board, and the
//! aces otherwise. Of the 44 cards that can come, that is 10 for the queens,
//! 2 for a split and 32 for the aces.

use vstd::prelude::*;
use crate::cards::{full_deck, Card, Suit};
use crate::game::{is_showdown, player_cards, GameView};
use crate::hands::{Hand, HandType};
use crate::order::{strength_le, strength_lt};
use crate::rating::{
    kind_of, lemma_count_five, lemma_distinct_cards_are_rated, lemma_four_is_quads,
    lemma_kinds_by_counts, lemma_rating_parts, lemma_run_is_straight, lemma_straight_ranks,
    lemma_three_and_two_is_full_house, occurs, ranks_of, rating, same_suit,
};
use crate::selection::{is_best_hand, is_best_selection, selected, strength_of};
use crate::wrappers::is_selection;

verus! {

/// The queens' private cards: the queens of hearts and diamonds.
pub open spec fn the_queens() -> (Card, Card) {
    (Card { rank: 12, suit: Suit::Hearts }, Card { rank: 12, suit: Suit::Diamonds })
}

/// The aces' private cards: the aces of clubs and spades.
pub open spec fn the_aces() -> (Card, Card) {
    (Card { rank: 14, suit: Suit::Clubs }, Card { rank: 14, suit: Suit::Spades })
}

/// The board once the last card has come: queen of spades, king of diamonds,
/// jack of clubs, ten of clubs, and the river.
pub open spec fn the_board(river: Card) -> Seq<Card> {
    seq![
        Card { rank: 12, suit: Suit::Spades },
        Card { rank: 13, suit: Suit::Diamonds },
        Card { rank: 11, suit: Suit::Clubs },
        Card { rank: 10, suit: Suit::Clubs },
        river,
    ]
}

/// The card can still come: it is one of the 52 and none of the eight that
/// are on the table.
pub open spec fn is_river(river: Card) -> bool {
    &&& river.wf()
    &&& river != the_queens().0
    &&& river != the_queens().1
    &&& river != the_aces().0
    &&& river != the_aces().1
    &&& river != Card { rank: 12, suit: Suit::Spades }
    &&& river != Card { rank: 13, suit: Suit::Diamonds }
    &&& river != Card { rank: 11, suit: Suit::Clubs }
    &&& river != Card { rank: 10, suit: Suit::Clubs }
}

/// The number of cards among the deck's positions `from..to` that can come on
/// the river and are of a rank from `low` to `high`.
pub open spec fn rivers_between(from: int, to: int, low: u8, high: u8) -> nat
    decreases to - from,
{
    if to <= from {
        0
    } else {
        let card = full_deck()[to - 1];
        rivers_between(from, to - 1, low, high) + if is_river(card) && low <= card.rank <= high {
            1nat
        } else {
            0nat
        }
    }
}

proof fn lemma_rivers_split(from: int, mid: int, to: int, low: u8, high: u8)
    requires
        from <= mid <= to,
    ensures
        rivers_between(from, to, low, high) == rivers_between(from, mid, low, high)
            + rivers_between(mid, to, low, high),
    decreases to - mid,
{
    if mid < to {
        lemma_rivers_split(from, mid, to - 1, low, high);
    }
}

proof fn lemma_rivers_of_suit(suit: int)
    requires
        0 <= suit < 4,
    ensures
        rivers_between(13 * suit, 13 * suit + 13, 10, 13) == if suit == 0 {
            2nat
        } else if suit == 1 {
            3nat
        } else if suit == 2 {
            2nat
        } else {
            3nat
        },
        rivers_between(13 * suit, 13 * suit + 13, 14, 14) == if suit == 0 || suit == 3 {
            0nat
        } else {
            1nat
        },
        rivers_between(13 * suit, 13 * suit + 13, 2, 9) == 8,
{
    reveal_with_fuel(rivers_between, 14);
    let base = 13 * suit;
    assert forall|i: int| 0 <= i < 13 implies (#[trigger] full_deck()[base + i]).rank == 2 + i
        && full_deck()[base + i].suit == Suit::at(suit) by {}
}

/// Of the 44 cards that can come on the river, 10 are a ten, a jack, a queen
/// or a king, 2 are aces, and 32 are of a rank from two to nine.
pub proof fn lemma_river_counts()
    ensures
        rivers_between(0, 52, 10, 13) == 10,
        rivers_between(0, 52, 14, 14) == 2,
        rivers_between(0, 52, 2, 9) == 32,
{
    lemma_rivers_of_suit(0);
    lemma_rivers_of_suit(1);
    lemma_rivers_of_suit(2);
    lemma_rivers_of_suit(3);
    lemma_rivers_split(0, 13, 52, 10, 13);
    lemma_rivers_split(13, 26, 52, 10, 13);
    lemma_rivers_split(26, 39, 52, 10, 13);
    lemma_rivers_split(0, 13, 52, 14, 14);
    lemma_rivers_split(13, 26, 52, 14, 14);
    lemma_rivers_split(26, 39, 52, 14, 14);
    lemma_rivers_split(0, 13, 52, 2, 9);
    lemma_rivers_split(13, 26, 52, 2, 9);
    lemma_rivers_split(26, 39, 52, 2, 9);
}

/// What a choice of five out of seven different cards looks like.
proof fn lemma_five_of_seven(cards: Seq<Card>, picks: Seq<usize>)
    requires
        cards.len() == 7,
        cards.no_duplicates(),
        is_selection(picks, 5, 7),
    ensures
        rating(selected(cards, picks)) is Some,
        selected(cards, picks).len() == 5,
        0 <= picks[0] < picks[1] < picks[2] < picks[3] < picks[4] < 7,
        selected(cards, picks)[0] == cards[picks[0] as int],
        selected(cards, picks)[1] == cards[picks[1] as int],
        selected(cards, picks)[2] == cards[picks[2] as int],
        selected(cards, picks)[3] == cards[picks[3] as int],
        selected(cards, picks)[4] == cards[picks[4] as int],
        forall|rank: u8| #[trigger]
            ranks_of(selected(cards, picks)).to_multiset().count(rank) == (if cards[picks[0] as int]
                .rank == rank {
                1nat
            } else {
                0nat
            }) + (if cards[picks[1] as int].rank == rank {
                1nat
            } else {
                0nat
            }) + (if cards[picks[2] as int].rank == rank {
                1nat
            } else {
                0nat
            }) + (if cards[picks[3] as int].rank == rank {
                1nat
            } else {
                0nat
            }) + (if cards[picks[4] as int].rank == rank {
                1nat
            } else {
                0nat
            }),
{
    let five = selected(cards, picks);
    assert(picks[0] < picks[1] && picks[1] < picks[2] && picks[2] < picks[3] && picks[3]
        < picks[4]);
    assert forall|i: int, j: int| 0 <= i < five.len() && 0 <= j < five.len() && i
        != j implies five[i] != five[j] by {
        if i < j {
            assert(picks[i] < picks[j]);
        } else {
            assert(picks[j] < picks[i]);
        }
    }
    lemma_distinct_cards_are_rated(five);
    assert forall|rank: u8| #[trigger]
        ranks_of(five).to_multiset().count(rank) == (if cards[picks[0] as int].rank == rank {
            1nat
        } else {
            0nat
        }) + (if cards[picks[1] as int].rank == rank {
            1nat
        } else {
            0nat
        }) + (if cards[picks[2] as int].rank == rank {
            1nat
        } else {
            0nat
        }) + (if cards[picks[3] as int].rank == rank {
            1nat
        } else {
            0nat
        }) + (if cards[picks[4] as int].rank == rank {
            1nat
        } else {
            0nat
        }) by {
        lemma_count_five(ranks_of(five), rank);
    }
}

/// The seven cards of the aces are all different, and so are those of the
/// queens.
proof fn lemma_rows(river: Card)
    requires
        is_river(river),
    ensures
        player_cards(the_queens(), the_board(river)).len() == 7,
        player_cards(the_aces(), the_board(river)).len() == 7,
        player_cards(the_queens(), the_board(river)).no_duplicates(),
        player_cards(the_aces(), the_board(river)).no_duplicates(),
        player_cards(the_queens(), the_board(river)) =~= seq![
            the_queens().0,
            the_queens().1,
            Card { rank: 12, suit: Suit::Spades },
            Card { rank: 13, suit: Suit::Diamonds },
            Card { rank: 11, suit: Suit::Clubs },
            Card { rank: 10, suit: Suit::Clubs },
            river,
        ],
        player_cards(the_aces(), the_board(river)) =~= seq![
            the_aces().0,
            the_aces().1,
            Card { rank: 12, suit: Suit::Spades },
            Card { rank: 13, suit: Suit::Diamonds },
            Card { rank: 11, suit: Suit::Clubs },
            Card { rank: 10, suit: Suit::Clubs },
            river,
        ],
{
}

/// No five cards of a player whose seven hold no flush, no four of a rank
/// and no three with a pair rate above a straight, and a straight among them
/// scores no more than its highest card allows.
proof fn lemma_bound(cards: Seq<Card>, picks: Seq<usize>, highest: u8)
    requires
        cards.len() == 7,
        cards.no_duplicates(),
        is_selection(picks, 5, 7),
        4 <= highest <= 14,
        forall|at: int| 0 <= at < 7 ==> (#[trigger] cards[at]).rank <= highest,
        !same_suit(selected(cards, picks)),
        forall|rank: u8| !occurs(selected(cards, picks), rank, 4),
        forall|three: u8, two: u8|
            !(occurs(selected(cards, picks), three, 3) && occurs(selected(cards, picks), two, 2)),
    ensures
        strength_le(strength_of(selected(cards, picks)), (5u8, (highest - 4) as u64)),
{
    let five = selected(cards, picks);
    lemma_five_of_seven(cards, picks);
    lemma_kinds_by_counts(five);
    lemma_rating_parts(five);
    if kind_of(five) == HandType::Straight {
        let low = strength_of(five).1;
        lemma_straight_ranks(ranks_of(five), low);
        if low != 1 {
            assert(ranks_of(five).to_multiset().count((low + 4) as u8) == 1);
        }
    }
}

/// The aces' five best cards are a straight from the ten, whatever the river.
proof fn lemma_aces(river: Card)
    requires
        is_river(river),
    ensures
        forall|picks: Seq<usize>| #[trigger]
            is_selection(picks, 5, 7) ==> strength_le(
                strength_of(selected(player_cards(the_aces(), the_board(river)), picks)),
                (5u8, 10u64),
            ),
        exists|picks: Seq<usize>| #[trigger]
            is_selection(picks, 5, 7) && strength_of(
                selected(player_cards(the_aces(), the_board(river)), picks),
            ) == (5u8, 10u64),
{
    let cards = player_cards(the_aces(), the_board(river));
    lemma_rows(river);
    assert forall|picks: Seq<usize>| #[trigger] is_selection(picks, 5, 7) implies strength_le(
        strength_of(selected(cards, picks)),
        (5u8, 10u64),
    ) by {
        let five = selected(cards, picks);
        lemma_five_of_seven(cards, picks);
        assert(!same_suit(five)) by {
            if same_suit(five) {
                assert(five[1].suit == five[0].suit && five[2].suit == five[0].suit
                    && five[3].suit == five[0].suit && five[4].suit == five[0].suit);
            }
        }
        lemma_bound(cards, picks, 14);
    }
    let straight = seq![0usize, 2usize, 3usize, 4usize, 5usize];
    assert(is_selection(straight, 5, 7));
    lemma_straight_from_ten(cards, straight);
}

/// One of the five chosen cards is of the rank.
spec fn holds(cards: Seq<Card>, picks: Seq<usize>, rank: u8) -> bool {
    ||| cards[picks[0] as int].rank == rank
    ||| cards[picks[1] as int].rank == rank
    ||| cards[picks[2] as int].rank == rank
    ||| cards[picks[3] as int].rank == rank
    ||| cards[picks[4] as int].rank == rank
}

/// Five chosen cards that hold ten, jack, queen, king and ace, the first two
/// of different suits, are the straight from the ten.
proof fn lemma_straight_from_ten(cards: Seq<Card>, picks: Seq<usize>)
    requires
        cards.len() == 7,
        cards.no_duplicates(),
        is_selection(picks, 5, 7),
        cards[picks[0] as int].suit != cards[picks[1] as int].suit,
        holds(cards, picks, 10),
        holds(cards, picks, 11),
        holds(cards, picks, 12),
        holds(cards, picks, 13),
        holds(cards, picks, 14),
    ensures
        strength_of(selected(cards, picks)) == (5u8, 10u64),
{
    let five = selected(cards, picks);
    lemma_five_of_seven(cards, picks);
    assert(!same_suit(five)) by {
        if same_suit(five) {
            assert(five[1].suit == five[0].suit);
        }
    }
    assert(occurs(five, 10, 1) && occurs(five, 11, 1) && occurs(five, 12, 1) && occurs(
        five,
        13,
        1,
    ) && occurs(five, 14, 1));
    lemma_run_is_straight(five, 10);
}

/// What the queens hold, river by river.
proof fn lemma_queens(river: Card)
    requires
        is_river(river),
    ensures
        10 <= river.rank <= 13 ==> exists|picks: Seq<usize>| #[trigger]
            is_selection(picks, 5, 7) && strength_of(
                selected(player_cards(the_queens(), the_board(river)), picks),
            ).0 >= 7,
        river.rank == 14 ==> exists|picks: Seq<usize>| #[trigger]
            is_selection(picks, 5, 7) && strength_of(
                selected(player_cards(the_queens(), the_board(river)), picks),
            ) == (5u8, 10u64),
        river.rank == 14 ==> forall|picks: Seq<usize>| #[trigger]
            is_selection(picks, 5, 7) ==> strength_le(
                strength_of(selected(player_cards(the_queens(), the_board(river)), picks)),
                (5u8, 10u64),
            ),
        river.rank <= 9 ==> forall|picks: Seq<usize>| #[trigger]
            is_selection(picks, 5, 7) ==> strength_lt(
                strength_of(selected(player_cards(the_queens(), the_board(river)), picks)),
                (5u8, 10u64),
            ),
{
    let cards = player_cards(the_queens(), the_board(river));
    lemma_rows(river);
    if 10 <= river.rank <= 13 {
        let picks = if river.rank == 11 {
            seq![0usize, 1usize, 2usize, 4usize, 6usize]
        } else if river.rank == 10 {
            seq![0usize, 1usize, 2usize, 5usize, 6usize]
        } else {
            seq![0usize, 1usize, 2usize, 3usize, 6usize]
        };
        assert(is_selection(picks, 5, 7));
        let five = selected(cards, picks);
        lemma_five_of_seven(cards, picks);
        if river.rank == 12 {
            assert(occurs(five, 12, 4));
            lemma_four_is_quads(five, 12);
        } else {
            assert(occurs(five, 12, 3));
            assert(occurs(five, river.rank, 2));
            lemma_three_and_two_is_full_house(five, 12, river.rank);
        }
        lemma_rating_parts(five);
        assert(strength_of(five).0 >= 7);
    } else {
        assert forall|picks: Seq<usize>| #[trigger] is_selection(picks, 5, 7) implies strength_le(
            strength_of(selected(cards, picks)),
            (
                5u8,
                if river.rank == 14 {
                    10u64
                } else {
                    9u64
                },
            ),
        ) by {
            let five = selected(cards, picks);
            lemma_five_of_seven(cards, picks);
            assert(!same_suit(five)) by {
                if same_suit(five) {
                    assert(five[1].suit == five[0].suit && five[2].suit == five[0].suit
                        && five[3].suit == five[0].suit && five[4].suit == five[0].suit);
                }
            }
            if river.rank == 14 {
                lemma_bound(cards, picks, 14);
            } else {
                lemma_bound(cards, picks, 13);
            }
        }
        if river.rank == 14 {
            let straight = seq![0usize, 3usize, 4usize, 5usize, 6usize];
            assert(is_selection(straight, 5, 7));
            lemma_straight_from_ten(cards, straight);
        }
    }
}

/// The strength of a player's best hand is that of five of the player's
/// cards.
proof fn lemma_best_is_a_choice(hand: Hand, cards: Seq<Card>) -> (picks: Seq<usize>)
    requires
        is_best_hand(hand, cards),
    ensures
        is_selection(picks, 5, cards.len()),
        strength_of(selected(cards, picks)) == hand.strength(),
{
    choose|picks: Seq<usize>| #[trigger]
        is_best_selection(cards, picks) && hand.cards@ == selected(cards, picks)
}

/// Who wins, for every card that can come on the river: the queens alone
/// where it is a ten, a jack, the last queen or a king; both players where it is
/// an ace; the aces alone otherwise.
pub proof fn lemma_queens_against_aces(river: Card, view: GameView, winners: Seq<(usize, Hand)>)
    requires
        is_river(river),
        view.board == the_board(river),
        view.hole_cards == seq![the_queens(), the_aces()],
        is_showdown(view, winners),
    ensures
        10 <= river.rank <= 13 ==> winners.len() == 1 && winners[0].0 == 0,
        river.rank == 14 ==> winners.len() == 2 && winners[0].0 == 0 && winners[1].0 == 1,
        river.rank <= 9 ==> winners.len() == 1 && winners[0].0 == 1,
{
    let queens = player_cards(view.hole_cards[0], view.board);
    let aces = player_cards(view.hole_cards[1], view.board);
    let top = winners[0].1.strength();
    assert(queens == player_cards(the_queens(), the_board(river)));
    assert(aces == player_cards(the_aces(), the_board(river)));
    lemma_rows(river);
    lemma_aces(river);
    lemma_queens(river);
    let straight = choose|picks: Seq<usize>| #[trigger]
        is_selection(picks, 5, 7) && strength_of(selected(aces, picks)) == (5u8, 10u64);
    assert(strength_le(strength_of(selected(aces, straight)), top));
    // What each winner holds is a choice of five of that player's cards.
    assert forall|i: int| 0 <= i < winners.len() implies (winners[i].0 == 0 || winners[i].0 == 1)
        && (winners[i].0 == 1 ==> strength_le(top, (5u8, 10u64))) && (winners[i].0 == 0
        && river.rank == 14 ==> strength_le(top, (5u8, 10u64))) && (winners[i].0 == 0
        && river.rank <= 9 ==> strength_lt(top, (5u8, 10u64))) by {
        assert(winners[i].1.strength() == top);
        if winners[i].0 == 0 {
            let picks = lemma_best_is_a_choice(winners[i].1, queens);
            assert(is_selection(picks, 5, 7));
        } else {
            let picks = lemma_best_is_a_choice(winners[i].1, aces);
            assert(is_selection(picks, 5, 7));
        }
    }
    assert(winners.len() <= 2) by {
        if winners.len() >= 3 {
            assert(winners[0].0 < winners[1].0);
            assert(winners[1].0 < winners[2].0);
        }
    }
    if winners.len() == 2 {
        assert(winners[0].0 < winners[1].0);
    }
    if 10 <= river.rank <= 13 {
        let strong = choose|picks: Seq<usize>| #[trigger]
            is_selection(picks, 5, 7) && strength_of(selected(queens, picks)).0 >= 7;
        assert(strength_le(strength_of(selected(queens, strong)), top));
    } else if river.rank == 14 {
        let same = choose|picks: Seq<usize>| #[trigger]
            is_selection(picks, 5, 7) && strength_of(selected(queens, picks)) == (5u8, 10u64);
        assert(strength_le(strength_of(selected(queens, same)), top));
        assert(top == (5u8, 10u64));
        assert(exists|i: int| 0 <= i < winners.len() && (#[trigger] winners[i]).0 == 0);
        assert(exists|i: int| 0 <= i < winners.len() && (#[trigger] winners[i]).0 == 1);
    }
}

} // verus!
