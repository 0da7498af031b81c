//! Five-card hands: their nine kinds, and the evaluator that rates them.

use vstd::prelude::*;
use vstd::seq_lib::*;
use crate::cards::Card;
use crate::rating::{
    group_lt, group_sizes, is_group, kicker_score, lemma_count_concat, lemma_count_empty,
    lemma_count_push, lemma_grouping_unique, lemma_rank_groups, lemma_sorted_ranks, pow16,
    rank_groups, ranks_of, rating, same_suit, sorted_ranks, straight_score_of,
};
use crate::sorting::{groups_ascending, rank_ascending, sorted_by_rank, sorted_groups};
use crate::wrappers::{chunk_by_rank, is_rank_chunking};

verus! {

/// The nine kinds of hand, strongest first.
#[derive(Debug, Copy, Clone, PartialEq, Eq, Structural)]
pub enum HandType {
    StraightFlush,
    Quads,
    FullHouse,
    Flush,
    Straight,
    ThreeOfAKind,
    TwoPair,
    Pair,
    HighCard,
}

/// A rated hand: five cards with the kind, level and score that they make.
///
/// Hands compare by level first and by score second; which cards made a
/// hand plays no part in the comparison.
#[derive(Clone)]
pub struct Hand {
    pub cards: Vec<Card>,
    pub hand_type: HandType,
    /// The strength tier, from 1 (high card) to 9 (straight flush).
    pub level: u8,
    /// What breaks ties between hands of one level.
    pub score: u64,
}

impl Hand {
    /// The kind, level and score are those that the cards make.
    pub open spec fn wf(&self) -> bool {
        rating(self.cards@) == Some((self.hand_type, self.level, self.score))
    }

    /// Rates five cards that form one of the nine kinds of hand; the hand
    /// keeps copies of the cards.
    pub fn new(cards: Vec<&Card>) -> (hand: Hand)
        requires
            rating(cards@.map_values(|card: &Card| *card)) is Some,
        ensures
            hand.cards@ == cards@.map_values(|card: &Card| *card),
            hand.wf(),
    {
        let mut owned: Vec<Card> = Vec::new();
        let mut n: usize = 0;
        while n < cards.len()
            invariant
                n <= cards.len(),
                owned@.len() == n,
                forall|i: int| 0 <= i < n ==> owned@[i] == *cards@[i],
            decreases cards.len() - n,
        {
            owned.push(*cards[n]);
            n = n + 1;
        }
        assert(owned@ =~= cards@.map_values(|card: &Card| *card));
        let (hand_type, level, score) = get_hand_type_level_and_score(&owned).unwrap();
        Hand { cards: owned, hand_type, level, score }
    }

    /// Rates the cards if they have a rating: `None` for any number of cards
    /// but five, and for five cards outside the table of kinds, which cannot
    /// come out of one deck.
    pub fn evaluate(cards: Vec<Card>) -> (hand: Option<Hand>)
        ensures
            match hand {
                Some(hand) => hand.cards@ == cards@ && hand.wf(),
                None => rating(cards@) is None,
            },
    {
        match get_hand_type_level_and_score(&cards) {
            Some((hand_type, level, score)) => Some(Hand { cards, hand_type, level, score }),
            None => None,
        }
    }
}

/// The kind, level and score of a five-card hand, by the table of kinds; `None`
/// where the cards are not five or fall outside the table.
pub fn get_hand_type_level_and_score(cards: &Vec<Card>) -> (result: Option<(HandType, u8, u64)>)
    ensures
        result == rating(cards@),
{
    if cards.len() != 5 {
        return None;
    }
    let flush = all_same_suit(cards);
    let straight = straight_score(cards);
    let (sizes, kickers) = get_groupings_and_score(cards);
    let n = sizes.len();
    let singles = n == 5 && sizes[0] == 1 && sizes[1] == 1 && sizes[2] == 1 && sizes[3] == 1
        && sizes[4] == 1;
    let quads = n == 2 && sizes[0] == 4 && sizes[1] == 1;
    let full_house = n == 2 && sizes[0] == 3 && sizes[1] == 2;
    let trips = n == 3 && sizes[0] == 3 && sizes[1] == 1 && sizes[2] == 1;
    let two_pair = n == 3 && sizes[0] == 2 && sizes[1] == 2 && sizes[2] == 1;
    let pair = n == 4 && sizes[0] == 2 && sizes[1] == 1 && sizes[2] == 1 && sizes[3] == 1;
    proof {
        assert(singles <==> sizes@ =~= seq![1u8, 1u8, 1u8, 1u8, 1u8]);
        assert(quads <==> sizes@ =~= seq![4u8, 1u8]);
        assert(full_house <==> sizes@ =~= seq![3u8, 2u8]);
        assert(trips <==> sizes@ =~= seq![3u8, 1u8, 1u8]);
        assert(two_pair <==> sizes@ =~= seq![2u8, 2u8, 1u8]);
        assert(pair <==> sizes@ =~= seq![2u8, 1u8, 1u8, 1u8]);
    }
    if singles {
        match (flush, straight) {
            (true, Some(low)) => Some((HandType::StraightFlush, 9, low)),
            (true, None) => Some((HandType::Flush, 6, kickers)),
            (false, Some(low)) => Some((HandType::Straight, 5, low)),
            (false, None) => Some((HandType::HighCard, 1, kickers)),
        }
    } else if flush || straight.is_some() {
        None
    } else if quads {
        Some((HandType::Quads, 8, kickers))
    } else if full_house {
        Some((HandType::FullHouse, 7, kickers))
    } else if trips {
        Some((HandType::ThreeOfAKind, 4, kickers))
    } else if two_pair {
        Some((HandType::TwoPair, 3, kickers))
    } else if pair {
        Some((HandType::Pair, 2, kickers))
    } else {
        None
    }
}

/// Whether all the cards are of one suit.
pub fn all_same_suit(cards: &Vec<Card>) -> (same: bool)
    ensures
        same == same_suit(cards@),
{
    let mut n: usize = 0;
    while n < cards.len()
        invariant
            n <= cards.len(),
            forall|i: int| 0 <= i < n ==> (#[trigger] cards@[i]).suit == cards@[0].suit,
        decreases cards.len() - n,
    {
        if cards[n].suit != cards[0].suit {
            return false;
        }
        n = n + 1;
    }
    true
}

/// The score of the straight that the cards form, if they form one: the lowest
/// of five consecutive ranks, and 1 for the wheel, where the ace counts low.
pub fn straight_score(cards: &Vec<Card>) -> (score: Option<u64>)
    ensures
        score == straight_score_of(ranks_of(cards@)),
{
    let ordered_cards = sorted_by_rank(cards);
    let ghost ordered_ranks = ranks_of(ordered_cards@);
    proof {
        lemma_sorted_ranks(ranks_of(cards@), ordered_ranks);
    }
    if ordered_cards.len() != 5 {
        return None;
    }
    if ordered_cards[0].rank == 2 && ordered_cards[1].rank == 3 && ordered_cards[2].rank == 4
        && ordered_cards[3].rank == 5 && ordered_cards[4].rank == 14 {
        assert(ordered_ranks =~= seq![2u8, 3u8, 4u8, 5u8, 14u8]);
        return Some(1);
    }
    assert(!(ordered_ranks =~= seq![2u8, 3u8, 4u8, 5u8, 14u8])) by {
        if ordered_ranks =~= seq![2u8, 3u8, 4u8, 5u8, 14u8] {
            assert(ordered_ranks[0] == 2 && ordered_ranks[1] == 3 && ordered_ranks[2] == 4
                && ordered_ranks[3] == 5 && ordered_ranks[4] == 14);
        }
    }
    let lowest = ordered_cards[0].rank;
    let mut n: usize = 0;
    while n < 5
        invariant
            n <= 5,
            ordered_cards@.len() == 5,
            ordered_ranks == ranks_of(ordered_cards@),
            ordered_ranks == sorted_ranks(ranks_of(cards@)),
            !(ordered_ranks =~= seq![2u8, 3u8, 4u8, 5u8, 14u8]),
            lowest == ordered_ranks[0],
            forall|i: int| 0 <= i < n ==> #[trigger] ordered_ranks[i] == ordered_ranks[0] + i,
        decreases 5 - n,
    {
        if ordered_cards[n].rank as u64 != lowest as u64 + n as u64 {
            assert(ordered_ranks[n as int] != ordered_ranks[0] + n);
            return None;
        }
        n = n + 1;
    }
    Some(lowest as u64)
}

proof fn lemma_constant_run(run: Seq<Card>, rank: u8, other: u8)
    requires
        forall|k: int| 0 <= k < run.len() ==> (#[trigger] run[k]).rank == rank,
    ensures
        ranks_of(run).to_multiset().count(rank) == run.len(),
        other != rank ==> ranks_of(run).to_multiset().count(other) == 0,
    decreases run.len(),
{
    if run.len() == 0 {
        lemma_count_empty(ranks_of(run), rank);
        lemma_count_empty(ranks_of(run), other);
    } else {
        let init = run.drop_last();
        lemma_constant_run(init, rank, other);
        assert(ranks_of(run) =~= ranks_of(init).push(run.last().rank));
        lemma_count_push(ranks_of(init), run.last().rank, rank);
        lemma_count_push(ranks_of(init), run.last().rank, other);
    }
}

/// What a chunking of cards in ascending order of rank says of the ranks: each
/// run holds all the cards of its rank, and the runs come in ascending order
/// of rank.
spec fn chunks_count_ranks(cards: Seq<Card>, runs: Seq<Seq<Card>>) -> bool {
    &&& runs.len() <= cards.len()
    &&& runs.len() > 0 ==> cards.len() > 0 && cards[0] == runs[0][0]
    &&& forall|i: int|
        0 <= i < runs.len() ==> ranks_of(cards).to_multiset().count((#[trigger] runs[i])[0].rank)
            == runs[i].len()
    &&& forall|i: int, j: int|
        0 <= i < j < runs.len() ==> (#[trigger] runs[i])[0].rank < (#[trigger] runs[j])[0].rank
    &&& forall|rank: u8|
        ranks_of(cards).to_multiset().count(rank) >= 1 ==> exists|i: int|
            0 <= i < runs.len() && (#[trigger] runs[i])[0].rank == rank
}

proof fn lemma_chunk_tail(cards: Seq<Card>, runs: Seq<Seq<Card>>)
    requires
        is_rank_chunking(cards, runs),
        rank_ascending(cards),
        runs.len() > 0,
    ensures
        cards == runs.first() + runs.drop_first().flatten(),
        is_rank_chunking(runs.drop_first().flatten(), runs.drop_first()),
        rank_ascending(runs.drop_first().flatten()),
{
    let first = runs.first();
    let rest = runs.drop_first();
    let tail = rest.flatten();
    assert(cards == first + tail);
    assert forall|i: int, j: int| 0 <= i && j == i + 1 && j < rest.len() implies (
    #[trigger] rest[i])[0].rank != (#[trigger] rest[j])[0].rank by {
        assert(rest[i] == runs[i + 1]);
        assert(rest[j] == runs[j + 1]);
    }
    assert forall|i: int, k: int| 0 <= i < rest.len() && 0 <= k < rest[i].len() implies (
    #[trigger] rest[i][k]).rank == rest[i][0].rank by {
        assert(rest[i] == runs[i + 1]);
    }
    assert forall|i: int| 0 <= i < rest.len() implies (#[trigger] rest[i]).len() >= 1 by {
        assert(rest[i] == runs[i + 1]);
    }
    assert forall|i: int, j: int| 0 <= i <= j < tail.len() implies tail[i].rank
        <= tail[j].rank by {
        assert(tail[i] == cards[first.len() + i]);
        assert(tail[j] == cards[first.len() + j]);
    }
}

proof fn lemma_chunk_counts(cards: Seq<Card>, runs: Seq<Seq<Card>>)
    requires
        is_rank_chunking(cards, runs),
        rank_ascending(cards),
    ensures
        chunks_count_ranks(cards, runs),
    decreases runs.len(),
{
    if runs.len() == 0 {
        assert(cards =~= Seq::<Card>::empty());
        assert forall|rank: u8| ranks_of(cards).to_multiset().count(rank) == 0 by {
            lemma_count_empty(ranks_of(cards), rank);
        }
    } else {
        let first = runs.first();
        let rest = runs.drop_first();
        let tail = rest.flatten();
        let key = first[0].rank;
        lemma_chunk_tail(cards, runs);
        lemma_chunk_counts(tail, rest);
        assert(ranks_of(cards) =~= ranks_of(first) + ranks_of(tail));
        assert(first == runs[0]);
        assert forall|k: int| 0 <= k < first.len() implies (#[trigger] first[k]).rank == key by {
            assert(runs[0][k].rank == runs[0][0].rank);
        }
        if rest.len() > 0 {
            assert(cards[first.len() - 1] == first[first.len() - 1]);
            assert(cards[first.len() as int] == tail[0]);
            assert(rest[0] == runs[1]);
            assert(runs[0][0].rank != runs[1][0].rank);
            assert(key < rest[0][0].rank);
        }
        assert forall|i: int| 0 <= i < rest.len() implies key < (#[trigger] rest[i])[0].rank by {
            if i > 0 {
                assert(rest[0][0].rank < rest[i][0].rank);
            }
        }
        assert(ranks_of(tail).to_multiset().count(key) == 0) by {
            if ranks_of(tail).to_multiset().count(key) >= 1 {
                let i = choose|i: int| 0 <= i < rest.len() && (#[trigger] rest[i])[0].rank == key;
                assert(key < rest[i][0].rank);
            }
        }
        assert forall|i: int| 0 <= i < runs.len() implies ranks_of(cards).to_multiset().count(
            (#[trigger] runs[i])[0].rank,
        ) == runs[i].len() by {
            let rank = runs[i][0].rank;
            lemma_count_concat(ranks_of(first), ranks_of(tail), rank);
            lemma_constant_run(first, key, rank);
            if i > 0 {
                assert(runs[i] == rest[i - 1]);
                assert(key < rest[i - 1][0].rank);
            }
        }
        assert forall|i: int, j: int| 0 <= i < j < runs.len() implies (#[trigger] runs[i])[0].rank
            < (#[trigger] runs[j])[0].rank by {
            assert(runs[j] == rest[j - 1]);
            assert(key < rest[j - 1][0].rank);
            if i > 0 {
                assert(runs[i] == rest[i - 1]);
            }
        }
        assert forall|rank: u8| ranks_of(cards).to_multiset().count(rank) >= 1 implies exists|
            i: int,
        |
            0 <= i < runs.len() && (#[trigger] runs[i])[0].rank == rank by {
            lemma_count_concat(ranks_of(first), ranks_of(tail), rank);
            lemma_constant_run(first, key, rank);
            if rank == key {
                assert(runs[0][0].rank == rank);
            } else {
                let i = choose|i: int| 0 <= i < rest.len() && (#[trigger] rest[i])[0].rank == rank;
                assert(runs[i + 1] == rest[i]);
            }
        }
    }
}

/// The pairs `(size, rank)` read off the runs, once sorted, are the rank
/// groups of the cards.
proof fn lemma_sorted_chunks_are_groups(
    ranks: Seq<u8>,
    cards: Seq<Card>,
    runs: Seq<Seq<Card>>,
    unsorted: Seq<(u8, u8)>,
    groups: Seq<(u8, u8)>,
)
    requires
        chunks_count_ranks(cards, runs),
        ranks_of(cards).to_multiset() == ranks.to_multiset(),
        ranks.len() <= 255,
        unsorted.len() == runs.len(),
        forall|i: int|
            0 <= i < runs.len() ==> (#[trigger] unsorted[i]) == (
                runs[i].len() as u8,
                runs[i][0].rank,
            ),
        forall|i: int| 0 <= i < runs.len() ==> 1 <= (#[trigger] runs[i]).len() <= 255,
        groups_ascending(groups),
        groups.to_multiset() == unsorted.to_multiset(),
    ensures
        groups == rank_groups(ranks),
{
    assert(unsorted.no_duplicates()) by {
        assert forall|i: int, j: int|
            0 <= i < unsorted.len() && 0 <= j < unsorted.len() && i != j implies unsorted[i]
            != unsorted[j] by {
            if i < j {
                assert(runs[i][0].rank < runs[j][0].rank);
            } else {
                assert(runs[j][0].rank < runs[i][0].rank);
            }
        }
    }
    unsorted.lemma_multiset_has_no_duplicates();
    groups.lemma_multiset_has_no_duplicates_conv();
    assert forall|i: int, j: int| 0 <= i < j < groups.len() implies group_lt(
        groups[i],
        groups[j],
    ) by {
        assert(groups[i] != groups[j]);
        assert(crate::rating::group_le(groups[i], groups[j]));
    }
    assert forall|group: (u8, u8)| #[trigger] groups.contains(group) <==> is_group(
        ranks,
        group,
    ) by {
        to_multiset_contains(groups, group);
        to_multiset_contains(unsorted, group);
        if unsorted.contains(group) {
            let i = choose|i: int| 0 <= i < unsorted.len() && unsorted[i] == group;
            assert(group == (runs[i].len() as u8, runs[i][0].rank));
        }
        if is_group(ranks, group) {
            let i = choose|i: int| 0 <= i < runs.len() && (#[trigger] runs[i])[0].rank == group.1;
            assert(unsorted[i] == group);
        }
    }
    lemma_rank_groups(ranks);
    lemma_grouping_unique(ranks, groups, rank_groups(ranks));
}

/// The sizes of the rank groups, largest first, and the score that their ranks
/// give: the first being what decides the kind of a hand, the second what
/// breaks ties within a kind.
pub fn get_groupings_and_score(cards: &Vec<Card>) -> (result: (Vec<u8>, u64))
    requires
        cards@.len() == 5,
    ensures
        result.0@ == group_sizes(rank_groups(ranks_of(cards@))),
        result.1 == kicker_score(rank_groups(ranks_of(cards@))),
{
    let ghost ranks = ranks_of(cards@);
    let ordered_cards = sorted_by_rank(cards);
    let runs = chunk_by_rank(&ordered_cards);
    let ghost chunks = runs@.map_values(|run: Vec<Card>| run@);
    proof {
        lemma_chunk_counts(ordered_cards@, chunks);
        to_multiset_len(ranks);
        assert forall|i: int| 0 <= i < chunks.len() implies 1 <= (#[trigger] chunks[i]).len()
            <= 5 by {
            vstd::multiset::axiom_count_le_len(ranks.to_multiset(), chunks[i][0].rank);
        }
    }
    let mut group_sizes_and_ranks: Vec<(u8, u8)> = Vec::new();
    let mut n: usize = 0;
    while n < runs.len()
        invariant
            n <= runs.len(),
            chunks == runs@.map_values(|run: Vec<Card>| run@),
            chunks.len() == runs.len(),
            group_sizes_and_ranks@.len() == n,
            forall|i: int| 0 <= i < chunks.len() ==> 1 <= (#[trigger] chunks[i]).len() <= 5,
            forall|i: int|
                0 <= i < n ==> (#[trigger] group_sizes_and_ranks[i]) == (
                    chunks[i].len() as u8,
                    chunks[i][0].rank,
                ),
        decreases runs.len() - n,
    {
        let run = &runs[n];
        assert(run@ == chunks[n as int]);
        group_sizes_and_ranks.push((run.len() as u8, run[0].rank));
        n = n + 1;
    }
    let groups = sorted_groups(&group_sizes_and_ranks);
    proof {
        lemma_sorted_chunks_are_groups(
            ranks,
            ordered_cards@,
            chunks,
            group_sizes_and_ranks@,
            groups@,
        );
        assert(groups@.len() <= 5);
    }
    let mut sizes: Vec<u8> = Vec::new();
    let mut left: usize = groups.len();
    while left > 0
        invariant
            left <= groups.len(),
            sizes@.len() == groups.len() - left,
            forall|i: int| 0 <= i < sizes@.len() ==> sizes@[i] == groups@[groups.len() - 1 - i].0,
        decreases left,
    {
        left = left - 1;
        sizes.push(groups[left].0);
    }
    assert(sizes@ =~= group_sizes(groups@));
    let mut score: u64 = 0;
    let mut weight: u64 = 1;
    let mut n: usize = 0;
    while n < groups.len()
        invariant
            n <= groups.len() <= 5,
            weight == pow16(n as nat),
            weight <= 1048576,
            score == kicker_score(groups@.take(n as int)),
            score < 256 * weight,
        decreases groups.len() - n,
    {
        let rank = groups[n].1;
        proof {
            assert(groups@.take(n + 1).drop_last() =~= groups@.take(n as int));
            assert(rank as u64 * weight <= 255 * weight) by (nonlinear_arith)
                requires
                    rank <= 255,
            ;
            reveal_with_fuel(pow16, 6);
        }
        score = score + rank as u64 * weight;
        weight = weight * 16;
        n = n + 1;
    }
    assert(groups@.take(groups@.len() as int) =~= groups@);
    (sizes, score)
}

} // verus!
