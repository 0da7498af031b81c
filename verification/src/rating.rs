//! What a five-card hand is worth, stated over multisets of ranks.
//!
//! A hand's cards are partitioned by rank into *groups*, each written as a
//! pair `(size, rank)`. The groups in ascending order of size and then of rank
//! decide both the kind of the hand (through the sizes) and its score within
//! that kind (through the ranks, read as digits in base 16).

use vstd::prelude::*;
use vstd::seq_lib::*;
use crate::cards::Card;
use crate::hands::HandType;

verus! {

/// The ranks of a sequence of cards, in the same order.
pub open spec fn ranks_of(cards: Seq<Card>) -> Seq<u8> {
    cards.map_values(|card: Card| card.rank)
}

/// `group` is `(n, r)` where rank `r` occurs `n >= 1` times among `ranks`.
pub open spec fn is_group(ranks: Seq<u8>, group: (u8, u8)) -> bool {
    group.0 >= 1 && group.0 == ranks.to_multiset().count(group.1)
}

/// Groups are ordered by size first and by rank second.
pub open spec fn group_lt(a: (u8, u8), b: (u8, u8)) -> bool {
    a.0 < b.0 || (a.0 == b.0 && a.1 < b.1)
}

/// The non-strict form of [`group_lt`].
pub open spec fn group_le(a: (u8, u8), b: (u8, u8)) -> bool {
    a == b || group_lt(a, b)
}

/// The position of a pair in the ascending enumeration of all pairs.
pub open spec fn group_key(group: (u8, u8)) -> nat {
    (group.0 * 256 + group.1) as nat
}

/// The pair at a position of the ascending enumeration of all pairs.
pub open spec fn group_at(key: nat) -> (u8, u8) {
    ((key / 256) as u8, (key % 256) as u8)
}

/// The groups of `ranks` among the first `bound` pairs, ascending.
pub open spec fn groups_below(ranks: Seq<u8>, bound: nat) -> Seq<(u8, u8)>
    decreases bound,
{
    if bound == 0 {
        Seq::empty()
    } else {
        let rest = groups_below(ranks, (bound - 1) as nat);
        let group = group_at((bound - 1) as nat);
        if is_group(ranks, group) {
            rest.push(group)
        } else {
            rest
        }
    }
}

/// All groups of `ranks`, ascending by size and then by rank.
pub open spec fn rank_groups(ranks: Seq<u8>) -> Seq<(u8, u8)> {
    groups_below(ranks, 65536)
}

/// `groups` lists, strictly ascending, exactly the groups of `ranks`.
pub open spec fn is_grouping(ranks: Seq<u8>, groups: Seq<(u8, u8)>) -> bool {
    &&& forall|i: int, j: int| 0 <= i < j < groups.len() ==> group_lt(groups[i], groups[j])
    &&& forall|group: (u8, u8)| #[trigger] groups.contains(group) <==> is_group(ranks, group)
}

/// `16^n`.
pub open spec fn pow16(n: nat) -> nat
    decreases n,
{
    if n == 0 {
        1
    } else {
        16 * pow16((n - 1) as nat)
    }
}

/// The ranks of the groups read as a number in base 16, the first group being
/// the least significant digit: the sum of `rank_i * 16^i`.
pub open spec fn kicker_score(groups: Seq<(u8, u8)>) -> nat
    decreases groups.len(),
{
    if groups.len() == 0 {
        0
    } else {
        kicker_score(groups.drop_last()) + groups.last().1 as nat * pow16(
            (groups.len() - 1) as nat,
        )
    }
}

/// The sizes of the groups, largest group first.
pub open spec fn group_sizes(groups: Seq<(u8, u8)>) -> Seq<u8> {
    Seq::new(groups.len(), |i: int| groups[groups.len() - 1 - i].0)
}

/// All cards share the suit of the first.
pub open spec fn same_suit(cards: Seq<Card>) -> bool {
    forall|i: int| 0 <= i < cards.len() ==> (#[trigger] cards[i]).suit == cards[0].suit
}

/// The order of ranks, as a relation.
pub open spec fn rank_le() -> spec_fn(u8, u8) -> bool {
    |a: u8, b: u8| a <= b
}

/// The ranks in ascending order.
pub open spec fn sorted_ranks(ranks: Seq<u8>) -> Seq<u8> {
    ranks.sort_by(rank_le())
}

/// Five ranks, each one above the one before it.
pub open spec fn is_run(sorted: Seq<u8>) -> bool {
    &&& sorted.len() == 5
    &&& forall|i: int| 0 <= i < 5 ==> #[trigger] sorted[i] == sorted[0] + i
}

/// The score of a straight: 1 for the wheel (ace, 2, 3, 4, 5), else the
/// lowest rank of five consecutive ranks; `None` where the ranks form no
/// straight.
pub open spec fn straight_score_of(ranks: Seq<u8>) -> Option<u64> {
    let sorted = sorted_ranks(ranks);
    if sorted =~= seq![2u8, 3u8, 4u8, 5u8, 14u8] {
        Some(1u64)
    } else if is_run(sorted) {
        Some(sorted[0] as u64)
    } else {
        None
    }
}

/// The table of hand kinds: from the group sizes (largest first), whether
/// the cards share a suit, and the straight score if there is one, to the kind,
/// its level from 9 (strongest) to 1, and the score within the level. A
/// combination outside the table has no rating.
pub open spec fn classify(
    sizes: Seq<u8>,
    flush: bool,
    straight: Option<u64>,
    kickers: u64,
) -> Option<(HandType, u8, u64)> {
    if sizes =~= seq![1u8, 1u8, 1u8, 1u8, 1u8] {
        match (flush, straight) {
            (true, Some(low)) => Some((HandType::StraightFlush, 9u8, low)),
            (true, None) => Some((HandType::Flush, 6u8, kickers)),
            (false, Some(low)) => Some((HandType::Straight, 5u8, low)),
            (false, None) => Some((HandType::HighCard, 1u8, kickers)),
        }
    } else if flush || straight is Some {
        None
    } else if sizes =~= seq![4u8, 1u8] {
        Some((HandType::Quads, 8u8, kickers))
    } else if sizes =~= seq![3u8, 2u8] {
        Some((HandType::FullHouse, 7u8, kickers))
    } else if sizes =~= seq![3u8, 1u8, 1u8] {
        Some((HandType::ThreeOfAKind, 4u8, kickers))
    } else if sizes =~= seq![2u8, 2u8, 1u8] {
        Some((HandType::TwoPair, 3u8, kickers))
    } else if sizes =~= seq![2u8, 1u8, 1u8, 1u8] {
        Some((HandType::Pair, 2u8, kickers))
    } else {
        None
    }
}

/// The rating of a hand: kind, level and score. Only five cards have one, and
/// of those only the combinations in the table of [`classify`].
pub open spec fn rating(cards: Seq<Card>) -> Option<(HandType, u8, u64)> {
    if cards.len() == 5 {
        let groups = rank_groups(ranks_of(cards));
        classify(
            group_sizes(groups),
            same_suit(cards),
            straight_score_of(ranks_of(cards)),
            kicker_score(groups) as u64,
        )
    } else {
        None
    }
}

/// A list of ranks that never falls, with the same ranks as `ranks`, each as
/// often, is [`sorted_ranks`] of `ranks`.
pub proof fn lemma_sorted_ranks(ranks: Seq<u8>, sorted: Seq<u8>)
    requires
        forall|i: int, j: int| 0 <= i <= j < sorted.len() ==> sorted[i] <= sorted[j],
        sorted.to_multiset() == ranks.to_multiset(),
    ensures
        sorted == sorted_ranks(ranks),
{
    let le = rank_le();
    assert(vstd::relations::total_ordering(le)) by {
        assert(vstd::relations::reflexive(le));
        assert(vstd::relations::antisymmetric(le));
        assert(vstd::relations::transitive(le));
        assert(vstd::relations::strongly_connected(le));
    }
    ranks.lemma_sort_by_ensures(le);
    assert(vstd::relations::sorted_by(sorted, le));
    vstd::seq_lib::lemma_sorted_unique(sorted, ranks.sort_by(le), le);
}

pub(crate) proof fn lemma_count_empty(ranks: Seq<u8>, rank: u8)
    requires
        ranks.len() == 0,
    ensures
        ranks.to_multiset().count(rank) == 0,
{
    to_multiset_len(ranks);
    vstd::multiset::axiom_count_le_len(ranks.to_multiset(), rank);
}

pub(crate) proof fn lemma_count_concat(a: Seq<u8>, b: Seq<u8>, rank: u8)
    ensures
        (a + b).to_multiset().count(rank) == a.to_multiset().count(rank) + b.to_multiset().count(
            rank,
        ),
{
    lemma_multiset_commutative(a, b);
    vstd::multiset::axiom_multiset_add(a.to_multiset(), b.to_multiset(), rank);
}

pub(crate) proof fn lemma_count_push(ranks: Seq<u8>, last: u8, rank: u8)
    ensures
        ranks.push(last).to_multiset().count(rank) == ranks.to_multiset().count(rank) + if last
            == rank {
            1nat
        } else {
            0nat
        },
{
    broadcast use vstd::multiset::group_multiset_axioms;

    to_multiset_build(ranks, last);
}


/// Among five ranks a rank occurs as often as there are positions that hold
/// it.
pub proof fn lemma_count_five(ranks: Seq<u8>, rank: u8)
    requires
        ranks.len() == 5,
    ensures
        ranks.to_multiset().count(rank) == (if ranks[0] == rank {
            1nat
        } else {
            0nat
        }) + (if ranks[1] == rank {
            1nat
        } else {
            0nat
        }) + (if ranks[2] == rank {
            1nat
        } else {
            0nat
        }) + (if ranks[3] == rank {
            1nat
        } else {
            0nat
        }) + (if ranks[4] == rank {
            1nat
        } else {
            0nat
        }),
{
    let s0 = Seq::<u8>::empty();
    let s1 = s0.push(ranks[0]);
    let s2 = s1.push(ranks[1]);
    let s3 = s2.push(ranks[2]);
    let s4 = s3.push(ranks[3]);
    let s5 = s4.push(ranks[4]);
    assert(ranks =~= s5);
    lemma_count_empty(s0, rank);
    lemma_count_push(s0, ranks[0], rank);
    lemma_count_push(s1, ranks[1], rank);
    lemma_count_push(s2, ranks[2], rank);
    lemma_count_push(s3, ranks[3], rank);
    lemma_count_push(s4, ranks[4], rank);
}

/// The sum of the sizes of the groups.
pub open spec fn total_size(groups: Seq<(u8, u8)>) -> nat
    decreases groups.len(),
{
    if groups.len() == 0 {
        0
    } else {
        total_size(groups.drop_last()) + groups.last().0 as nat
    }
}

proof fn lemma_total_push(groups: Seq<(u8, u8)>, group: (u8, u8))
    ensures
        total_size(groups.push(group)) == total_size(groups) + group.0,
{
    assert(groups.push(group).drop_last() =~= groups);
}

proof fn lemma_total_step(ranks: Seq<u8>, next: u8, bound: nat)
    requires
        bound <= 65536,
        ranks.len() < 255,
    ensures
        ({
            let c = ranks.to_multiset().count(next);
            let gained: nat = if (c + 1) * 256 + next < bound {
                c + 1
            } else {
                0
            };
            let lost: nat = if c >= 1 && c * 256 + next < bound {
                c
            } else {
                0
            };
            total_size(groups_below(ranks.push(next), bound)) + lost == total_size(
                groups_below(ranks, bound),
            ) + gained
        }),
    decreases bound,
{
    if bound > 0 {
        let below = (bound - 1) as nat;
        lemma_total_step(ranks, next, below);
        let group = group_at(below);
        lemma_group_at(below);
        lemma_count_push(ranks, next, group.1);
        to_multiset_len(ranks);
        vstd::multiset::axiom_count_le_len(ranks.to_multiset(), next);
        lemma_total_push(groups_below(ranks, below), group);
        lemma_total_push(groups_below(ranks.push(next), below), group);
    }
}

/// The sizes of the groups add up to the number of ranks: every rank is
/// counted in exactly one group.
pub proof fn lemma_groups_cover(ranks: Seq<u8>)
    requires
        ranks.len() <= 255,
    ensures
        total_size(rank_groups(ranks)) == ranks.len(),
    decreases ranks.len(),
{
    if ranks.len() == 0 {
        lemma_groups_below(ranks, 65536);
        let groups = rank_groups(ranks);
        if groups.len() > 0 {
            assert(is_group(ranks, groups[0]));
            lemma_count_empty(ranks, groups[0].1);
        }
    } else {
        let init = ranks.drop_last();
        let last = ranks.last();
        lemma_groups_cover(init);
        lemma_total_step(init, last, 65536);
        assert(ranks =~= init.push(last));
        to_multiset_len(init);
        vstd::multiset::axiom_count_le_len(init.to_multiset(), last);
    }
}

proof fn lemma_total_bounds(groups: Seq<(u8, u8)>)
    requires
        forall|i: int| 0 <= i < groups.len() ==> (#[trigger] groups[i]).0 >= 1,
    ensures
        total_size(groups) >= groups.len(),
    decreases groups.len(),
{
    if groups.len() > 0 {
        lemma_total_bounds(groups.drop_last());
    }
}

/// The seven ways to split five cards into groups, as lists of group sizes with
/// the largest first.
pub open spec fn is_split_of_five(sizes: Seq<u8>) -> bool {
    ||| sizes =~= seq![5u8]
    ||| sizes =~= seq![4u8, 1u8]
    ||| sizes =~= seq![3u8, 2u8]
    ||| sizes =~= seq![3u8, 1u8, 1u8]
    ||| sizes =~= seq![2u8, 2u8, 1u8]
    ||| sizes =~= seq![2u8, 1u8, 1u8, 1u8]
    ||| sizes =~= seq![1u8, 1u8, 1u8, 1u8, 1u8]
}

proof fn lemma_total_unfold(groups: Seq<(u8, u8)>)
    ensures
        groups.len() == 1 ==> total_size(groups) == groups[0].0,
        groups.len() == 2 ==> total_size(groups) == groups[0].0 + groups[1].0,
        groups.len() == 3 ==> total_size(groups) == groups[0].0 + groups[1].0 + groups[2].0,
        groups.len() == 4 ==> total_size(groups) == groups[0].0 + groups[1].0 + groups[2].0
            + groups[3].0,
        groups.len() == 5 ==> total_size(groups) == groups[0].0 + groups[1].0 + groups[2].0
            + groups[3].0 + groups[4].0,
    decreases groups.len(),
{
    if groups.len() > 0 {
        lemma_total_unfold(groups.drop_last());
        if groups.len() == 1 {
            assert(total_size(groups.drop_last()) == 0);
        }
    }
}

/// Five ranks split into groups in one of seven ways.
pub proof fn lemma_group_sizes_of_five(ranks: Seq<u8>)
    requires
        ranks.len() == 5,
    ensures
        is_split_of_five(group_sizes(rank_groups(ranks))),
{
    let groups = rank_groups(ranks);
    let sizes = group_sizes(groups);
    lemma_rank_groups(ranks);
    lemma_groups_cover(ranks);
    assert forall|i: int| 0 <= i < groups.len() implies (#[trigger] groups[i]).0 >= 1 by {
        assert(groups.contains(groups[i]));
    }
    lemma_total_bounds(groups);
    lemma_total_unfold(groups);
    assert forall|i: int, j: int| 0 <= i < j < groups.len() implies groups[i].0
        <= groups[j].0 by {
        assert(group_lt(groups[i], groups[j]));
    }
    if groups.len() == 1 {
        assert(sizes =~= seq![5u8]);
    } else if groups.len() == 2 {
        assert(groups[0].0 <= groups[1].0);
        assert(sizes =~= seq![4u8, 1u8] || sizes =~= seq![3u8, 2u8]);
    } else if groups.len() == 3 {
        assert(groups[0].0 <= groups[1].0 <= groups[2].0);
        assert(sizes =~= seq![3u8, 1u8, 1u8] || sizes =~= seq![2u8, 2u8, 1u8]);
    } else if groups.len() == 4 {
        assert(groups[0].0 <= groups[1].0 <= groups[2].0 <= groups[3].0);
        assert(sizes =~= seq![2u8, 1u8, 1u8, 1u8]);
    } else {
        assert(groups.len() == 5);
        assert(groups[0].0 <= groups[1].0 <= groups[2].0 <= groups[3].0 <= groups[4].0);
        assert(sizes =~= seq![1u8, 1u8, 1u8, 1u8, 1u8]);
    }
}

/// [`sorted_ranks`] is a rearrangement of the ranks that never falls.
pub proof fn lemma_sorted_ranks_ascend(ranks: Seq<u8>)
    ensures
        sorted_ranks(ranks).to_multiset() == ranks.to_multiset(),
        sorted_ranks(ranks).len() == ranks.len(),
        forall|i: int, j: int|
            0 <= i <= j < ranks.len() ==> sorted_ranks(ranks)[i] <= sorted_ranks(ranks)[j],
{
    let le = rank_le();
    let sorted = sorted_ranks(ranks);
    assert(vstd::relations::total_ordering(le)) by {
        assert(vstd::relations::reflexive(le));
        assert(vstd::relations::antisymmetric(le));
        assert(vstd::relations::transitive(le));
        assert(vstd::relations::strongly_connected(le));
    }
    ranks.lemma_sort_by_ensures(le);
    to_multiset_len(ranks);
    to_multiset_len(sorted);
    assert forall|i: int, j: int| 0 <= i <= j < ranks.len() implies sorted[i] <= sorted[j] by {
        if i < j {
            assert(le(sorted[i], sorted[j]));
        }
    }
}

/// Five different cards always have a rating: among cards of one deck the
/// table of kinds leaves no case out.
pub proof fn lemma_distinct_cards_are_rated(cards: Seq<Card>)
    requires
        cards.len() == 5,
        cards.no_duplicates(),
    ensures
        rating(cards) is Some,
{
    let ranks = ranks_of(cards);
    let groups = rank_groups(ranks);
    let sizes = group_sizes(groups);
    let sorted = sorted_ranks(ranks);
    lemma_group_sizes_of_five(ranks);
    lemma_rank_groups(ranks);
    lemma_sorted_ranks_ascend(ranks);
    assert forall|i: int| 0 <= i < groups.len() implies #[trigger] is_group(ranks, groups[i]) by {
        assert(groups.contains(groups[i]));
    }
    assert forall|i: int| 0 <= i < sizes.len() implies #[trigger] sizes[i] == groups[groups.len()
        - 1 - i].0 by {}
    if sizes =~= seq![1u8, 1u8, 1u8, 1u8, 1u8] {
    } else {
        // Some rank occurs at least twice, in two different suits.
        let top = groups[groups.len() - 1];
        assert(sizes[0] == top.0);
        assert(is_group(ranks, top));
        assert(top.0 >= 2);
        lemma_count_five(ranks, top.1);
        lemma_count_five(sorted, top.1);
        assert(!same_suit(cards)) by {
            if same_suit(cards) {
                assert(cards[0].suit == cards[0].suit);
                assert(cards[1].suit == cards[0].suit);
                assert(cards[2].suit == cards[0].suit);
                assert(cards[3].suit == cards[0].suit);
                assert(cards[4].suit == cards[0].suit);
            }
        }
        assert(straight_score_of(ranks) is None) by {
            if sorted =~= seq![2u8, 3u8, 4u8, 5u8, 14u8] {
                assert(sorted[0] == 2 && sorted[1] == 3 && sorted[2] == 4 && sorted[3] == 5
                    && sorted[4] == 14);
            }
            if is_run(sorted) {
                assert(sorted[1] == sorted[0] + 1);
                assert(sorted[2] == sorted[0] + 2);
                assert(sorted[3] == sorted[0] + 3);
                assert(sorted[4] == sorted[0] + 4);
            }
        }
        assert(!(sizes =~= seq![5u8])) by {
            if sizes =~= seq![5u8] {
                assert(top.0 == 5);
            }
        }
    }
}

proof fn lemma_ranks_follow_cards(a: Seq<Card>, b: Seq<Card>)
    requires
        a.to_multiset() == b.to_multiset(),
    ensures
        ranks_of(a).to_multiset() == ranks_of(b).to_multiset(),
    decreases a.len(),
{
    to_multiset_len(a);
    to_multiset_len(b);
    if a.len() == 0 {
        assert(ranks_of(a) =~= ranks_of(b));
    } else {
        let last = a.last();
        let init = a.drop_last();
        assert(a.contains(last)) by {
            assert(a[a.len() - 1] == last);
        }
        to_multiset_contains(a, last);
        to_multiset_contains(b, last);
        let at = choose|at: int| 0 <= at < b.len() && b[at] == last;
        let rest = b.remove(at);
        assert(a.remove(a.len() - 1) =~= init);
        to_multiset_remove(a, a.len() - 1);
        to_multiset_remove(b, at);
        lemma_ranks_follow_cards(init, rest);
        assert(ranks_of(a) =~= ranks_of(init).push(last.rank));
        assert(ranks_of(b) =~= ranks_of(rest).insert(at, last.rank));
        to_multiset_build(ranks_of(init), last.rank);
        to_multiset_insert(ranks_of(rest), at, last.rank);
    }
}

/// The rating is a function of the cards as a multiset: the order in which
/// they are given does not matter.
pub proof fn lemma_rating_ignores_order(a: Seq<Card>, b: Seq<Card>)
    requires
        a.to_multiset() == b.to_multiset(),
    ensures
        rating(a) == rating(b),
{
    to_multiset_len(a);
    to_multiset_len(b);
    if a.len() == 5 {
        lemma_ranks_follow_cards(a, b);
        lemma_rank_groups(ranks_of(a));
        lemma_rank_groups(ranks_of(b));
        lemma_grouping_unique(ranks_of(a), rank_groups(ranks_of(a)), rank_groups(ranks_of(b)));
        lemma_sorted_ranks_ascend(ranks_of(b));
        lemma_sorted_ranks(ranks_of(a), sorted_ranks(ranks_of(b)));
        assert forall|i: int| 0 <= i < 5 implies a.contains(#[trigger] b[i]) by {
            assert(b.contains(b[i]));
            to_multiset_contains(a, b[i]);
            to_multiset_contains(b, b[i]);
        }
        assert forall|i: int| 0 <= i < 5 implies b.contains(#[trigger] a[i]) by {
            assert(a.contains(a[i]));
            to_multiset_contains(a, a[i]);
            to_multiset_contains(b, a[i]);
        }
        if same_suit(a) {
            let z = choose|z: int| 0 <= z < a.len() && a[z] == b[0];
            assert(a[z].suit == a[0].suit);
            assert forall|i: int| 0 <= i < 5 implies (#[trigger] b[i]).suit == b[0].suit by {
                let k = choose|k: int| 0 <= k < a.len() && a[k] == b[i];
                assert(a[k].suit == a[0].suit);
            }
        }
        if same_suit(b) {
            let z = choose|z: int| 0 <= z < b.len() && b[z] == a[0];
            assert(b[z].suit == b[0].suit);
            assert forall|i: int| 0 <= i < 5 implies (#[trigger] a[i]).suit == a[0].suit by {
                let k = choose|k: int| 0 <= k < b.len() && b[k] == a[i];
                assert(b[k].suit == b[0].suit);
            }
        }
    }
}

/// Among straights the wheel is the lowest: it alone scores 1, and every other
/// straight scores its lowest rank, which is 2 at the least.
pub proof fn lemma_wheel_is_lowest_straight(cards: Seq<Card>)
    requires
        forall|i: int| 0 <= i < cards.len() ==> (#[trigger] cards[i]).wf(),
        straight_score_of(ranks_of(cards)) is Some,
    ensures
        straight_score_of(ranks_of(cards))->0 >= 1,
        straight_score_of(ranks_of(cards)) == Some(1u64) <==> sorted_ranks(ranks_of(cards))
            =~= seq![2u8, 3u8, 4u8, 5u8, 14u8],
        straight_score_of(ranks_of(cards)) != Some(1u64) ==> straight_score_of(ranks_of(cards))
            == Some(sorted_ranks(ranks_of(cards))[0] as u64) && sorted_ranks(ranks_of(cards))[0]
            >= 2,
{
    let ranks = ranks_of(cards);
    let sorted = sorted_ranks(ranks);
    lemma_sorted_ranks_ascend(ranks);
    if !(sorted =~= seq![2u8, 3u8, 4u8, 5u8, 14u8]) {
        assert(is_run(sorted));
        assert(sorted.contains(sorted[0]));
        to_multiset_contains(sorted, sorted[0]);
        to_multiset_contains(ranks, sorted[0]);
        let at = choose|at: int| 0 <= at < ranks.len() && ranks[at] == sorted[0];
        assert(cards[at].wf());
    }
}

/// The rank occurs exactly `times` times among the cards.
pub open spec fn occurs(cards: Seq<Card>, rank: u8, times: nat) -> bool {
    ranks_of(cards).to_multiset().count(rank) == times
}

/// No rank occurs twice among the cards.
pub open spec fn all_ranks_differ(cards: Seq<Card>) -> bool {
    forall|rank: u8| ranks_of(cards).to_multiset().count(rank) <= 1
}

/// The kind of a hand that has a rating.
pub open spec fn kind_of(cards: Seq<Card>) -> HandType {
    match rating(cards) {
        Some((kind, _, _)) => kind,
        None => HandType::HighCard,
    }
}

/// The kinds in the words of the game: what the table of [`classify`] calls a
/// kind is what players call it. The kinds exclude each other, so each line
/// also tells when a rated hand is of that kind.
pub proof fn lemma_kinds_by_counts(cards: Seq<Card>)
    requires
        rating(cards) is Some,
    ensures
        match kind_of(cards) {
            HandType::StraightFlush => all_ranks_differ(cards) && same_suit(cards)
                && straight_score_of(ranks_of(cards)) is Some,
            HandType::Quads => exists|four: u8| occurs(cards, four, 4),
            HandType::FullHouse => exists|three: u8, two: u8|
                occurs(cards, three, 3) && occurs(cards, two, 2),
            HandType::Flush => all_ranks_differ(cards) && same_suit(cards) && straight_score_of(
                ranks_of(cards),
            ) is None,
            HandType::Straight => all_ranks_differ(cards) && !same_suit(cards)
                && straight_score_of(ranks_of(cards)) is Some,
            HandType::ThreeOfAKind => exists|three: u8, one: u8, other: u8|
                one != other && occurs(cards, three, 3) && occurs(cards, one, 1) && occurs(
                    cards,
                    other,
                    1,
                ),
            HandType::TwoPair => exists|high: u8, low: u8|
                high != low && occurs(cards, high, 2) && occurs(cards, low, 2),
            HandType::Pair => exists|two: u8|
                occurs(cards, two, 2) && forall|rank: u8|
                    rank != two ==> ranks_of(cards).to_multiset().count(rank) <= 1,
            HandType::HighCard => all_ranks_differ(cards) && !same_suit(cards)
                && straight_score_of(ranks_of(cards)) is None,
        },
{
    let ranks = ranks_of(cards);
    let groups = rank_groups(ranks);
    let sizes = group_sizes(groups);
    lemma_rank_groups(ranks);
    assert forall|i: int| 0 <= i < groups.len() implies #[trigger] is_group(ranks, groups[i]) by {
        assert(groups.contains(groups[i]));
    }
    assert forall|i: int| 0 <= i < sizes.len() implies #[trigger] sizes[i] == groups[groups.len()
        - 1 - i].0 by {}
    to_multiset_len(ranks);
    assert forall|rank: u8| ranks.to_multiset().count(rank) >= 1 implies exists|i: int|
        0 <= i < groups.len() && #[trigger] groups[i] == (
            ranks.to_multiset().count(rank) as u8,
            rank,
        ) by {
        vstd::multiset::axiom_count_le_len(ranks.to_multiset(), rank);
        let group = (ranks.to_multiset().count(rank) as u8, rank);
        assert(is_group(ranks, group));
        assert(groups.contains(group));
    }
    if sizes =~= seq![1u8, 1u8, 1u8, 1u8, 1u8] {
        assert(sizes[0] == 1 && sizes[1] == 1 && sizes[2] == 1 && sizes[3] == 1 && sizes[4] == 1);
        assert forall|rank: u8| ranks.to_multiset().count(rank) <= 1 by {
            if ranks.to_multiset().count(rank) >= 1 {
                let i = choose|i: int|
                    0 <= i < groups.len() && #[trigger] groups[i] == (
                        ranks.to_multiset().count(rank) as u8,
                        rank,
                    );
                assert(sizes[groups.len() - 1 - i] == groups[i].0);
            }
        }
    } else if sizes =~= seq![4u8, 1u8] {
        assert(sizes[0] == 4 && sizes[0] == groups[1].0);
        assert(is_group(ranks, groups[1]));
        assert(occurs(cards, groups[1].1, 4));
    } else if sizes =~= seq![3u8, 2u8] {
        assert(sizes[0] == 3 && sizes[1] == 2);
        assert(sizes[0] == groups[1].0 && sizes[1] == groups[0].0);
        assert(is_group(ranks, groups[1]) && is_group(ranks, groups[0]));
        assert(occurs(cards, groups[1].1, 3) && occurs(cards, groups[0].1, 2));
    } else if sizes =~= seq![3u8, 1u8, 1u8] {
        assert(sizes[0] == 3 && sizes[1] == 1 && sizes[2] == 1);
        assert(sizes[0] == groups[2].0 && sizes[1] == groups[1].0 && sizes[2] == groups[0].0);
        assert(is_group(ranks, groups[2]) && is_group(ranks, groups[1]) && is_group(
            ranks,
            groups[0],
        ));
        assert(group_lt(groups[0], groups[1]));
        assert(occurs(cards, groups[2].1, 3) && occurs(cards, groups[1].1, 1) && occurs(
            cards,
            groups[0].1,
            1,
        ));
    } else if sizes =~= seq![2u8, 2u8, 1u8] {
        assert(sizes[0] == 2 && sizes[1] == 2 && sizes[2] == 1);
        assert(sizes[0] == groups[2].0 && sizes[1] == groups[1].0);
        assert(is_group(ranks, groups[2]) && is_group(ranks, groups[1]));
        assert(group_lt(groups[1], groups[2]));
        assert(occurs(cards, groups[2].1, 2) && occurs(cards, groups[1].1, 2));
    } else if sizes =~= seq![2u8, 1u8, 1u8, 1u8] {
        assert(sizes[0] == 2 && sizes[1] == 1 && sizes[2] == 1 && sizes[3] == 1);
        let two = groups[3].1;
        assert(sizes[0] == groups[3].0);
        assert(is_group(ranks, groups[3]));
        assert(occurs(cards, two, 2));
        assert forall|rank: u8| rank != two implies ranks.to_multiset().count(rank) <= 1 by {
            if ranks.to_multiset().count(rank) >= 1 {
                let i = choose|i: int|
                    0 <= i < groups.len() && #[trigger] groups[i] == (
                        ranks.to_multiset().count(rank) as u8,
                        rank,
                    );
                assert(sizes[groups.len() - 1 - i] == groups[i].0);
            }
        }
    }
}

/// The level of each kind, from 9 for the strongest to 1.
pub open spec fn level_of(kind: HandType) -> u8 {
    match kind {
        HandType::StraightFlush => 9,
        HandType::Quads => 8,
        HandType::FullHouse => 7,
        HandType::Flush => 6,
        HandType::Straight => 5,
        HandType::ThreeOfAKind => 4,
        HandType::TwoPair => 3,
        HandType::Pair => 2,
        HandType::HighCard => 1,
    }
}

/// The parts of a rating hang together: the level is that of the kind, and the
/// score is the straight score for the two kinds of straight and the score of
/// the groups for every other kind.
pub proof fn lemma_rating_parts(cards: Seq<Card>)
    requires
        rating(cards) is Some,
    ensures
        match rating(cards) {
            Some((kind, level, score)) => level == level_of(kind) && if kind
                == HandType::StraightFlush || kind == HandType::Straight {
                straight_score_of(ranks_of(cards)) == Some(score)
            } else {
                straight_score_of(ranks_of(cards)) is None && score == kicker_score(
                    rank_groups(ranks_of(cards)),
                ) as u64
            },
            None => false,
        },
{
}

/// The ranks of a straight: those of the wheel, which scores 1, or five in a
/// row from the score upwards, each once.
pub proof fn lemma_straight_ranks(ranks: Seq<u8>, low: u64)
    requires
        straight_score_of(ranks) == Some(low),
    ensures
        ranks.len() == 5,
        low + 4 <= 255,
        ({
            let counts = ranks.to_multiset();
            ||| low == 1 && counts.count(2) == 1 && counts.count(3) == 1 && counts.count(4) == 1
                && counts.count(5) == 1 && counts.count(14) == 1
            ||| counts.count(low as u8) == 1 && counts.count((low + 1) as u8) == 1
                && counts.count((low + 2) as u8) == 1 && counts.count((low + 3) as u8) == 1
                && counts.count((low + 4) as u8) == 1
        }),
{
    let sorted = sorted_ranks(ranks);
    lemma_sorted_ranks_ascend(ranks);
    if sorted =~= seq![2u8, 3u8, 4u8, 5u8, 14u8] {
        assert(sorted[0] == 2 && sorted[1] == 3 && sorted[2] == 4 && sorted[3] == 5 && sorted[4]
            == 14);
        lemma_count_five(sorted, 2);
        lemma_count_five(sorted, 3);
        lemma_count_five(sorted, 4);
        lemma_count_five(sorted, 5);
        lemma_count_five(sorted, 14);
    } else {
        assert(is_run(sorted));
        assert(sorted[1] == sorted[0] + 1);
        assert(sorted[2] == sorted[0] + 2);
        assert(sorted[3] == sorted[0] + 3);
        assert(sorted[4] == sorted[0] + 4);
        lemma_count_five(sorted, low as u8);
        lemma_count_five(sorted, (low + 1) as u8);
        lemma_count_five(sorted, (low + 2) as u8);
        lemma_count_five(sorted, (low + 3) as u8);
        lemma_count_five(sorted, (low + 4) as u8);
    }
}

/// A rated hand in which one rank occurs four times is quads.
pub proof fn lemma_four_is_quads(cards: Seq<Card>, four: u8)
    requires
        rating(cards) is Some,
        occurs(cards, four, 4),
    ensures
        kind_of(cards) == HandType::Quads,
{
    lemma_kinds_by_counts(cards);
    assert forall|rank: u8| #[trigger]
        ranks_of(cards).to_multiset().count(rank) <= 5 && (rank != four ==> ranks_of(
            cards,
        ).to_multiset().count(rank) <= 1) by {
        lemma_count_five(ranks_of(cards), rank);
        lemma_count_five(ranks_of(cards), four);
    }
}

/// A rated hand in which one rank occurs three times and another twice is a
/// full house.
pub proof fn lemma_three_and_two_is_full_house(cards: Seq<Card>, three: u8, two: u8)
    requires
        rating(cards) is Some,
        occurs(cards, three, 3),
        occurs(cards, two, 2),
    ensures
        kind_of(cards) == HandType::FullHouse,
{
    lemma_kinds_by_counts(cards);
    assert forall|rank: u8| #[trigger]
        ranks_of(cards).to_multiset().count(rank) <= 5 && (rank != three && rank != two
            ==> ranks_of(cards).to_multiset().count(rank) == 0) by {
        lemma_count_five(ranks_of(cards), rank);
        lemma_count_five(ranks_of(cards), three);
        lemma_count_five(ranks_of(cards), two);
    }
}

/// Five cards of five ranks in a row, not all of one suit, are a straight that
/// scores its lowest rank.
pub proof fn lemma_run_is_straight(cards: Seq<Card>, low: u8)
    requires
        rating(cards) is Some,
        2 <= low <= 10,
        occurs(cards, low, 1),
        occurs(cards, (low + 1) as u8, 1),
        occurs(cards, (low + 2) as u8, 1),
        occurs(cards, (low + 3) as u8, 1),
        occurs(cards, (low + 4) as u8, 1),
        !same_suit(cards),
    ensures
        rating(cards) == Some((HandType::Straight, 5u8, low as u64)),
{
    let ranks = ranks_of(cards);
    let row = seq![low, (low + 1) as u8, (low + 2) as u8, (low + 3) as u8, (low + 4) as u8];
    assert(row.to_multiset() =~= ranks.to_multiset()) by {
        assert forall|rank: u8| row.to_multiset().count(rank) == ranks.to_multiset().count(
            rank,
        ) by {
            lemma_count_five(row, rank);
            lemma_count_five(ranks, rank);
            lemma_count_five(ranks, low);
            lemma_count_five(ranks, (low + 1) as u8);
            lemma_count_five(ranks, (low + 2) as u8);
            lemma_count_five(ranks, (low + 3) as u8);
            lemma_count_five(ranks, (low + 4) as u8);
        }
    }
    lemma_sorted_ranks(ranks, row);
    assert(is_run(row));
    assert(row[4] == low + 4);
    assert(!(row =~= seq![2u8, 3u8, 4u8, 5u8, 14u8]));
    assert(straight_score_of(ranks) == Some(low as u64));
}

/// Every rank of the groups is below 16, as the ranks of cards are.
pub open spec fn ranks_fit(groups: Seq<(u8, u8)>) -> bool {
    forall|i: int| 0 <= i < groups.len() ==> (#[trigger] groups[i]).1 <= 15
}

proof fn lemma_kicker_bound(groups: Seq<(u8, u8)>)
    requires
        ranks_fit(groups),
    ensures
        kicker_score(groups) < pow16(groups.len()),
    decreases groups.len(),
{
    if groups.len() > 0 {
        let init = groups.drop_last();
        let unit = pow16(init.len());
        let digit = groups.last().1 as nat;
        assert(ranks_fit(init)) by {
            assert forall|i: int| 0 <= i < init.len() implies (#[trigger] init[i]).1 <= 15 by {
                assert(init[i] == groups[i]);
            }
        }
        lemma_kicker_bound(init);
        assert(groups[groups.len() - 1].1 <= 15);
        assert(digit * unit <= 15 * unit) by (nonlinear_arith)
            requires
                digit <= 15,
        ;
    }
}

/// The score compares the ranks of the groups from the last group down: where
/// two lists of groups first differ, counted from the end, the list with the
/// higher rank has the higher score, whatever the groups before it hold. Base
/// 16 leaves room for every rank, so no group spills into the next.
pub proof fn lemma_kicker_score_orders(a: Seq<(u8, u8)>, b: Seq<(u8, u8)>, at: int)
    requires
        a.len() == b.len(),
        ranks_fit(a),
        ranks_fit(b),
        0 <= at < a.len(),
        a[at].1 < b[at].1,
        forall|i: int| at < i < a.len() ==> (#[trigger] a[i]).1 == b[i].1,
    ensures
        kicker_score(a) < kicker_score(b),
    decreases a.len(),
{
    let a_init = a.drop_last();
    let b_init = b.drop_last();
    let unit = pow16(a_init.len());
    let a_digit = a.last().1 as nat;
    let b_digit = b.last().1 as nat;
    assert(ranks_fit(a_init)) by {
        assert forall|i: int| 0 <= i < a_init.len() implies (#[trigger] a_init[i]).1 <= 15 by {
            assert(a_init[i] == a[i]);
        }
    }
    assert(ranks_fit(b_init)) by {
        assert forall|i: int| 0 <= i < b_init.len() implies (#[trigger] b_init[i]).1 <= 15 by {
            assert(b_init[i] == b[i]);
        }
    }
    if at == a.len() - 1 {
        lemma_kicker_bound(a_init);
        assert((a_digit + 1) * unit <= b_digit * unit) by (nonlinear_arith)
            requires
                a_digit + 1 <= b_digit,
        ;
        assert((a_digit + 1) * unit == a_digit * unit + unit) by (nonlinear_arith);
    } else {
        assert(a[a.len() - 1].1 == b[a.len() - 1].1);
        assert forall|i: int| at < i < a_init.len() implies (#[trigger] a_init[i]).1
            == b_init[i].1 by {
            assert(a[i].1 == b[i].1);
        }
        lemma_kicker_score_orders(a_init, b_init, at);
    }
}

proof fn lemma_group_key(group: (u8, u8))
    ensures
        group_key(group) < 65536,
        group_at(group_key(group)) == group,
{
}

proof fn lemma_group_at(key: nat)
    requires
        key < 65536,
    ensures
        group_key(group_at(key)) == key,
{
}

proof fn lemma_group_order(a: (u8, u8), b: (u8, u8))
    ensures
        group_lt(a, b) <==> group_key(a) < group_key(b),
{
}

proof fn lemma_groups_below(ranks: Seq<u8>, bound: nat)
    requires
        bound <= 65536,
    ensures
        forall|i: int, j: int|
            0 <= i < j < groups_below(ranks, bound).len() ==> group_lt(
                groups_below(ranks, bound)[i],
                groups_below(ranks, bound)[j],
            ),
        forall|i: int|
            0 <= i < groups_below(ranks, bound).len() ==> is_group(
                ranks,
                #[trigger] groups_below(ranks, bound)[i],
            ) && group_key(groups_below(ranks, bound)[i]) < bound,
        forall|group: (u8, u8)|
            is_group(ranks, group) && group_key(group) < bound ==> #[trigger] groups_below(
                ranks,
                bound,
            ).contains(group),
    decreases bound,
{
    if bound > 0 {
        let rest = groups_below(ranks, (bound - 1) as nat);
        let top = group_at((bound - 1) as nat);
        let all = groups_below(ranks, bound);
        lemma_groups_below(ranks, (bound - 1) as nat);
        lemma_group_at((bound - 1) as nat);
        assert forall|i: int, j: int| 0 <= i < j < all.len() implies group_lt(all[i], all[j]) by {
            lemma_group_order(all[i], all[j]);
        }
        assert forall|group: (u8, u8)|
            is_group(ranks, group) && group_key(group) < bound implies #[trigger] all.contains(
            group,
        ) by {
            lemma_group_key(group);
            if group_key(group) == bound - 1 {
                assert(all[all.len() - 1] == group);
            } else {
                assert(rest.contains(group));
                let i = choose|i: int| 0 <= i < rest.len() && rest[i] == group;
                assert(all[i] == group);
            }
        }
    }
}

/// [`rank_groups`] lists, strictly ascending, exactly the pairs `(n, r)` such
/// that rank `r` occurs `n >= 1` times.
pub proof fn lemma_rank_groups(ranks: Seq<u8>)
    ensures
        is_grouping(ranks, rank_groups(ranks)),
{
    lemma_groups_below(ranks, 65536);
    assert forall|group: (u8, u8)| #[trigger]
        rank_groups(ranks).contains(group) <==> is_group(ranks, group) by {
        lemma_group_key(group);
    }
}

/// Two strictly ascending lists of the same groups are the same list.
pub proof fn lemma_grouping_unique(ranks: Seq<u8>, a: Seq<(u8, u8)>, b: Seq<(u8, u8)>)
    requires
        is_grouping(ranks, a),
        is_grouping(ranks, b),
    ensures
        a == b,
{
    lemma_ascending_unique(a, b);
}

proof fn lemma_ascending_unique(a: Seq<(u8, u8)>, b: Seq<(u8, u8)>)
    requires
        forall|i: int, j: int| 0 <= i < j < a.len() ==> group_lt(a[i], a[j]),
        forall|i: int, j: int| 0 <= i < j < b.len() ==> group_lt(b[i], b[j]),
        forall|group: (u8, u8)| a.contains(group) <==> b.contains(group),
    ensures
        a == b,
    decreases a.len(),
{
    if a.len() == 0 {
        if b.len() > 0 {
            assert(b.contains(b[0]));
        }
        assert(a =~= b);
    } else {
        let x = a.last();
        assert(a.contains(x));
        assert(b.contains(x));
        let y = b.last();
        assert(b.contains(y));
        assert(a.contains(y));
        let i = choose|i: int| 0 <= i < a.len() && a[i] == y;
        let j = choose|j: int| 0 <= j < b.len() && b[j] == x;
        if i < a.len() - 1 {
            assert(group_lt(a[i], a[a.len() - 1]));
        }
        if j < b.len() - 1 {
            assert(group_lt(b[j], b[b.len() - 1]));
        }
        assert(x == y);
        let a0 = a.drop_last();
        let b0 = b.drop_last();
        assert forall|group: (u8, u8)| a0.contains(group) <==> b0.contains(group) by {
            if a0.contains(group) {
                let k = choose|k: int| 0 <= k < a0.len() && a0[k] == group;
                assert(a[k] == group);
                assert(a.contains(group));
                assert(b.contains(group));
                let m = choose|m: int| 0 <= m < b.len() && b[m] == group;
                assert(group_lt(a[k], a[a.len() - 1]));
                assert(b0[m] == group);
            }
            if b0.contains(group) {
                let k = choose|k: int| 0 <= k < b0.len() && b0[k] == group;
                assert(b[k] == group);
                assert(b.contains(group));
                assert(a.contains(group));
                let m = choose|m: int| 0 <= m < a.len() && a[m] == group;
                assert(group_lt(b[k], b[b.len() - 1]));
                assert(a0[m] == group);
            }
        }
        lemma_ascending_unique(a0, b0);
        assert(a =~= a0.push(x));
        assert(b =~= b0.push(y));
    }
}

} // verus!
