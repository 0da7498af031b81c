//! Stable insertion sorts for the two short lists that the evaluator orders:
//! cards by rank, and rank groups by size and rank.

use vstd::prelude::*;
use vstd::seq_lib::*;
use crate::cards::Card;
use crate::rating::{group_le, ranks_of};

verus! {

/// The ranks never fall from one card to the next.
pub open spec fn rank_ascending(cards: Seq<Card>) -> bool {
    forall|i: int, j: int| 0 <= i <= j < cards.len() ==> cards[i].rank <= cards[j].rank
}

/// No group is followed by a smaller one.
pub open spec fn groups_ascending(groups: Seq<(u8, u8)>) -> bool {
    forall|i: int, j: int| 0 <= i <= j < groups.len() ==> group_le(groups[i], groups[j])
}

fn insert_by_rank(sorted: &mut Vec<Card>, card: Card)
    requires
        rank_ascending(old(sorted)@),
    ensures
        rank_ascending(final(sorted)@),
        final(sorted)@.to_multiset() == old(sorted)@.to_multiset().insert(card),
        ranks_of(final(sorted)@).to_multiset() == ranks_of(old(sorted)@).to_multiset().insert(
            card.rank,
        ),
{
    let mut at: usize = 0;
    while at < sorted.len() && sorted[at].rank <= card.rank
        invariant
            at <= sorted.len(),
            sorted@ == old(sorted)@,
            forall|k: int| 0 <= k < at ==> sorted[k].rank <= card.rank,
        decreases sorted.len() - at,
    {
        at = at + 1;
    }
    sorted.insert(at, card);
    proof {
        let before = old(sorted)@;
        to_multiset_insert(before, at as int, card);
        assert(ranks_of(before.insert(at as int, card)) =~= ranks_of(before).insert(
            at as int,
            card.rank,
        ));
        to_multiset_insert(ranks_of(before), at as int, card.rank);
    }
}

/// The cards in ascending order of rank; cards of equal rank keep their order.
pub(crate) fn sorted_by_rank(cards: &Vec<Card>) -> (sorted: Vec<Card>)
    ensures
        rank_ascending(sorted@),
        sorted@.to_multiset() == cards@.to_multiset(),
        ranks_of(sorted@).to_multiset() == ranks_of(cards@).to_multiset(),
        sorted@.len() == cards@.len(),
{
    let mut sorted: Vec<Card> = Vec::new();
    let mut done: usize = 0;
    proof {
        assert(sorted@ =~= cards@.take(0));
        assert(ranks_of(sorted@) =~= ranks_of(cards@.take(0)));
    }
    while done < cards.len()
        invariant
            done <= cards.len(),
            rank_ascending(sorted@),
            sorted@.to_multiset() == cards@.take(done as int).to_multiset(),
            ranks_of(sorted@).to_multiset() == ranks_of(cards@.take(done as int)).to_multiset(),
        decreases cards.len() - done,
    {
        proof {
            let head = cards@.take(done as int);
            assert(cards@.take(done + 1) =~= head.push(cards@[done as int]));
            assert(ranks_of(head.push(cards@[done as int])) =~= ranks_of(head).push(
                cards@[done as int].rank,
            ));
            to_multiset_build(head, cards@[done as int]);
            to_multiset_build(ranks_of(head), cards@[done as int].rank);
        }
        insert_by_rank(&mut sorted, cards[done]);
        done = done + 1;
    }
    proof {
        assert(cards@.take(cards@.len() as int) =~= cards@);
        to_multiset_len(sorted@);
        to_multiset_len(cards@);
    }
    sorted
}

fn insert_group(sorted: &mut Vec<(u8, u8)>, group: (u8, u8))
    requires
        groups_ascending(old(sorted)@),
    ensures
        groups_ascending(final(sorted)@),
        final(sorted)@.to_multiset() == old(sorted)@.to_multiset().insert(group),
{
    let mut at: usize = 0;
    while at < sorted.len() && (sorted[at].0 < group.0 || (sorted[at].0 == group.0 && sorted[at].1
        <= group.1))
        invariant
            at <= sorted.len(),
            sorted@ == old(sorted)@,
            forall|k: int| 0 <= k < at ==> group_le(sorted[k], group),
        decreases sorted.len() - at,
    {
        at = at + 1;
    }
    sorted.insert(at, group);
    proof {
        let before = old(sorted)@;
        let after = sorted@;
        to_multiset_insert(before, at as int, group);
        assert forall|i: int, j: int| 0 <= i <= j < after.len() implies group_le(
            after[i],
            after[j],
        ) by {
            if i < at && j > at {
                assert(group_le(before[i], before[j - 1]));
            } else if i == at && j > at {
                assert(group_le(before[at as int], before[j - 1]));
            } else if i > at {
                assert(group_le(before[i - 1], before[j - 1]));
            } else if j < at {
                assert(group_le(before[i], before[j]));
            }
        }
    }
}

/// The groups in ascending order of size and then of rank.
pub(crate) fn sorted_groups(groups: &Vec<(u8, u8)>) -> (sorted: Vec<(u8, u8)>)
    ensures
        groups_ascending(sorted@),
        sorted@.to_multiset() == groups@.to_multiset(),
        sorted@.len() == groups@.len(),
{
    let mut sorted: Vec<(u8, u8)> = Vec::new();
    let mut done: usize = 0;
    proof {
        assert(sorted@ =~= groups@.take(0));
    }
    while done < groups.len()
        invariant
            done <= groups.len(),
            groups_ascending(sorted@),
            sorted@.to_multiset() == groups@.take(done as int).to_multiset(),
        decreases groups.len() - done,
    {
        proof {
            let head = groups@.take(done as int);
            assert(groups@.take(done + 1) =~= head.push(groups@[done as int]));
            to_multiset_build(head, groups@[done as int]);
        }
        insert_group(&mut sorted, groups[done]);
        done = done + 1;
    }
    proof {
        assert(groups@.take(groups@.len() as int) =~= groups@);
        to_multiset_len(sorted@);
        to_multiset_len(groups@);
    }
    sorted
}

} // verus!
