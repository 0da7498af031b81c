//! The calls into other crates.
//!
//! Each function here has its body hidden from the verifier: its contract is
//! assumed, and it says of the called function what that function's source
//! and documentation show.

use vstd::prelude::*;
use itertools::Itertools;
use rand::seq::SliceRandom;
use crate::cards::Card;

verus! {

/// `runs` cuts `cards` into its maximal stretches of equal rank: joined end
/// to end the runs give `cards` back, no run is empty, the cards of a run share
/// one rank, and a run's rank differs from that of the next run.
pub open spec fn is_rank_chunking(cards: Seq<Card>, runs: Seq<Seq<Card>>) -> bool {
    &&& runs.flatten() == cards
    &&& forall|i: int| 0 <= i < runs.len() ==> (#[trigger] runs[i]).len() >= 1
    &&& forall|i: int, k: int|
        0 <= i < runs.len() && 0 <= k < runs[i].len() ==> (#[trigger] runs[i][k]).rank
            == runs[i][0].rank
    &&& forall|i: int, j: int|
        0 <= i && j == i + 1 && j < runs.len() ==> (#[trigger] runs[i])[0].rank != (
        #[trigger] runs[j])[0].rank
}

/// Calls `Itertools::chunk_by` of itertools with the rank as key, and
/// collects each group it yields. The contract is that method's definition of
/// a group: consecutive elements with the same key form one group, and the
/// groups come in the order of the input.
#[verifier::external_body]
pub(crate) fn chunk_by_rank(cards: &Vec<Card>) -> (runs: Vec<Vec<Card>>)
    ensures
        is_rank_chunking(cards@, runs@.map_values(|run: Vec<Card>| run@)),
{
    cards.iter().chunk_by(|card| card.rank).into_iter().map(
        |(_, run)| run.copied().collect(),
    ).collect()
}

/// `picks` chooses `k` of the positions below `n`, in ascending order.
pub open spec fn is_selection(picks: Seq<usize>, k: nat, n: nat) -> bool {
    &&& picks.len() == k
    &&& forall|i: int| 0 <= i < picks.len() ==> picks[i] < n
    &&& forall|i: int, j: int| 0 <= i < j < picks.len() ==> picks[i] < picks[j]
}

/// The lexicographic order of selections: at the first position where the two
/// differ, `a` has the smaller entry.
pub open spec fn selection_lt(a: Seq<usize>, b: Seq<usize>) -> bool {
    exists|at: int|
        0 <= at < a.len() && at < b.len() && #[trigger] a[at] < b[at] && forall|i: int|
            0 <= i < at ==> a[i] == b[i]
}

/// `combos` lists every selection of `k` positions below `n` once, in
/// lexicographic order.
pub open spec fn lists_selections(combos: Seq<Seq<usize>>, k: nat, n: nat) -> bool {
    &&& forall|i: int| 0 <= i < combos.len() ==> is_selection(#[trigger] combos[i], k, n)
    &&& forall|picks: Seq<usize>| #[trigger] is_selection(picks, k, n) ==> combos.contains(picks)
    &&& forall|i: int, j: int|
        0 <= i < j < combos.len() ==> selection_lt(#[trigger] combos[i], #[trigger] combos[j])
}

/// Calls `Itertools::combinations` of itertools on the positions `0..n`. That
/// method yields the `k`-element combinations of its input by position, each
/// in the order of the input, and steps from one to the next in lexicographic
/// order; for `k > n` it yields nothing, and for `k == 0` the one empty
/// combination. The list is only asked for where it is of a size that can be
/// held: up to five positions out of no more than a deck has cards.
#[verifier::external_body]
pub(crate) fn index_combinations(n: usize, k: usize) -> (combos: Vec<Vec<usize>>)
    requires
        n <= 52,
        k <= 5,
    ensures
        lists_selections(combos@.map_values(|combo: Vec<usize>| combo@), k as nat, n as nat),
{
    (0..n).combinations(k).collect()
}

/// Calls `SliceRandom::shuffle` of rand with the thread's generator. The
/// method swaps elements of the slice in place, so whatever the generator
/// draws the cards after the call are those before it, each as often. Nothing
/// is claimed of their order.
#[verifier::external_body]
pub(crate) fn shuffle_cards(cards: &mut Vec<Card>)
    ensures
        final(cards)@.to_multiset() == old(cards)@.to_multiset(),
{
    cards.shuffle(&mut rand::thread_rng());
}

} // verus!
