//! Pot equity by simulation: exact per-player counts over many replays.
//!
//! A pot that several players split is credited in whole units: one pot is
//! [`POT_UNITS`] units, a number that every possible count of winners
//! divides, so no share is ever rounded and the shares of a replay add up to
//! exactly one pot.

use vstd::prelude::*;
use crate::game::{
    is_available, is_first_unavailable, is_replay_outcome, is_showdown, Game, GameSpec, SetupError,
};
use crate::hands::Hand;

verus! {

/// The number of replays where the caller names none.
pub const DEFAULT_NUM_SIMULATIONS: u64 = 100000;

/// The number of workers that share the replays.
pub const NUM_THREADS: usize = 16;

/// The most players that one deck serves: two cards each and five for the
/// board.
pub const MAX_PLAYERS: usize = 23;

/// The units of one pot: the least common multiple of 1, 2, ..., 23.
pub const POT_UNITS: u64 = 5354228880;

/// What many replays came to, player by player.
pub struct Tally {
    /// The number of replays counted.
    pub trials: u64,
    /// For each player, the replays won alone.
    pub wins: Vec<u64>,
    /// For each player, the replays in which the player shared the pot.
    pub draws: Vec<u64>,
    /// For each player, the pot units won, shared pots included.
    pub shares: Vec<u128>,
}

/// A [`Tally`] as mathematical numbers and sequences.
#[verifier::ext_equal]
pub ghost struct TallyView {
    pub trials: nat,
    pub wins: Seq<nat>,
    pub draws: Seq<nat>,
    pub shares: Seq<nat>,
}

/// The winners of one replay among `players` players: at least one, in
/// ascending order.
pub open spec fn is_outcome(winners: Seq<usize>, players: nat) -> bool {
    &&& winners.len() >= 1
    &&& forall|i: int| 0 <= i < winners.len() ==> winners[i] < players
    &&& forall|i: int, j: int| 0 <= i < j < winners.len() ==> winners[i] < winners[j]
}

/// `player` is one of the first `upto` winners.
pub open spec fn wins_among(winners: Seq<usize>, upto: int, player: int) -> bool {
    exists|i: int| 0 <= i < upto && i < winners.len() && #[trigger] winners[i] == player
}

/// The units that each of `winners` winners takes from one pot.
pub open spec fn share_of(winners: nat) -> nat {
    POT_UNITS as nat / winners
}

/// The sum of the numbers.
pub open spec fn sum_of(numbers: Seq<nat>) -> nat
    decreases numbers.len(),
{
    if numbers.len() == 0 {
        0
    } else {
        sum_of(numbers.drop_last()) + numbers.last()
    }
}

/// The tally before the first replay.
pub open spec fn empty_tally(players: nat) -> TallyView {
    TallyView {
        trials: 0,
        wins: Seq::new(players, |player: int| 0nat),
        draws: Seq::new(players, |player: int| 0nat),
        shares: Seq::new(players, |player: int| 0nat),
    }
}

/// The tally after one more replay: a sole winner has one more win, each of
/// several winners one more draw, and every winner an equal share of the pot.
pub open spec fn recorded(tally: TallyView, winners: Seq<usize>) -> TallyView {
    TallyView {
        trials: tally.trials + 1,
        wins: Seq::new(
            tally.wins.len(),
            |player: int|
                if winners.len() == 1 && wins_among(winners, winners.len() as int, player) {
                    tally.wins[player] + 1
                } else {
                    tally.wins[player]
                },
        ),
        draws: Seq::new(
            tally.draws.len(),
            |player: int|
                if winners.len() > 1 && wins_among(winners, winners.len() as int, player) {
                    tally.draws[player] + 1
                } else {
                    tally.draws[player]
                },
        ),
        shares: Seq::new(
            tally.shares.len(),
            |player: int|
                if wins_among(winners, winners.len() as int, player) {
                    tally.shares[player] + share_of(winners.len())
                } else {
                    tally.shares[player]
                },
        ),
    }
}

/// The tally of a sequence of replays, given by their winners.
pub open spec fn tally_of(outcomes: Seq<Seq<usize>>, players: nat) -> TallyView
    decreases outcomes.len(),
{
    if outcomes.len() == 0 {
        empty_tally(players)
    } else {
        recorded(tally_of(outcomes.drop_last(), players), outcomes.last())
    }
}

/// Two tallies of the same players put together: every count is the sum of
/// the two.
pub open spec fn merged(a: TallyView, b: TallyView) -> TallyView {
    TallyView {
        trials: a.trials + b.trials,
        wins: Seq::new(a.wins.len(), |player: int| a.wins[player] + b.wins[player]),
        draws: Seq::new(a.draws.len(), |player: int| a.draws[player] + b.draws[player]),
        shares: Seq::new(a.shares.len(), |player: int| a.shares[player] + b.shares[player]),
    }
}

/// Several tallies put together, from the first to the last.
pub open spec fn merged_all(tallies: Seq<TallyView>) -> TallyView
    decreases tallies.len(),
{
    if tallies.len() == 0 {
        empty_tally(0)
    } else if tallies.len() == 1 {
        tallies[0]
    } else {
        merged(merged_all(tallies.drop_last()), tallies.last())
    }
}

/// The replays of several tallies together.
pub open spec fn total_trials(tallies: Seq<TallyView>) -> nat
    decreases tallies.len(),
{
    if tallies.len() == 0 {
        0
    } else {
        total_trials(tallies.drop_last()) + tallies.last().trials
    }
}

/// The views of a list of tallies.
pub open spec fn views_of(tallies: Seq<Tally>) -> Seq<TallyView> {
    tallies.map_values(|tally: Tally| tally@)
}

proof fn lemma_total_trials_grow(tallies: Seq<TallyView>, upto: int)
    requires
        0 <= upto <= tallies.len(),
    ensures
        total_trials(tallies.take(upto)) <= total_trials(tallies),
    decreases tallies.len() - upto,
{
    if upto < tallies.len() {
        lemma_total_trials_grow(tallies, upto + 1);
        assert(tallies.take(upto + 1).drop_last() =~= tallies.take(upto));
    } else {
        assert(tallies.take(upto) =~= tallies);
    }
}

/// What holds of every tally of replays: the three lists are of one length,
/// no player has more wins and draws than there were replays, and the shares
/// of all players add up to one pot for each replay.
pub open spec fn is_tally(tally: TallyView) -> bool {
    &&& tally.wins.len() == tally.shares.len()
    &&& tally.draws.len() == tally.shares.len()
    &&& tally.shares.len() <= MAX_PLAYERS
    &&& forall|player: int|
        0 <= player < tally.shares.len() ==> #[trigger] tally.wins[player] + tally.draws[player]
            <= tally.trials
    &&& sum_of(tally.shares) == POT_UNITS * tally.trials
}

proof fn lemma_sum_update(numbers: Seq<nat>, at: int, more: nat)
    requires
        0 <= at < numbers.len(),
    ensures
        sum_of(numbers.update(at, numbers[at] + more)) == sum_of(numbers) + more,
    decreases numbers.len(),
{
    let updated = numbers.update(at, numbers[at] + more);
    if at == numbers.len() - 1 {
        assert(updated.drop_last() =~= numbers.drop_last());
    } else {
        lemma_sum_update(numbers.drop_last(), at, more);
        assert(updated.drop_last() =~= numbers.drop_last().update(at, numbers[at] + more));
    }
}

proof fn lemma_sum_bounds(numbers: Seq<nat>, at: int)
    requires
        0 <= at < numbers.len(),
    ensures
        numbers[at] <= sum_of(numbers),
    decreases numbers.len(),
{
    if at < numbers.len() - 1 {
        lemma_sum_bounds(numbers.drop_last(), at);
    }
}

proof fn lemma_sum_zero(players: nat)
    ensures
        sum_of(Seq::new(players, |player: int| 0nat)) == 0,
    decreases players,
{
    if players > 0 {
        lemma_sum_zero((players - 1) as nat);
        assert(Seq::new(players, |player: int| 0nat).drop_last() =~= Seq::new(
            (players - 1) as nat,
            |player: int| 0nat,
        ));
    }
}

proof fn lemma_sum_merged(a: Seq<nat>, b: Seq<nat>)
    requires
        a.len() == b.len(),
    ensures
        sum_of(Seq::new(a.len(), |player: int| a[player] + b[player])) == sum_of(a) + sum_of(b),
    decreases a.len(),
{
    if a.len() > 0 {
        lemma_sum_merged(a.drop_last(), b.drop_last());
        assert(Seq::new(a.len(), |player: int| a[player] + b[player]).drop_last() =~= Seq::new(
            a.drop_last().len(),
            |player: int| a.drop_last()[player] + b.drop_last()[player],
        ));
    }
}

/// Every count of winners from 1 to 23 divides the pot without remainder.
pub proof fn lemma_pot_divides(winners: nat)
    requires
        1 <= winners <= MAX_PLAYERS,
    ensures
        winners * share_of(winners) == POT_UNITS,
{
    let pot = POT_UNITS as nat;
    assert(pot == 5354228880);
    if winners == 1 {
        assert(pot / 1 == 5354228880);
    } else if winners == 2 {
        assert(pot / 2 == 2677114440);
    } else if winners == 3 {
        assert(pot / 3 == 1784742960);
    } else if winners == 4 {
        assert(pot / 4 == 1338557220);
    } else if winners == 5 {
        assert(pot / 5 == 1070845776);
    } else if winners == 6 {
        assert(pot / 6 == 892371480);
    } else if winners == 7 {
        assert(pot / 7 == 764889840);
    } else if winners == 8 {
        assert(pot / 8 == 669278610);
    } else if winners == 9 {
        assert(pot / 9 == 594914320);
    } else if winners == 10 {
        assert(pot / 10 == 535422888);
    } else if winners == 11 {
        assert(pot / 11 == 486748080);
    } else if winners == 12 {
        assert(pot / 12 == 446185740);
    } else if winners == 13 {
        assert(pot / 13 == 411863760);
    } else if winners == 14 {
        assert(pot / 14 == 382444920);
    } else if winners == 15 {
        assert(pot / 15 == 356948592);
    } else if winners == 16 {
        assert(pot / 16 == 334639305);
    } else if winners == 17 {
        assert(pot / 17 == 314954640);
    } else if winners == 18 {
        assert(pot / 18 == 297457160);
    } else if winners == 19 {
        assert(pot / 19 == 281801520);
    } else if winners == 20 {
        assert(pot / 20 == 267711444);
    } else if winners == 21 {
        assert(pot / 21 == 254963280);
    } else if winners == 22 {
        assert(pot / 22 == 243374040);
    } else {
        assert(winners == 23);
        assert(pot / 23 == 232792560);
    }
}

/// The shares after the first `upto` winners of a replay have been credited.
spec fn credited(shares: Seq<nat>, winners: Seq<usize>, upto: int) -> Seq<nat> {
    Seq::new(
        shares.len(),
        |player: int|
            if wins_among(winners, upto, player) {
                shares[player] + share_of(winners.len())
            } else {
                shares[player]
            },
    )
}

proof fn lemma_credited(shares: Seq<nat>, winners: Seq<usize>, upto: int)
    requires
        is_outcome(winners, shares.len()),
        0 <= upto <= winners.len(),
    ensures
        sum_of(credited(shares, winners, upto)) == sum_of(shares) + upto * share_of(winners.len()),
    decreases upto,
{
    if upto == 0 {
        assert(credited(shares, winners, 0) =~= shares);
    } else {
        lemma_credited(shares, winners, upto - 1);
        let before = credited(shares, winners, upto - 1);
        let after = credited(shares, winners, upto);
        let player = winners[upto - 1] as int;
        assert(!wins_among(winners, upto - 1, player)) by {
            if wins_among(winners, upto - 1, player) {
                let i = choose|i: int|
                    0 <= i < upto - 1 && i < winners.len() && #[trigger] winners[i] == player;
                assert(winners[i] < winners[upto - 1]);
            }
        }
        assert(wins_among(winners, upto, player));
        assert forall|other: int| 0 <= other < shares.len() && other != player implies (wins_among(
            winners,
            upto,
            other,
        ) <==> wins_among(winners, upto - 1, other)) by {
            if wins_among(winners, upto, other) {
                let i = choose|i: int|
                    0 <= i < upto && i < winners.len() && #[trigger] winners[i] == other;
                assert(i < upto - 1);
            }
            if wins_among(winners, upto - 1, other) {
                let i = choose|i: int|
                    0 <= i < upto - 1 && i < winners.len() && #[trigger] winners[i] == other;
                assert(0 <= i < upto);
            }
        }
        assert(after =~= before.update(player, before[player] + share_of(winners.len())));
        lemma_sum_update(before, player, share_of(winners.len()));
        assert(upto * share_of(winners.len()) == (upto - 1) * share_of(winners.len()) + share_of(
            winners.len(),
        )) by (nonlinear_arith);
    }
}

/// Recording the winners of a replay keeps a tally a tally: in particular the
/// shares still add up to one pot for each replay.
pub proof fn lemma_recorded_is_tally(tally: TallyView, winners: Seq<usize>)
    requires
        is_tally(tally),
        is_outcome(winners, tally.shares.len()),
    ensures
        is_tally(recorded(tally, winners)),
{
    let after = recorded(tally, winners);
    let count = winners.len();
    assert(count <= tally.shares.len()) by {
        lemma_ascending_fits(winners, tally.shares.len());
    }
    lemma_credited(tally.shares, winners, count as int);
    assert(after.shares =~= credited(tally.shares, winners, count as int));
    lemma_pot_divides(count);
    assert(POT_UNITS * (tally.trials + 1) == POT_UNITS * tally.trials + POT_UNITS)
        by (nonlinear_arith);
}

proof fn lemma_ascending_fits(winners: Seq<usize>, players: nat)
    requires
        forall|i: int| 0 <= i < winners.len() ==> winners[i] < players,
        forall|i: int, j: int| 0 <= i < j < winners.len() ==> winners[i] < winners[j],
    ensures
        winners.len() <= players,
        forall|i: int| 0 <= i < winners.len() ==> i <= winners[i],
    decreases winners.len(),
{
    if winners.len() > 0 {
        let init = winners.drop_last();
        lemma_ascending_fits(init, players);
        if init.len() > 0 {
            assert(init[init.len() - 1] < winners[winners.len() - 1]);
        }
        assert forall|i: int| 0 <= i < winners.len() implies i <= winners[i] by {
            if i < init.len() {
                assert(init[i] == winners[i]);
            }
        }
    }
}

/// Equity conservation: over any replays, the shares of all players add up to
/// exactly one pot for each replay, and the tally counts each replay once.
pub proof fn lemma_shares_conserved(outcomes: Seq<Seq<usize>>, players: nat)
    requires
        players <= MAX_PLAYERS,
        forall|i: int| 0 <= i < outcomes.len() ==> is_outcome(#[trigger] outcomes[i], players),
    ensures
        is_tally(tally_of(outcomes, players)),
        tally_of(outcomes, players).shares.len() == players,
        tally_of(outcomes, players).trials == outcomes.len(),
        sum_of(tally_of(outcomes, players).shares) == POT_UNITS * outcomes.len(),
    decreases outcomes.len(),
{
    if outcomes.len() == 0 {
        lemma_sum_zero(players);
    } else {
        let init = outcomes.drop_last();
        assert forall|i: int| 0 <= i < init.len() implies is_outcome(
            #[trigger] init[i],
            players,
        ) by {
            assert(init[i] == outcomes[i]);
        }
        lemma_shares_conserved(init, players);
        assert(is_outcome(outcomes[outcomes.len() - 1], players));
        lemma_recorded_is_tally(tally_of(init, players), outcomes.last());
    }
}

/// Recording after merging is merging after recording.
proof fn lemma_merged_then_recorded(a: TallyView, b: TallyView, winners: Seq<usize>)
    requires
        a.wins.len() == b.wins.len(),
        a.draws.len() == b.draws.len(),
        a.shares.len() == b.shares.len(),
    ensures
        recorded(merged(a, b), winners) == merged(a, recorded(b, winners)),
{
    assert(recorded(merged(a, b), winners) =~= merged(a, recorded(b, winners)));
}

/// Merging is exact: the tally of replays counted in two parts and merged is
/// the tally of all of them counted in one, wherever the cut falls.
pub proof fn lemma_merge_of_parts(first: Seq<Seq<usize>>, second: Seq<Seq<usize>>, players: nat)
    ensures
        merged(tally_of(first, players), tally_of(second, players)) == tally_of(
            first + second,
            players,
        ),
    decreases second.len(),
{
    lemma_tally_lengths(first, players);
    lemma_tally_lengths(second, players);
    if second.len() == 0 {
        assert(first + second =~= first);
        assert(merged(tally_of(first, players), tally_of(second, players)) =~= tally_of(
            first,
            players,
        ));
    } else {
        let init = second.drop_last();
        lemma_tally_lengths(init, players);
        lemma_merge_of_parts(first, init, players);
        assert((first + second).drop_last() =~= first + init);
        assert((first + second).last() == second.last());
        lemma_merged_then_recorded(
            tally_of(first, players),
            tally_of(init, players),
            second.last(),
        );
    }
}

/// The replays of several parts, one part after the other.
pub open spec fn joined(parts: Seq<Seq<Seq<usize>>>) -> Seq<Seq<usize>>
    decreases parts.len(),
{
    if parts.len() == 0 {
        Seq::empty()
    } else {
        joined(parts.drop_last()) + parts.last()
    }
}

/// However many workers share the replays, and however unevenly, merging
/// their tallies gives the tally of all replays counted by one.
pub proof fn lemma_merge_all_of_parts(parts: Seq<Seq<Seq<usize>>>, players: nat)
    requires
        parts.len() >= 1,
    ensures
        merged_all(Seq::new(parts.len(), |worker: int| tally_of(parts[worker], players)))
            == tally_of(joined(parts), players),
    decreases parts.len(),
{
    let tallies = Seq::new(parts.len(), |worker: int| tally_of(parts[worker], players));
    let init = parts.drop_last();
    if parts.len() == 1 {
        assert(joined(init) =~= Seq::<Seq<usize>>::empty());
        assert(joined(parts) =~= parts[0]);
    } else {
        lemma_merge_all_of_parts(init, players);
        assert(tallies.drop_last() =~= Seq::new(
            init.len(),
            |worker: int| tally_of(init[worker], players),
        ));
        lemma_merge_of_parts(joined(init), parts.last(), players);
    }
}

proof fn lemma_tally_lengths(outcomes: Seq<Seq<usize>>, players: nat)
    ensures
        tally_of(outcomes, players).wins.len() == players,
        tally_of(outcomes, players).draws.len() == players,
        tally_of(outcomes, players).shares.len() == players,
    decreases outcomes.len(),
{
    if outcomes.len() > 0 {
        lemma_tally_lengths(outcomes.drop_last(), players);
    }
}

impl View for Tally {
    type V = TallyView;

    open spec fn view(&self) -> TallyView {
        TallyView {
            trials: self.trials as nat,
            wins: self.wins@.map_values(|n: u64| n as nat),
            draws: self.draws@.map_values(|n: u64| n as nat),
            shares: self.shares@.map_values(|n: u128| n as nat),
        }
    }
}

impl Tally {
    /// The counts are those of some replays: see [`is_tally`].
    pub open spec fn wf(&self) -> bool {
        is_tally(self@)
    }

    /// The tally of no replays among `num_players` players.
    pub fn new(num_players: usize) -> (tally: Tally)
        requires
            num_players <= MAX_PLAYERS,
        ensures
            tally.wf(),
            tally@ == empty_tally(num_players as nat),
    {
        let mut wins: Vec<u64> = Vec::new();
        let mut draws: Vec<u64> = Vec::new();
        let mut shares: Vec<u128> = Vec::new();
        let mut n: usize = 0;
        while n < num_players
            invariant
                n <= num_players,
                wins@.len() == n,
                draws@.len() == n,
                shares@.len() == n,
                forall|i: int| 0 <= i < n ==> wins@[i] == 0 && draws@[i] == 0 && shares@[i] == 0,
            decreases num_players - n,
        {
            wins.push(0);
            draws.push(0);
            shares.push(0);
            n = n + 1;
        }
        let tally = Tally { trials: 0, wins, draws, shares };
        proof {
            assert(tally@ =~= empty_tally(num_players as nat));
            lemma_sum_zero(num_players as nat);
        }
        tally
    }

    /// Counts one replay with the given winners.
    pub fn record(&mut self, winners: &Vec<usize>)
        requires
            old(self).wf(),
            old(self).trials < u64::MAX,
            is_outcome(winners@, old(self)@.shares.len()),
        ensures
            final(self).wf(),
            final(self)@ == recorded(old(self)@, winners@),
    {
        let count = winners.len();
        let ghost before = self@;
        proof {
            lemma_ascending_fits(winners@, before.shares.len());
            lemma_pot_divides(count as nat);
            lemma_recorded_is_tally(before, winners@);
            assert forall|player: int| 0 <= player < before.shares.len() implies
                #[trigger] before.shares[player] <= POT_UNITS * before.trials by {
                lemma_sum_bounds(before.shares, player);
            }
            assert(POT_UNITS * before.trials <= POT_UNITS * 0xffff_ffff_ffff_ffff)
                by (nonlinear_arith)
                requires
                    before.trials <= 0xffff_ffff_ffff_ffff,
            ;
        }
        let share: u128 = (POT_UNITS / (count as u64)) as u128;
        let sole = count == 1;
        let mut n: usize = 0;
        while n < count
            invariant
                n <= count,
                count == winners@.len(),
                sole == (count == 1),
                share == share_of(count as nat),
                share <= POT_UNITS,
                is_outcome(winners@, before.shares.len()),
                is_tally(before),
                before.trials < u64::MAX,
                self.trials == before.trials,
                self.wins@.len() == before.shares.len(),
                self.draws@.len() == before.shares.len(),
                self.shares@.len() == before.shares.len(),
                forall|player: int|
                    0 <= player < before.shares.len() ==> #[trigger] before.shares[player]
                        <= POT_UNITS * 0xffff_ffff_ffff_ffff,
                forall|player: int|
                    0 <= player < before.shares.len() ==> (#[trigger] self.shares@[player])
                        == before.shares[player] + if wins_among(winners@, n as int, player) {
                        share as nat
                    } else {
                        0nat
                    },
                forall|player: int|
                    0 <= player < before.shares.len() ==> (#[trigger] self.wins@[player])
                        == before.wins[player] + if sole && wins_among(
                        winners@,
                        n as int,
                        player,
                    ) {
                        1nat
                    } else {
                        0nat
                    },
                forall|player: int|
                    0 <= player < before.shares.len() ==> (#[trigger] self.draws@[player])
                        == before.draws[player] + if !sole && wins_among(
                        winners@,
                        n as int,
                        player,
                    ) {
                        1nat
                    } else {
                        0nat
                    },
            decreases count - n,
        {
            let player = winners[n];
            proof {
                assert(!wins_among(winners@, n as int, player as int)) by {
                    if wins_among(winners@, n as int, player as int) {
                        let i = choose|i: int|
                            0 <= i < n && i < winners@.len() && #[trigger] winners@[i] == player;
                        assert(winners@[i] < winners@[n as int]);
                    }
                }
                assert(wins_among(winners@, n + 1, player as int)) by {
                    assert(winners@[n as int] == player);
                }
                assert forall|other: int|
                    0 <= other < before.shares.len() && other != player implies (wins_among(
                    winners@,
                    n + 1,
                    other,
                ) <==> wins_among(winners@, n as int, other)) by {
                    if wins_among(winners@, n + 1, other) {
                        let i = choose|i: int|
                            0 <= i < n + 1 && i < winners@.len() && #[trigger] winners@[i]
                                == other;
                        assert(i < n);
                    }
                    if wins_among(winners@, n as int, other) {
                        let i = choose|i: int|
                            0 <= i < n && i < winners@.len() && #[trigger] winners@[i] == other;
                        assert(0 <= i < n + 1);
                    }
                }
                assert(before.wins[player as int] + before.draws[player as int] <= before.trials);
            }
            let credit = self.shares[player] + share;
            self.shares.set(player, credit);
            if sole {
                let wins = self.wins[player] + 1;
                self.wins.set(player, wins);
            } else {
                let draws = self.draws[player] + 1;
                self.draws.set(player, draws);
            }
            n = n + 1;
        }
        self.trials = self.trials + 1;
        proof {
            assert(self@.shares =~= recorded(before, winners@).shares);
            assert(self@.wins =~= recorded(before, winners@).wins);
            assert(self@.draws =~= recorded(before, winners@).draws);
            assert(self@ =~= recorded(before, winners@));
        }
    }

    /// Puts two tallies of the same players together. `None` where they are
    /// of different numbers of players, or the replays of both are more than
    /// a `u64` holds.
    pub fn merge(&self, other: &Tally) -> (sum: Option<Tally>)
        requires
            self.wf(),
            other.wf(),
        ensures
            sum is Some <==> self@.shares.len() == other@.shares.len() && self.trials
                + other.trials <= u64::MAX,
            sum is Some ==> sum->0.wf() && sum->0@ == merged(self@, other@),
    {
        let players = self.shares.len();
        if other.shares.len() != players {
            return None;
        }
        let trials = match self.trials.checked_add(other.trials) {
            Some(trials) => trials,
            None => {
                return None;
            },
        };
        proof {
            assert forall|player: int| 0 <= player < players implies
                #[trigger] self@.shares[player] + other@.shares[player] <= POT_UNITS
                * 0xffff_ffff_ffff_ffff by {
                lemma_sum_bounds(self@.shares, player);
                lemma_sum_bounds(other@.shares, player);
                assert(POT_UNITS * self@.trials + POT_UNITS * other@.trials <= POT_UNITS
                    * 0xffff_ffff_ffff_ffff) by (nonlinear_arith)
                    requires
                        self@.trials + other@.trials <= 0xffff_ffff_ffff_ffff,
                ;
            }
        }
        let mut wins: Vec<u64> = Vec::new();
        let mut draws: Vec<u64> = Vec::new();
        let mut shares: Vec<u128> = Vec::new();
        let mut n: usize = 0;
        while n < players
            invariant
                n <= players,
                players == self.shares@.len(),
                players == other.shares@.len(),
                self.wf(),
                other.wf(),
                self.trials + other.trials <= u64::MAX,
                wins@.len() == n,
                draws@.len() == n,
                shares@.len() == n,
                forall|player: int|
                    0 <= player < players ==> #[trigger] self@.shares[player]
                        + other@.shares[player] <= POT_UNITS * 0xffff_ffff_ffff_ffff,
                forall|i: int|
                    0 <= i < n ==> wins@[i] == self.wins@[i] + other.wins@[i] && draws@[i]
                        == self.draws@[i] + other.draws@[i] && shares@[i] == self.shares@[i]
                        + other.shares@[i],
            decreases players - n,
        {
            proof {
                assert(self@.wins[n as int] + self@.draws[n as int] <= self@.trials);
                assert(other@.wins[n as int] + other@.draws[n as int] <= other@.trials);
                assert(self@.shares[n as int] + other@.shares[n as int] <= POT_UNITS
                    * 0xffff_ffff_ffff_ffff);
            }
            wins.push(self.wins[n] + other.wins[n]);
            draws.push(self.draws[n] + other.draws[n]);
            shares.push(self.shares[n] + other.shares[n]);
            n = n + 1;
        }
        let sum = Tally { trials, wins, draws, shares };
        proof {
            assert(sum@ =~= merged(self@, other@));
            lemma_sum_merged(self@.shares, other@.shares);
            assert(POT_UNITS * (self@.trials + other@.trials) == POT_UNITS * self@.trials
                + POT_UNITS * other@.trials) by (nonlinear_arith);
            assert forall|player: int| 0 <= player < sum@.shares.len() implies
                #[trigger] sum@.wins[player] + sum@.draws[player] <= sum@.trials by {
                assert(self@.wins[player] + self@.draws[player] <= self@.trials);
                assert(other@.wins[player] + other@.draws[player] <= other@.trials);
            }
        }
        Some(sum)
    }
}

/// The replays that each of `workers` workers runs so that together they run
/// at least `num_simulations`: the quotient rounded up.
pub fn trials_per_worker(num_simulations: u64, workers: usize) -> (share: u64)
    requires
        workers > 0,
    ensures
        share * workers >= num_simulations,
        num_simulations > 0 ==> (share - 1) * workers < num_simulations,
        num_simulations == 0 ==> share == 0,
{
    let count = workers as u64;
    let share = num_simulations / count;
    let rest = num_simulations % count;
    proof {
        assert(num_simulations == share * count + rest && rest < count) by (nonlinear_arith)
            requires
                share == num_simulations / count,
                rest == num_simulations % count,
                count > 0,
        ;
        assert((share - 1) * count == share * count - count) by (nonlinear_arith);
        assert((share + 1) * count == share * count + count) by (nonlinear_arith);
    }
    if rest == 0 {
        share
    } else {
        assert(share < u64::MAX) by (nonlinear_arith)
            requires
                share * count + rest == num_simulations,
                rest > 0,
                count >= 1,
                num_simulations <= u64::MAX,
        ;
        share + 1
    }
}

/// Puts the tallies of several workers together: every count is summed over
/// the workers, so that what each worker counted weighs by its replays.
/// `None` where there is no tally, where two are of different numbers of
/// players, or the replays of all are more than a `u64` holds.
pub fn merge_all(tallies: &Vec<Tally>) -> (sum: Option<Tally>)
    requires
        forall|i: int| 0 <= i < tallies@.len() ==> (#[trigger] tallies@[i]).wf(),
    ensures
        sum is Some <==> {
            &&& tallies@.len() >= 1
            &&& forall|i: int|
                0 <= i < tallies@.len() ==> (#[trigger] tallies@[i])@.shares.len()
                    == tallies@[0]@.shares.len()
            &&& total_trials(views_of(tallies@)) <= u64::MAX
        },
        sum is Some ==> sum->0.wf() && sum->0@ == merged_all(views_of(tallies@)),
{
    if tallies.len() == 0 {
        return None;
    }
    let ghost views = views_of(tallies@);
    let first = &tallies[0];
    assert(first.wf());
    let mut sum = match Tally::new(first.shares.len()).merge(first) {
        Some(sum) => sum,
        None => {
            return None;
        },
    };
    proof {
        assert(sum@ =~= first@);
        assert(views.take(1) =~= seq![first@]);
        assert(views.take(1).drop_last() =~= Seq::<TallyView>::empty());
        assert(total_trials(views.take(1).drop_last()) == 0);
    }
    let mut n: usize = 1;
    while n < tallies.len()
        invariant
            1 <= n <= tallies.len(),
            views == views_of(tallies@),
            forall|i: int| 0 <= i < tallies@.len() ==> (#[trigger] tallies@[i]).wf(),
            sum.wf(),
            sum@ == merged_all(views.take(n as int)),
            sum.trials == total_trials(views.take(n as int)),
            sum@.shares.len() == tallies@[0]@.shares.len(),
            forall|i: int|
                0 <= i < n ==> (#[trigger] tallies@[i])@.shares.len() == tallies@[0]@.shares.len(),
        decreases tallies.len() - n,
    {
        let next = &tallies[n];
        proof {
            assert(next.wf());
            assert(views.take(n + 1).drop_last() =~= views.take(n as int));
            assert(views.take(n + 1).last() == next@);
            lemma_total_trials_grow(views, n + 1);
        }
        sum = match sum.merge(next) {
            Some(sum) => sum,
            None => {
                return None;
            },
        };
        n = n + 1;
    }
    proof {
        assert(views.take(tallies@.len() as int) =~= views);
    }
    Some(sum)
}

fn winning_players(winners: &Vec<(usize, Hand)>) -> (players: Vec<usize>)
    ensures
        players@.len() == winners@.len(),
        forall|i: int| 0 <= i < players@.len() ==> players@[i] == winners@[i].0,
{
    let mut players: Vec<usize> = Vec::new();
    let mut n: usize = 0;
    while n < winners.len()
        invariant
            n <= winners.len(),
            players@.len() == n,
            forall|i: int| 0 <= i < n ==> players@[i] == winners@[i].0,
        decreases winners.len() - n,
    {
        players.push(winners[n].0);
        n = n + 1;
    }
    players
}

/// Runs `num_simulations` replays of the table, one after the other, and
/// tallies their winners. Each replay sets the table up anew with a freshly
/// shuffled draw pile, completes the board, and finds the winners.
///
/// Fails without a replay where there is no player or there are more than
/// [`MAX_PLAYERS`], and on the first replay where the table names a card that
/// cannot be taken from the deck.
pub fn threaded_simulate_equity_from_game_spec(
    game_spec: &GameSpec,
    num_simulations: u64,
) -> (result: Result<Tally, SetupError>)
    ensures
        match result {
            Ok(tally) => {
                &&& 1 <= game_spec.hole_cards@.len() <= MAX_PLAYERS
                &&& tally.wf()
                &&& tally.trials == num_simulations
                &&& tally@.shares.len() == game_spec.hole_cards@.len()
                &&& num_simulations > 0 ==> forall|at: int|
                    0 <= at < game_spec.cards().len() ==> is_available(game_spec.cards(), at)
                &&& exists|outcomes: Seq<Seq<usize>>|
                    {
                        &&& outcomes.len() == num_simulations
                        &&& forall|i: int|
                            0 <= i < outcomes.len() ==> is_outcome(
                                #[trigger] outcomes[i],
                                game_spec.hole_cards@.len(),
                            ) && is_replay_outcome(
                                game_spec.board@,
                                game_spec.hole_cards@,
                                outcomes[i],
                            )
                        &&& tally@ == tally_of(outcomes, game_spec.hole_cards@.len())
                    }
            },
            Err(SetupError::NoPlayers) => game_spec.hole_cards@.len() == 0,
            Err(SetupError::TooManyPlayers) => game_spec.hole_cards@.len() > MAX_PLAYERS,
            Err(SetupError::CardNotFound(card)) => {
                &&& 1 <= game_spec.hole_cards@.len() <= MAX_PLAYERS
                &&& num_simulations > 0
                &&& is_first_unavailable(game_spec.cards(), card)
            },
            Err(SetupError::DeckMismatch) => false,
        },
{
    let num_players = game_spec.hole_cards.len();
    if num_players == 0 {
        return Err(SetupError::NoPlayers);
    }
    if num_players > MAX_PLAYERS {
        return Err(SetupError::TooManyPlayers);
    }
    let mut tally = Tally::new(num_players);
    let ghost mut outcomes: Seq<Seq<usize>> = Seq::empty();
    let mut n: u64 = 0;
    while n < num_simulations
        invariant
            n <= num_simulations,
            num_players == game_spec.hole_cards@.len(),
            1 <= num_players <= MAX_PLAYERS,
            tally.wf(),
            tally.trials == n,
            tally@.shares.len() == num_players,
            n > 0 ==> forall|at: int|
                0 <= at < game_spec.cards().len() ==> is_available(game_spec.cards(), at),
            outcomes.len() == n,
            forall|i: int|
                0 <= i < outcomes.len() ==> is_outcome(#[trigger] outcomes[i], num_players as nat)
                    && is_replay_outcome(game_spec.board@, game_spec.hole_cards@, outcomes[i]),
            tally@ == tally_of(outcomes, num_players as nat),
        decreases num_simulations - n,
    {
        let mut game = match Game::from_spec(game_spec) {
            Ok(game) => game,
            Err(error) => {
                proof {
                    if n > 0 {
                        match error {
                            SetupError::CardNotFound(card) => {
                                let at = choose|at: int|
                                    0 <= at < game_spec.cards().len() && game_spec.cards()[at]
                                        == card && !is_available(game_spec.cards(), at);
                                assert(is_available(game_spec.cards(), at));
                            },
                            _ => {},
                        }
                    }
                }
                return Err(error);
            },
        };
        proof {
            assert(game@.deck.len() + game@.board.len() + 2 * game@.hole_cards.len() == 52);
        }
        let ghost set_up = game@;
        game.deal_down_to_river();
        proof {
            assert(game@.board.take(set_up.board.len() as int) =~= set_up.board);
        }
        let winning_players_and_hands = game.get_winning_players_and_hands();
        let winners = winning_players(&winning_players_and_hands);
        proof {
            assert(is_showdown(game@, winning_players_and_hands@));
            assert forall|i: int, j: int| 0 <= i < j < winners@.len() implies winners@[i]
                < winners@[j] by {
                assert(winning_players_and_hands@[i].0 < winning_players_and_hands@[j].0);
            }
            assert forall|i: int| 0 <= i < winners@.len() implies winners@[i] < num_players by {
                assert(winning_players_and_hands@[i].0 < game@.hole_cards.len());
            }
            assert(is_replay_outcome(game_spec.board@, game_spec.hole_cards@, winners@));
            let ghost earlier = outcomes;
            outcomes = outcomes.push(winners@);
            assert(outcomes.drop_last() =~= earlier);
        }
        tally.record(&winners);
        n = n + 1;
    }
    Ok(tally)
}

} // verus!
