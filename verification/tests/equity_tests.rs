use poker_equity::cards::{Card, Suit};
use poker_equity::equity::{
    merge_all, threaded_simulate_equity_from_game_spec, trials_per_worker, Tally,
    DEFAULT_NUM_SIMULATIONS, MAX_PLAYERS, NUM_THREADS, POT_UNITS,
};
use poker_equity::game::{GameSpec, SetupError};

fn cards_of(text: &str) -> Vec<Card> {
    text.split_whitespace().map(|token| Card::from_str(token)).collect()
}

fn pair_of(text: &str) -> (Card, Card) {
    let cards = cards_of(text);
    (cards[0], cards[1])
}

fn queens_against_aces() -> GameSpec {
    GameSpec {
        board: cards_of("Qs Kd Jc Tc"),
        hole_cards: vec![pair_of("Qh Qd"), pair_of("Ac As")],
    }
}

fn equity(tally: &Tally, player: usize) -> f64 {
    tally.shares[player] as f64 / (POT_UNITS as f64 * tally.trials as f64)
}

fn win_percentage(tally: &Tally, player: usize) -> f64 {
    100. * tally.wins[player] as f64 / tally.trials as f64
}

fn draw_percentage(tally: &Tally, player: usize) -> f64 {
    100. * tally.draws[player] as f64 / tally.trials as f64
}

#[test]
fn constants() {
    assert_eq!(DEFAULT_NUM_SIMULATIONS, 100000);
    assert_eq!(NUM_THREADS, 16);
    assert_eq!(MAX_PLAYERS, 23);
    assert_eq!(POT_UNITS, 5354228880);
    for winners in 1..=23u64 {
        assert_eq!(POT_UNITS % winners, 0);
    }
}

#[test]
fn trials_are_shared_rounding_up() {
    assert_eq!(trials_per_worker(100000, 16), 6250);
    assert_eq!(trials_per_worker(100001, 16), 6251);
    assert_eq!(trials_per_worker(100015, 16), 6251);
    assert_eq!(trials_per_worker(100016, 16), 6251);
    assert_eq!(trials_per_worker(100017, 16), 6252);
    assert_eq!(trials_per_worker(0, 16), 0);
    assert_eq!(trials_per_worker(1, 16), 1);
    assert_eq!(trials_per_worker(16, 16), 1);
    assert_eq!(trials_per_worker(17, 16), 2);
    assert_eq!(trials_per_worker(5, 1), 5);
    assert_eq!(trials_per_worker(5, 2), 3);
    assert_eq!(trials_per_worker(u64::MAX, 16), 1 << 60);
    assert_eq!(trials_per_worker(u64::MAX, 1), u64::MAX);
    assert_eq!(trials_per_worker(5_000_000_000, 16), 312_500_000);
}

#[test]
fn a_new_tally_is_empty() {
    let tally = Tally::new(3);
    assert_eq!(tally.trials, 0);
    assert_eq!(tally.wins, vec![0, 0, 0]);
    assert_eq!(tally.draws, vec![0, 0, 0]);
    assert_eq!(tally.shares, vec![0, 0, 0]);
    let nobody = Tally::new(0);
    assert!(nobody.wins.is_empty());
}

#[test]
fn record_credits_a_sole_winner_with_the_pot() {
    let mut tally = Tally::new(3);
    tally.record(&vec![1]);
    assert_eq!(tally.trials, 1);
    assert_eq!(tally.wins, vec![0, 1, 0]);
    assert_eq!(tally.draws, vec![0, 0, 0]);
    assert_eq!(tally.shares, vec![0, 5354228880, 0]);
}

#[test]
fn record_splits_the_pot_among_several_winners() {
    let mut tally = Tally::new(3);
    tally.record(&vec![0, 2]);
    assert_eq!(tally.trials, 1);
    assert_eq!(tally.wins, vec![0, 0, 0]);
    assert_eq!(tally.draws, vec![1, 0, 1]);
    assert_eq!(tally.shares, vec![2677114440, 0, 2677114440]);
    tally.record(&vec![0, 1, 2]);
    assert_eq!(tally.trials, 2);
    assert_eq!(tally.draws, vec![2, 1, 2]);
    assert_eq!(
        tally.shares,
        vec![2677114440 + 1784742960, 1784742960, 2677114440 + 1784742960]
    );
    tally.record(&vec![2]);
    assert_eq!(tally.trials, 3);
    assert_eq!(tally.wins, vec![0, 0, 1]);
    assert_eq!(tally.draws, vec![2, 1, 2]);
    assert_eq!(tally.shares.iter().sum::<u128>(), 3 * POT_UNITS as u128);
}

#[test]
fn record_splits_exactly_among_any_number_of_winners() {
    for players in 1..=23usize {
        let mut tally = Tally::new(players);
        let everyone: Vec<usize> = (0..players).collect();
        tally.record(&everyone);
        for player in 0..players {
            assert_eq!(tally.shares[player], (POT_UNITS / players as u64) as u128);
            assert_eq!(tally.wins[player], if players == 1 { 1 } else { 0 });
            assert_eq!(tally.draws[player], if players == 1 { 0 } else { 1 });
        }
        assert_eq!(tally.shares.iter().sum::<u128>(), POT_UNITS as u128);
    }
}

#[test]
fn merge_sums_every_count() {
    let mut a = Tally::new(2);
    a.record(&vec![0]);
    a.record(&vec![0, 1]);
    let mut b = Tally::new(2);
    b.record(&vec![1]);
    b.record(&vec![1]);
    b.record(&vec![0]);
    let both = a.merge(&b).unwrap();
    assert_eq!(both.trials, 5);
    assert_eq!(both.wins, vec![2, 2]);
    assert_eq!(both.draws, vec![1, 1]);
    assert_eq!(both.shares, vec![2 * 5354228880 + 2677114440, 2 * 5354228880 + 2677114440]);

    let mut whole = Tally::new(2);
    for winners in [vec![0], vec![0, 1], vec![1], vec![1], vec![0]] {
        whole.record(&winners);
    }
    assert_eq!(both.trials, whole.trials);
    assert_eq!(both.wins, whole.wins);
    assert_eq!(both.draws, whole.draws);
    assert_eq!(both.shares, whole.shares);
}

#[test]
fn merge_refuses_what_does_not_fit() {
    let two = Tally::new(2);
    let three = Tally::new(3);
    assert!(two.merge(&three).is_none());
    assert!(three.merge(&two).is_none());

    let full = Tally {
        trials: u64::MAX,
        wins: vec![u64::MAX],
        draws: vec![0],
        shares: vec![POT_UNITS as u128 * u64::MAX as u128],
    };
    let mut one = Tally::new(1);
    one.record(&vec![0]);
    assert!(full.merge(&one).is_none());
    let same = full.merge(&Tally::new(1)).unwrap();
    assert_eq!(same.trials, u64::MAX);
    assert_eq!(same.shares, full.shares);
}

#[test]
fn merge_all_weighs_each_worker_by_its_trials() {
    let mut a = Tally::new(2);
    a.record(&vec![0]);
    let mut b = Tally::new(2);
    for _ in 0..9 {
        b.record(&vec![1]);
    }
    let c = Tally::new(2);
    let all = merge_all(&vec![a, b, c]).unwrap();
    assert_eq!(all.trials, 10);
    assert_eq!(all.wins, vec![1, 9]);
    assert_eq!(all.draws, vec![0, 0]);
    assert_eq!(all.shares, vec![POT_UNITS as u128, 9 * POT_UNITS as u128]);
    // One win in ten, not the mean of 100% and 0% and nothing.
    assert_eq!(win_percentage(&all, 0), 10.);
    assert_eq!(win_percentage(&all, 1), 90.);
    assert_eq!(equity(&all, 0), 0.1);
}

#[test]
fn merge_all_of_one_and_of_none() {
    let mut a = Tally::new(2);
    a.record(&vec![0, 1]);
    let all = merge_all(&vec![a]).unwrap();
    assert_eq!(all.trials, 1);
    assert_eq!(all.draws, vec![1, 1]);
    assert!(merge_all(&vec![]).is_none());
    assert!(merge_all(&vec![Tally::new(2), Tally::new(3)]).is_none());
}

#[test]
fn simulation_counts_every_trial_once() {
    let spec = queens_against_aces();
    let tally = threaded_simulate_equity_from_game_spec(&spec, 3000).unwrap();
    assert_eq!(tally.trials, 3000);
    assert_eq!(tally.wins.len(), 2);
    assert_eq!(tally.draws.len(), 2);
    assert_eq!(tally.shares.len(), 2);
    assert_eq!(tally.draws[0], tally.draws[1]);
    assert_eq!(tally.wins[0] + tally.wins[1] + tally.draws[0], 3000);
    assert_eq!(tally.shares.iter().sum::<u128>(), 3000 * POT_UNITS as u128);
}

#[test]
fn equity_is_conserved_with_many_players() {
    let spec = GameSpec {
        board: cards_of("2c 7d 9h"),
        hole_cards: vec![
            pair_of("Ac 3d"),
            pair_of("4c 5d"),
            pair_of("Ad 3h"),
            pair_of("Qc 8d"),
            pair_of("Ah 3s"),
        ],
    };
    for trials in [0u64, 1, 2, 777, 4000] {
        let tally = threaded_simulate_equity_from_game_spec(&spec, trials).unwrap();
        assert_eq!(tally.trials, trials);
        assert_eq!(tally.shares.iter().sum::<u128>(), trials as u128 * POT_UNITS as u128);
        for player in 0..5 {
            assert!(tally.wins[player] + tally.draws[player] <= trials);
        }
        let sole: u64 = tally.wins.iter().sum();
        assert!(sole <= trials);
        if trials > 0 {
            let total: f64 = (0..5).map(|player| equity(&tally, player)).sum();
            assert!((total - 1.).abs() < 1e-9);
        }
    }
}

#[test]
fn simulation_needs_players() {
    let spec = GameSpec { board: vec![], hole_cards: vec![] };
    assert_eq!(
        threaded_simulate_equity_from_game_spec(&spec, 10).err(),
        Some(SetupError::NoPlayers)
    );
    assert_eq!(
        threaded_simulate_equity_from_game_spec(&spec, 0).err(),
        Some(SetupError::NoPlayers)
    );
}

#[test]
fn simulation_serves_at_most_23_players() {
    let deck = Card::create_deck();
    let mut hole_cards = Vec::new();
    for player in 0..23 {
        hole_cards.push((deck[2 * player], deck[2 * player + 1]));
    }
    let spec = GameSpec { board: vec![], hole_cards: hole_cards.clone() };
    let tally = threaded_simulate_equity_from_game_spec(&spec, 20).unwrap();
    assert_eq!(tally.trials, 20);
    assert_eq!(tally.shares.len(), 23);
    assert_eq!(tally.shares.iter().sum::<u128>(), 20 * POT_UNITS as u128);

    hole_cards.push((deck[46], deck[47]));
    let spec = GameSpec { board: vec![], hole_cards };
    assert_eq!(
        threaded_simulate_equity_from_game_spec(&spec, 20).err(),
        Some(SetupError::TooManyPlayers)
    );
}

#[test]
fn simulation_fails_on_a_bad_table() {
    let spec = GameSpec {
        board: cards_of("Qs Kd Jc Tc"),
        hole_cards: vec![pair_of("Qh Qd"), pair_of("Ac Qs")],
    };
    assert_eq!(
        threaded_simulate_equity_from_game_spec(&spec, 10).err(),
        Some(SetupError::CardNotFound(Card::from_str("Qs")))
    );
    let joker = Card { rank: 15, suit: Suit::Spades };
    let spec = GameSpec { board: vec![joker], hole_cards: vec![pair_of("Qh Qd")] };
    assert_eq!(
        threaded_simulate_equity_from_game_spec(&spec, 1).err(),
        Some(SetupError::CardNotFound(joker))
    );
    // Without a replay the table is never set up.
    let tally = threaded_simulate_equity_from_game_spec(&spec, 0).unwrap();
    assert_eq!(tally.trials, 0);
}

#[test]
fn simulation_converges_to_the_count_of_all_rivers() {
    // Of the 44 rivers, 10 give the queens the pot, 32 the aces, and 2 split it.
    let spec = queens_against_aces();
    let tally = threaded_simulate_equity_from_game_spec(&spec, 40000).unwrap();
    let tolerance = 1.5;
    assert!((win_percentage(&tally, 0) - 100. * 10. / 44.).abs() < tolerance);
    assert!((win_percentage(&tally, 1) - 100. * 32. / 44.).abs() < tolerance);
    assert!((draw_percentage(&tally, 0) - 100. * 2. / 44.).abs() < tolerance);
    assert!((draw_percentage(&tally, 1) - 100. * 2. / 44.).abs() < tolerance);
    assert!((equity(&tally, 0) - 11. / 44.).abs() < tolerance / 100.);
    assert!((equity(&tally, 1) - 33. / 44.).abs() < tolerance / 100.);
}

#[test]
fn mirrored_hands_win_equally_often() {
    // The two hands are each other's image under swapping spades and hearts.
    let spec = GameSpec { board: vec![], hole_cards: vec![pair_of("As Kh"), pair_of("Ah Ks")] };
    let tally = threaded_simulate_equity_from_game_spec(&spec, 30000).unwrap();
    assert_eq!(tally.draws[0], tally.draws[1]);
    assert!((win_percentage(&tally, 0) - win_percentage(&tally, 1)).abs() < 1.5);
    assert!((equity(&tally, 0) - 0.5).abs() < 0.015);
    assert!((equity(&tally, 1) - 0.5).abs() < 0.015);
}

#[test]
fn the_number_of_workers_does_not_bias_the_result() {
    let spec = queens_against_aces();
    let total: u64 = 16000;
    let mut merged = Vec::new();
    for workers in [1usize, 2, 16] {
        let each = trials_per_worker(total, workers);
        let mut tallies = Vec::new();
        for _ in 0..workers {
            tallies.push(threaded_simulate_equity_from_game_spec(&spec, each).unwrap());
        }
        let all = merge_all(&tallies).unwrap();
        assert_eq!(all.trials, total);
        assert_eq!(all.shares.iter().sum::<u128>(), total as u128 * POT_UNITS as u128);
        for player in 0..2 {
            let wins: u64 = tallies.iter().map(|tally| tally.wins[player]).sum();
            let draws: u64 = tallies.iter().map(|tally| tally.draws[player]).sum();
            let shares: u128 = tallies.iter().map(|tally| tally.shares[player]).sum();
            assert_eq!(all.wins[player], wins);
            assert_eq!(all.draws[player], draws);
            assert_eq!(all.shares[player], shares);
        }
        merged.push(all);
    }
    for all in &merged {
        assert!((win_percentage(all, 0) - 100. * 10. / 44.).abs() < 2.5);
        assert!((win_percentage(all, 1) - 100. * 32. / 44.).abs() < 2.5);
        assert!((draw_percentage(all, 0) - 100. * 2. / 44.).abs() < 2.5);
        assert!((equity(all, 0) - 0.25).abs() < 0.025);
    }
}

#[test]
fn uneven_workers_are_weighed_by_their_trials() {
    let spec = queens_against_aces();
    let small = threaded_simulate_equity_from_game_spec(&spec, 10).unwrap();
    let large = threaded_simulate_equity_from_game_spec(&spec, 20000).unwrap();
    let wins = small.wins[0] + large.wins[0];
    let all = merge_all(&vec![small, large]).unwrap();
    assert_eq!(all.trials, 20010);
    assert_eq!(all.wins[0], wins);
    assert!((win_percentage(&all, 0) - 100. * 10. / 44.).abs() < 2.);
}
