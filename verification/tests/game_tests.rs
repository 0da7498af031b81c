use poker_equity::cards::{Card, Suit};
use poker_equity::game::{Game, GameSpec, SetupError};
use poker_equity::hands::HandType;

fn cards_of(text: &str) -> Vec<Card> {
    text.split_whitespace().map(|token| Card::from_str(token)).collect()
}

fn pair_of(text: &str) -> (Card, Card) {
    let cards = cards_of(text);
    (cards[0], cards[1])
}

fn queens_against_aces() -> GameSpec {
    GameSpec {
        board: cards_of("Qs Kd Jc Tc"),
        hole_cards: vec![pair_of("Qh Qd"), pair_of("Ac As")],
    }
}

fn named_cards(spec: &GameSpec) -> Vec<Card> {
    let mut named = spec.board.clone();
    for (first, second) in &spec.hole_cards {
        named.push(*first);
        named.push(*second);
    }
    named
}

/// The fresh deck without the cards that the table names.
fn rest_of_deck(spec: &GameSpec) -> Vec<Card> {
    let named = named_cards(spec);
    Card::create_deck().into_iter().filter(|card| !named.contains(card)).collect()
}

/// A draw pile that deals `next` first, then the rest in deck order.
fn pile_dealing(spec: &GameSpec, next: &[Card]) -> Vec<Card> {
    let mut pile: Vec<Card> =
        rest_of_deck(spec).into_iter().filter(|card| !next.contains(card)).collect();
    for card in next.iter().rev() {
        pile.push(*card);
    }
    pile
}

fn sorted(cards: &Vec<Card>) -> Vec<(u8, u8)> {
    let mut keys: Vec<(u8, u8)> = cards
        .iter()
        .map(|card| {
            let suit = match card.suit {
                Suit::Clubs => 0,
                Suit::Hearts => 1,
                Suit::Diamonds => 2,
                Suit::Spades => 3,
            };
            (suit, card.rank)
        })
        .collect();
    keys.sort();
    keys
}

#[test]
fn from_spec_takes_the_named_cards_out_of_the_deck() {
    let spec = queens_against_aces();
    let game = Game::from_spec(&spec).unwrap();
    assert_eq!(game.board(), &spec.board);
    assert_eq!(game.deck().len(), 44);
    assert_eq!(sorted(game.deck()), sorted(&rest_of_deck(&spec)));
}

#[test]
fn from_spec_shuffles_the_pile() {
    let spec = queens_against_aces();
    let unshuffled = rest_of_deck(&spec);
    let mut moved = false;
    let mut differed = false;
    let mut last: Option<Vec<Card>> = None;
    for _ in 0..20 {
        let game = Game::from_spec(&spec).unwrap();
        assert_eq!(sorted(game.deck()), sorted(&unshuffled));
        if game.deck() != &unshuffled {
            moved = true;
        }
        if let Some(previous) = &last {
            if previous != game.deck() {
                differed = true;
            }
        }
        last = Some(game.deck().clone());
    }
    assert!(moved);
    assert!(differed);
}

#[test]
fn from_spec_accepts_an_empty_table() {
    let spec = GameSpec { board: vec![], hole_cards: vec![] };
    let game = Game::from_spec(&spec).unwrap();
    assert_eq!(game.deck().len(), 52);
    assert!(game.board().is_empty());
}

#[test]
fn from_spec_fails_on_a_card_named_twice() {
    let twice_on_board = GameSpec { board: cards_of("Qs Kd Qs"), hole_cards: vec![] };
    assert_eq!(
        Game::from_spec(&twice_on_board).err(),
        Some(SetupError::CardNotFound(Card::from_str("Qs")))
    );
    let board_and_hole =
        GameSpec { board: cards_of("Qs Kd Jc"), hole_cards: vec![pair_of("2c Kd")] };
    assert_eq!(
        Game::from_spec(&board_and_hole).err(),
        Some(SetupError::CardNotFound(Card::from_str("Kd")))
    );
    let same_pair = GameSpec { board: vec![], hole_cards: vec![pair_of("2c 2c")] };
    assert_eq!(
        Game::from_spec(&same_pair).err(),
        Some(SetupError::CardNotFound(Card::from_str("2c")))
    );
    let two_players =
        GameSpec { board: vec![], hole_cards: vec![pair_of("2c 3c"), pair_of("4c 3c")] };
    assert_eq!(
        Game::from_spec(&two_players).err(),
        Some(SetupError::CardNotFound(Card::from_str("3c")))
    );
}

#[test]
fn from_spec_fails_on_a_card_outside_the_deck() {
    let low = Card { rank: 1, suit: Suit::Hearts };
    let high = Card { rank: 15, suit: Suit::Hearts };
    let spec = GameSpec { board: vec![Card::from_str("Qs"), low], hole_cards: vec![] };
    assert_eq!(Game::from_spec(&spec).err(), Some(SetupError::CardNotFound(low)));
    let spec = GameSpec { board: vec![], hole_cards: vec![(Card::from_str("Qs"), high)] };
    assert_eq!(Game::from_spec(&spec).err(), Some(SetupError::CardNotFound(high)));
}

#[test]
fn from_spec_reports_the_first_card_that_fails() {
    let bad = Card { rank: 0, suit: Suit::Clubs };
    let spec = GameSpec {
        board: cards_of("Qs Kd"),
        hole_cards: vec![pair_of("2c 3c"), (bad, Card::from_str("Qs"))],
    };
    assert_eq!(Game::from_spec(&spec).err(), Some(SetupError::CardNotFound(bad)));
    let spec = GameSpec {
        board: cards_of("Qs Kd"),
        hole_cards: vec![pair_of("2c 3c"), (Card::from_str("Qs"), bad)],
    };
    assert_eq!(
        Game::from_spec(&spec).err(),
        Some(SetupError::CardNotFound(Card::from_str("Qs")))
    );
}

#[test]
fn with_deck_keeps_the_pile_as_given() {
    let spec = queens_against_aces();
    let pile = pile_dealing(&spec, &cards_of("2c"));
    let game = Game::with_deck(&spec, pile.clone()).unwrap();
    assert_eq!(game.deck(), &pile);
    assert_eq!(game.board(), &spec.board);
}

#[test]
fn with_deck_refuses_a_pile_that_is_not_the_rest_of_the_deck() {
    let spec = queens_against_aces();
    let rest = rest_of_deck(&spec);

    let mut short = rest.clone();
    short.pop();
    assert_eq!(Game::with_deck(&spec, short).err(), Some(SetupError::DeckMismatch));

    let mut long = rest.clone();
    long.push(Card::from_str("Qs"));
    assert_eq!(Game::with_deck(&spec, long).err(), Some(SetupError::DeckMismatch));

    let mut swapped = rest.clone();
    swapped[0] = Card::from_str("Qs");
    assert_eq!(Game::with_deck(&spec, swapped).err(), Some(SetupError::DeckMismatch));

    let mut doubled = rest.clone();
    doubled[0] = doubled[1];
    assert_eq!(Game::with_deck(&spec, doubled).err(), Some(SetupError::DeckMismatch));

    let mut foreign = rest.clone();
    foreign[0] = Card { rank: 1, suit: Suit::Clubs };
    assert_eq!(Game::with_deck(&spec, foreign).err(), Some(SetupError::DeckMismatch));

    assert_eq!(Game::with_deck(&spec, vec![]).err(), Some(SetupError::DeckMismatch));
}

#[test]
fn with_deck_fails_on_the_table_before_the_pile() {
    let spec = GameSpec { board: cards_of("Qs Qs"), hole_cards: vec![] };
    assert_eq!(
        Game::with_deck(&spec, vec![]).err(),
        Some(SetupError::CardNotFound(Card::from_str("Qs")))
    );
}

#[test]
fn deal_draws_from_the_end_of_the_pile() {
    let spec = GameSpec { board: cards_of("Qs Kd"), hole_cards: vec![pair_of("Qh Qd")] };
    let pile = pile_dealing(&spec, &cards_of("2c 9h Ad"));
    let mut game = Game::with_deck(&spec, pile.clone()).unwrap();
    game.deal_down_to_river();
    assert_eq!(game.board(), &cards_of("Qs Kd 2c 9h Ad"));
    assert_eq!(game.deck().len(), pile.len() - 3);
    assert_eq!(game.deck()[..], pile[..pile.len() - 3]);
}

#[test]
fn deal_fills_an_empty_board() {
    let spec = GameSpec { board: vec![], hole_cards: vec![pair_of("Qh Qd")] };
    let pile = pile_dealing(&spec, &cards_of("2c 9h Ad 3s 4s"));
    let mut game = Game::with_deck(&spec, pile).unwrap();
    game.deal_down_to_river();
    assert_eq!(game.board(), &cards_of("2c 9h Ad 3s 4s"));
    assert_eq!(game.deck().len(), 45);
}

#[test]
fn deal_leaves_a_full_board_alone() {
    let spec =
        GameSpec { board: cards_of("Qs Kd Jc Tc 2c"), hole_cards: vec![pair_of("Qh Qd")] };
    let mut game = Game::from_spec(&spec).unwrap();
    let pile = game.deck().clone();
    game.deal_down_to_river();
    assert_eq!(game.board(), &spec.board);
    assert_eq!(game.deck(), &pile);
}

#[test]
fn deal_serves_the_most_players_a_deck_can() {
    let deck = Card::create_deck();
    let mut hole_cards = Vec::new();
    for player in 0..23 {
        hole_cards.push((deck[2 * player], deck[2 * player + 1]));
    }
    let spec = GameSpec { board: vec![], hole_cards };
    let mut game = Game::from_spec(&spec).unwrap();
    assert_eq!(game.deck().len(), 6);
    game.deal_down_to_river();
    assert_eq!(game.board().len(), 5);
    assert_eq!(game.deck().len(), 1);
    assert_eq!(game.get_player_hands().len(), 23);
    assert!(!game.get_winning_players_and_hands().is_empty());
}

#[test]
fn player_hands_use_the_board() {
    let spec = queens_against_aces();
    let mut game = Game::with_deck(&spec, pile_dealing(&spec, &cards_of("2c"))).unwrap();
    game.deal_down_to_river();
    let hands = game.get_player_hands();
    assert_eq!(hands.len(), 2);
    assert_eq!(hands[0].hand_type, HandType::ThreeOfAKind);
    assert_eq!(hands[0].score, 11 + 13 * 16 + 12 * 256);
    assert_eq!(hands[1].hand_type, HandType::Straight);
    assert_eq!(hands[1].score, 10);
}

#[test]
fn player_hands_on_the_flop_and_the_turn() {
    let spec = GameSpec { board: cards_of("Qs Kd Jc"), hole_cards: vec![pair_of("Qh Qd")] };
    let game = Game::from_spec(&spec).unwrap();
    let hands = game.get_player_hands();
    assert_eq!(hands[0].hand_type, HandType::ThreeOfAKind);
    let spec = GameSpec { board: cards_of("Qs Kd Jc Kc"), hole_cards: vec![pair_of("Qh Qd")] };
    let game = Game::from_spec(&spec).unwrap();
    let hands = game.get_player_hands();
    assert_eq!(hands[0].hand_type, HandType::FullHouse);
}

#[test]
fn a_sole_winner() {
    let spec = queens_against_aces();
    let mut game = Game::with_deck(&spec, pile_dealing(&spec, &cards_of("2c"))).unwrap();
    game.deal_down_to_river();
    let winners = game.get_winning_players_and_hands();
    assert_eq!(winners.len(), 1);
    assert_eq!(winners[0].0, 1);
    assert_eq!(winners[0].1.hand_type, HandType::Straight);

    let mut game = Game::with_deck(&spec, pile_dealing(&spec, &cards_of("Kc"))).unwrap();
    game.deal_down_to_river();
    let winners = game.get_winning_players_and_hands();
    assert_eq!(winners.len(), 1);
    assert_eq!(winners[0].0, 0);
    assert_eq!(winners[0].1.hand_type, HandType::FullHouse);
}

#[test]
fn a_split_pot() {
    let spec = queens_against_aces();
    let mut game = Game::with_deck(&spec, pile_dealing(&spec, &cards_of("Ah"))).unwrap();
    game.deal_down_to_river();
    let winners = game.get_winning_players_and_hands();
    assert_eq!(winners.len(), 2);
    assert_eq!(winners[0].0, 0);
    assert_eq!(winners[1].0, 1);
    assert_eq!(winners[0].1.hand_type, HandType::Straight);
    assert_eq!(winners[1].1.hand_type, HandType::Straight);
    assert!(winners[0].1 == winners[1].1);
}

#[test]
fn a_split_among_some_of_the_players() {
    let spec = GameSpec {
        board: cards_of("2c 7d 9h Js Kc"),
        hole_cards: vec![pair_of("Ac 3d"), pair_of("4c 5d"), pair_of("Ad 3h"), pair_of("Qc 8d")],
    };
    let game = Game::from_spec(&spec).unwrap();
    let winners = game.get_winning_players_and_hands();
    assert_eq!(winners.len(), 2);
    assert_eq!(winners[0].0, 0);
    assert_eq!(winners[1].0, 2);
    assert_eq!(winners[0].1.hand_type, HandType::HighCard);
}

#[test]
fn every_river_of_queens_against_aces() {
    let spec = queens_against_aces();
    let rest = rest_of_deck(&spec);
    assert_eq!(rest.len(), 44);
    let mut queens = 0;
    let mut aces = 0;
    let mut split = 0;
    for river in &rest {
        let mut game = Game::with_deck(&spec, pile_dealing(&spec, &[*river])).unwrap();
        game.deal_down_to_river();
        assert_eq!(game.board()[4], *river);
        let winners = game.get_winning_players_and_hands();
        match winners.len() {
            1 if winners[0].0 == 0 => queens += 1,
            1 => aces += 1,
            _ => split += 1,
        }
    }
    assert_eq!(queens, 10);
    assert_eq!(split, 2);
    assert_eq!(aces, 32);
}
