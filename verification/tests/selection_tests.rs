use poker_equity::cards::Card;
use poker_equity::hands::{Hand, HandType};
use poker_equity::selection::best_hand;

fn cards_of(text: &str) -> Vec<Card> {
    text.split_whitespace().map(|token| Card::from_str(token)).collect()
}

/// Every choice of five positions out of `n`, in lexicographic order.
fn choices(n: usize) -> Vec<Vec<usize>> {
    let mut all = Vec::new();
    for a in 0..n {
        for b in (a + 1)..n {
            for c in (b + 1)..n {
                for d in (c + 1)..n {
                    for e in (d + 1)..n {
                        all.push(vec![a, b, c, d, e]);
                    }
                }
            }
        }
    }
    all
}

fn check_against_all_choices(text: &str) {
    let cards = cards_of(text);
    let best = best_hand(&cards);
    let all = choices(cards.len());
    let mut last_best: Option<Vec<Card>> = None;
    let mut reached = false;
    for picks in &all {
        let five: Vec<Card> = picks.iter().map(|&at| cards[at]).collect();
        let hand = Hand::new(five.iter().collect());
        assert!(!(best < hand), "a choice of five beats the best hand of {}", text);
        if hand == best {
            reached = true;
            last_best = Some(five);
        }
    }
    assert!(reached);
    assert_eq!(Some(best.cards.clone()), last_best);
}

#[test]
fn seven_cards_have_21_choices() {
    assert_eq!(choices(7).len(), 21);
}

#[test]
fn best_hand_is_never_beaten_by_a_choice_of_five() {
    check_against_all_choices("Qh Qd Qs Kd Jc Tc 2c");
    check_against_all_choices("Ac As Qs Kd Jc Tc 2c");
    check_against_all_choices("2c 3d 4h 5s 7c 8d 9h");
    check_against_all_choices("2c 3c 4c 5c 6c 7c 8c");
    check_against_all_choices("Ac Ad Ah As Kc Kd Kh");
    check_against_all_choices("Ac 2d 3h 4s 5c 6d 7h");
    check_against_all_choices("Ac Kc Qc Jc Tc 9c 8c");
    check_against_all_choices("2c 2d 3h 3s 4c 4d 5h");
    check_against_all_choices("9c 9d 9h 5s 5c 5d Kh");
    check_against_all_choices("Ac Ad 7h 7s 3c 3d Kh");
}

#[test]
fn best_hand_of_five_six_and_eight_cards() {
    check_against_all_choices("Qh Qd Qs Kd Jc");
    check_against_all_choices("Qh Qd Qs Kd Jc Kc");
    check_against_all_choices("Qh Qd Qs Kd Jc Tc 2c 9c");
}

#[test]
fn best_hand_values() {
    let trips = best_hand(&cards_of("Qh Qd Qs Kd Jc Tc 2c"));
    assert_eq!(trips.hand_type, HandType::ThreeOfAKind);
    assert_eq!(trips.level, 4);
    assert_eq!(trips.score, 11 + 13 * 16 + 12 * 256);
    assert_eq!(trips.cards, cards_of("Qh Qd Qs Kd Jc"));

    let straight = best_hand(&cards_of("Ac As Qs Kd Jc Tc 2c"));
    assert_eq!(straight.hand_type, HandType::Straight);
    assert_eq!(straight.score, 10);
    // Both aces make the straight: the later choice of positions is kept.
    assert_eq!(straight.cards, cards_of("As Qs Kd Jc Tc"));

    let full = best_hand(&cards_of("Qh Qd Qs Kd Jc Tc Kc"));
    assert_eq!(full.hand_type, HandType::FullHouse);
    assert_eq!(full.score, 13 + 12 * 16);

    let flush = best_hand(&cards_of("2c 9c 4c Kd Jc Tc Kc"));
    assert_eq!(flush.hand_type, HandType::Flush);
    assert_eq!(flush.score, 4 + 9 * 16 + 10 * 256 + 11 * 4096 + 13 * 65536);
}
