use poker_equity::cards::Card;
use poker_equity::hands::{
    all_same_suit, get_groupings_and_score, get_hand_type_level_and_score, straight_score, Hand,
    HandType,
};

fn cards_of(text: &str) -> Vec<Card> {
    text.split_whitespace().map(|token| Card::from_str(token)).collect()
}

fn hand_of(cards: Vec<Card>) -> Hand {
    Hand::new(cards.iter().collect())
}

fn rate(text: &str) -> Option<(HandType, u8, u64)> {
    get_hand_type_level_and_score(&cards_of(text))
}

#[test]
fn levels_and_scores_of_every_kind() {
    assert_eq!(rate("Jh Th Ah Kh Qh"), Some((HandType::StraightFlush, 9, 10)));
    assert_eq!(rate("5d 2d Ad 3d 4d"), Some((HandType::StraightFlush, 9, 1)));
    assert_eq!(rate("Jh Jd Js Jc 7d"), Some((HandType::Quads, 8, 183)));
    assert_eq!(rate("3h 2s 3c 2c 3d"), Some((HandType::FullHouse, 7, 50)));
    assert_eq!(rate("3h 2h 4h 5h 7h"), Some((HandType::Flush, 6, 480306)));
    assert_eq!(rate("8d 7h 9d 6s Th"), Some((HandType::Straight, 5, 6)));
    assert_eq!(rate("5d 2s Ah 3d 4c"), Some((HandType::Straight, 5, 1)));
    assert_eq!(rate("2s 2d 3h Qs 2c"), Some((HandType::ThreeOfAKind, 4, 707)));
    assert_eq!(rate("As 3c Ah Kd 3h"), Some((HandType::TwoPair, 3, 3645)));
    assert_eq!(rate("As Kc 7s Kd 9d"), Some((HandType::Pair, 2, 56983)));
    assert_eq!(rate("2s Qh 7c Kd 8d"), Some((HandType::HighCard, 1, 903282)));
}

#[test]
fn level_boundaries() {
    // The weakest hand of each kind beats the strongest of the kind below.
    let ladder = [
        ("2c 3d 4h 5s 7c", "Ac Kd Qh Js 9c"),
        ("2c 2d 3h 4s 5c", "Ac Ad Kh Qs Jc"),
        ("2c 2d 3h 3s 4c", "Ac Ad Kh Ks Qc"),
        ("2c 2d 2h 3s 4c", "Ac Ad Ah Ks Qc"),
        ("Ac 2d 3h 4s 5c", "Tc Jd Qh Ks Ac"),
        ("2c 3c 4c 5c 7c", "Ac Kc Qc Jc 9c"),
        ("2c 2d 2h 3s 3c", "Ac Ad Ah Ks Kc"),
        ("2c 2d 2h 2s 3c", "Ac Ad Ah As Kc"),
        ("Ac 2c 3c 4c 5c", "Tc Jc Qc Kc Ac"),
    ];
    for level in 0..ladder.len() {
        let weakest = hand_of(cards_of(ladder[level].0));
        let strongest = hand_of(cards_of(ladder[level].1));
        assert_eq!(weakest.level as usize, level + 1);
        assert_eq!(strongest.level as usize, level + 1);
        assert_eq!(weakest.hand_type, strongest.hand_type);
        assert!(weakest < strongest);
        if level > 0 {
            let below = hand_of(cards_of(ladder[level - 1].1));
            assert!(weakest > below);
            assert!(below < weakest);
        }
    }
}

#[test]
fn hand_keeps_its_cards() {
    let cards = cards_of("As Kc 7s Kd 9d");
    let hand = hand_of(cards.clone());
    assert_eq!(hand.cards, cards);
    assert_eq!(hand.hand_type, HandType::Pair);
    assert_eq!(hand.level, 2);
    assert_eq!(hand.score, 56983);
}

#[test]
fn evaluate_gives_what_new_gives() {
    let hand = Hand::evaluate(cards_of("Jh Jd Js Jc 7d")).unwrap();
    assert_eq!(hand.hand_type, HandType::Quads);
    assert_eq!(hand.level, 8);
    assert_eq!(hand.score, 183);
}

#[test]
fn evaluate_refuses_what_has_no_rating() {
    assert!(Hand::evaluate(cards_of("")).is_none());
    assert!(Hand::evaluate(cards_of("Jh Jd Js Jc")).is_none());
    assert!(Hand::evaluate(cards_of("Jh Jd Js Jc 7d 8d")).is_none());
    // five of a kind
    assert!(Hand::evaluate(cards_of("Jd Jd Jd Jd Jd")).is_none());
    // one suit with a rank twice
    assert!(Hand::evaluate(cards_of("Jd Jd 2d 3d 4d")).is_none());
    assert!(Hand::evaluate(cards_of("Jd Jd Jd Jd Kd")).is_none());
    assert!(Hand::evaluate(cards_of("Jd Jd Jd Kd Kd")).is_none());
    assert!(Hand::evaluate(cards_of("Jd Jd Kd Kd 2d")).is_none());
    assert!(Hand::evaluate(cards_of("Jd Jd Jd 3d 2d")).is_none());
}

#[test]
fn rating_does_not_depend_on_the_order() {
    let orders = [
        "As Kc 7s Kd 9d",
        "Kc As 7s Kd 9d",
        "9d Kd 7s Kc As",
        "7s 9d As Kd Kc",
        "Kd Kc 9d 7s As",
    ];
    for order in orders {
        assert_eq!(rate(order), Some((HandType::Pair, 2, 56983)));
    }
    let wheel = ["Ac 2c 3h 4d 5c", "5c 4d 3h 2c Ac", "3h Ac 5c 2c 4d"];
    for order in wheel {
        assert_eq!(rate(order), Some((HandType::Straight, 5, 1)));
    }
}

#[test]
fn equal_hands_from_different_cards() {
    let a = hand_of(cards_of("As Kc 7s Kd 9d"));
    let b = hand_of(cards_of("Ah Kh 7d Ks 9c"));
    assert!(a == b);
    assert!(b == a);
    assert!(a == a);
    assert!(!(a < b));
    assert!(!(a > b));
    assert!(a <= b);
    assert!(a >= b);
    assert_ne!(a.cards, b.cards);
}

#[test]
fn order_is_transitive_across_kinds() {
    let hands = [
        hand_of(cards_of("2s Qh 7c Kd 8d")),
        hand_of(cards_of("As Kc 7s Kd 9d")),
        hand_of(cards_of("As 3c Ah Kd 3h")),
        hand_of(cards_of("2s 2d 3h Qs 2c")),
        hand_of(cards_of("5d 2s Ah 3d 4c")),
        hand_of(cards_of("8d 7h 9d 6s Th")),
        hand_of(cards_of("3h 2h 4h 5h 7h")),
        hand_of(cards_of("3h 2s 3c 2c 3d")),
        hand_of(cards_of("Jh Jd Js Jc 7d")),
        hand_of(cards_of("5d 2d Ad 3d 4d")),
        hand_of(cards_of("Jh Th Ah Kh Qh")),
    ];
    for i in 0..hands.len() {
        for j in 0..hands.len() {
            assert_eq!(hands[i] < hands[j], i < j);
            assert_eq!(hands[i] > hands[j], i > j);
            assert_eq!(hands[i] == hands[j], i == j);
            for k in 0..hands.len() {
                if hands[i] < hands[j] && hands[j] < hands[k] {
                    assert!(hands[i] < hands[k]);
                }
            }
        }
    }
}

#[test]
fn compare_is_three_way() {
    let low = hand_of(cards_of("2s Qh 7c Kd 8d"));
    let high = hand_of(cards_of("As Kc 7s Kd 9d"));
    let same = hand_of(cards_of("Ah Kh 7d Ks 9c"));
    assert_eq!(low.compare(&high), std::cmp::Ordering::Less);
    assert_eq!(high.compare(&low), std::cmp::Ordering::Greater);
    assert_eq!(high.compare(&same), std::cmp::Ordering::Equal);
    assert_eq!(low.partial_cmp(&high), Some(std::cmp::Ordering::Less));
}

#[test]
fn wheel_is_the_lowest_straight() {
    let wheel = hand_of(cards_of("Ac 2c 3h 4d 5c"));
    assert_eq!(wheel.hand_type, HandType::Straight);
    assert_eq!(wheel.score, 1);
    let six_high = hand_of(cards_of("2c 3h 4d 5c 6d"));
    assert_eq!(six_high.score, 2);
    assert!(wheel < six_high);
    for low in 2u8..11 {
        let suits = ["c", "h", "d", "c", "d"];
        let names = ["2", "3", "4", "5", "6", "7", "8", "9", "T", "J", "Q", "K", "A"];
        let mut text = String::new();
        for i in 0..5 {
            text.push_str(names[(low - 2) as usize + i]);
            text.push_str(suits[i]);
            text.push(' ');
        }
        let straight = hand_of(cards_of(&text));
        assert_eq!(straight.hand_type, HandType::Straight);
        assert_eq!(straight.score, low as u64);
        assert!(wheel < straight);
    }
}

#[test]
fn groupings_and_scores() {
    assert_eq!(get_groupings_and_score(&cards_of("Jh Jd Js Jc 7d")), (vec![4, 1], 183));
    assert_eq!(get_groupings_and_score(&cards_of("3h 2s 3c 2c 3d")), (vec![3, 2], 50));
    assert_eq!(get_groupings_and_score(&cards_of("2s 2d 3h Qs 2c")), (vec![3, 1, 1], 707));
    assert_eq!(get_groupings_and_score(&cards_of("As 3c Ah Kd 3h")), (vec![2, 2, 1], 3645));
    assert_eq!(get_groupings_and_score(&cards_of("As Kc 7s Kd 9d")), (vec![2, 1, 1, 1], 56983));
    assert_eq!(
        get_groupings_and_score(&cards_of("2s Qh 7c Kd 8d")),
        (vec![1, 1, 1, 1, 1], 903282)
    );
    assert_eq!(get_groupings_and_score(&cards_of("Jd Jd Jd Jd Jd")), (vec![5], 11));
    // The largest score of all: the five highest ranks.
    assert_eq!(
        get_groupings_and_score(&cards_of("Ac Kd Qh Js 9c")),
        (vec![1, 1, 1, 1, 1], 9 + 11 * 16 + 12 * 256 + 13 * 4096 + 14 * 65536)
    );
}

#[test]
fn same_suit() {
    assert!(all_same_suit(&cards_of("3h 2h 4h 5h 7h")));
    assert!(!all_same_suit(&cards_of("3h 2h 4h 5h 7d")));
    assert!(!all_same_suit(&cards_of("3c 2h 4h 5h 7h")));
    assert!(all_same_suit(&cards_of("3c")));
    assert!(all_same_suit(&cards_of("")));
}

#[test]
fn straight_scores() {
    assert_eq!(straight_score(&cards_of("8d 7h 9d 6s Th")), Some(6));
    assert_eq!(straight_score(&cards_of("Ac 2c 3h 4d 5c")), Some(1));
    assert_eq!(straight_score(&cards_of("Tc Jd Qh Ks Ac")), Some(10));
    assert_eq!(straight_score(&cards_of("2c 3h 4d 5c 6d")), Some(2));
    assert_eq!(straight_score(&cards_of("2c 3h 4d 5c 7d")), None);
    assert_eq!(straight_score(&cards_of("Kc Ah 2d 3c 4d")), None);
    assert_eq!(straight_score(&cards_of("2c 2h 3d 4c 5d")), None);
    assert_eq!(straight_score(&cards_of("2c 3h 4d 5c")), None);
    assert_eq!(straight_score(&cards_of("2c 3h 4d 5c 6d 7d")), None);
    assert_eq!(straight_score(&cards_of("")), None);
}
