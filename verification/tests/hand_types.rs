use poker_equity::cards::Card;
use poker_equity::hands::{Hand, HandType};

fn make_cards(cards_str: &str) -> Vec<Card> {
    cards_str
        .split_whitespace()
        .map(|card_str| Card::from_str(card_str))
        .collect()
}

fn make_hand(cards: &Vec<Card>) -> Hand {
    Hand::new(cards.iter().collect())
}

#[test]
fn test_hand_type_straight_flush() {
    let cards = &make_cards("Jh Th Ah Kh Qh");
    let hand = make_hand(cards);
    assert_eq!(hand.hand_type, HandType::StraightFlush);
}

#[test]
fn test_hand_type_straight_flush_low() {
    let cards = &make_cards("5d 2d Ad 3d 4d");
    let hand = make_hand(cards);
    assert_eq!(hand.hand_type, HandType::StraightFlush);
}

#[test]
fn test_hand_type_quads() {
    let cards = &make_cards("Jh Jd Js Jc 7d");
    let hand = make_hand(cards);
    assert_eq!(hand.hand_type, HandType::Quads);
}

#[test]
fn test_hand_type_full_house() {
    let cards = &make_cards("3h 2s 3c 2c 3d");
    let hand = make_hand(cards);
    assert_eq!(hand.hand_type, HandType::FullHouse);
}

#[test]
fn test_hand_type_flush() {
    let cards = &make_cards("3h 2h 4h 5h 7h");
    let hand = make_hand(cards);
    assert_eq!(hand.hand_type, HandType::Flush);
}

#[test]
fn test_hand_type_straight() {
    let cards = &make_cards("8d 7h 9d 6s Th");
    let hand = make_hand(cards);
    assert_eq!(hand.hand_type, HandType::Straight);
}

#[test]
fn test_hand_type_straight_low() {
    let cards = &make_cards("5d 2s Ah 3d 4c");
    let hand = make_hand(cards);
    assert_eq!(hand.hand_type, HandType::Straight);
}

#[test]
fn test_hand_type_three_of_a_kind() {
    let cards = &make_cards("2s 2s 3h Qs 2c");
    let hand = make_hand(cards);
    assert_eq!(hand.hand_type, HandType::ThreeOfAKind);
}

#[test]
fn test_hand_type_two_pair() {
    let cards = &make_cards("As 3c Ah Kd 3h");
    let hand = make_hand(cards);
    assert_eq!(hand.hand_type, HandType::TwoPair);
}

#[test]
fn test_hand_type_pair() {
    let cards = &make_cards("As Kc 7s Kd 9d");
    let hand = make_hand(cards);
    assert_eq!(hand.hand_type, HandType::Pair);
}

#[test]
fn test_hand_type_high_card() {
    let cards = &make_cards("2s Qh 7c Kd 8d");
    let hand = make_hand(cards);
    assert_eq!(hand.hand_type, HandType::HighCard);
}

#[test]
fn test_straight_flush_vs_straight_flush() {
    let sf_1 = &make_cards("9d Td Jd Kd Qd");
    let sf_2 = &make_cards("8s 9s Ts Js Qs");
    assert!(make_hand(sf_1) > make_hand(sf_2));
}

#[test]
fn test_straight_flush_vs_low_straight_flush() {
    let sf_1 = &make_cards("9d Td Jd Kd Qd");
    let sf_2 = &make_cards("4s 5s 3s 2s As");
    assert!(make_hand(sf_1) > make_hand(sf_2));
}

#[test]
fn test_straight_flush_vs_straight_flush_equal() {
    let sf_1 = &make_cards("2d 3d 4d 5d 6d");
    let sf_2 = &make_cards("6s 5s 4s 3s 2s");
    assert!(make_hand(sf_1) == make_hand(sf_2));
}

#[test]
fn test_straight_flush_vs_quads() {
    let sf = &make_cards("9d Td Jd Kd Qd");
    let q = &make_cards("Td Th Ts Tc Qd");
    assert!(make_hand(sf) > make_hand(q));
}

#[test]
fn test_quads_vs_quads() {
    let q_1 = &make_cards("Jd Jh Ks Jc Jd");
    let q_2 = &make_cards("Td Th Ts Tc Qd");
    assert!(make_hand(q_1) > make_hand(q_2));
}

#[test]
fn test_quads_vs_quads_kicker() {
    let q_1 = &make_cards("Jd Jh Ks Jc Jd");
    let q_2 = &make_cards("Jd Jh Qc Jc Jd");
    assert!(make_hand(q_1) > make_hand(q_2));
}

#[test]
fn test_quads_vs_quads_equal() {
    let q_1 = &make_cards("Jd Jh Ks Jc Jd");
    let q_2 = &make_cards("Jd Jh Kc Jc Jd");
    assert!(make_hand(q_1) == make_hand(q_2));
}

#[test]
fn test_flush_versus_flush_lower_cards() {
    let fl_1 = &make_cards("Ks Js Ts 7s 5s");
    let fl_2 = &make_cards("Ks Js Ts 7s 4s");
    assert!(make_hand(fl_1) > make_hand(fl_2));
}

#[test]
fn test_straight_versus_wheel_straight() {
    let q_1 = &make_cards("2c 3h 4d 5c 6d");
    let q_2 = &make_cards("Ac 2c 3h 4d 5c");
    assert!(make_hand(q_1) > make_hand(q_2));
}

#[test]
fn test_pair_vs_pair() {
    let p_1 = &make_cards("7s Js 6h 7d Qh");
    let p_2 = &make_cards("6c Js 6h 7d Ah");
    assert!(make_hand(p_1) > make_hand(p_2));
}

#[test]
fn test_pair_vs_pair_kicker() {
    let p_1 = &make_cards("6s Js Th 6d 4h");
    let p_2 = &make_cards("6c Js Th 6d 2h");
    assert!(make_hand(p_1) > make_hand(p_2));
}

#[test]
fn test_pair_vs_high_card() {
    let p = &make_cards("2c Js Ks 6d 2h");
    let hc = &make_cards("Ac Jc Ks 6d 4h");
    assert!(make_hand(p) > make_hand(hc));
}

#[test]
fn test_high_card_vs_high_card() {
    let hc_1 = &make_cards("Ac Jc Ks 6d 4h");
    let hc_2 = &make_cards("Ad Js Ks 6d 2h");
    assert!(make_hand(hc_1) > make_hand(hc_2));
}
