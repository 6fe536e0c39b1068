use gto_solver::hand_evaluator::{
    compare_hands, evaluate_5card, evaluate_7card, evaluate_hand_category, hand_category, HandRank,
};
use std::cmp::Ordering;
use std::time::Instant;

#[test]
fn royal_flush_beats_straight_flush() {
    let royal = [8 * 4, 9 * 4, 10 * 4, 11 * 4, 12 * 4];
    let straight_flush = [7 * 4 + 1, 8 * 4 + 1, 9 * 4 + 1, 10 * 4 + 1, 11 * 4 + 1];

    assert!(evaluate_5card(&royal) > evaluate_5card(&straight_flush));
}

#[test]
fn full_house_beats_flush() {
    let full_house = [12 * 4, 12 * 4 + 1, 12 * 4 + 2, 6 * 4, 6 * 4 + 1];
    let flush = [12 * 4 + 3, 10 * 4 + 3, 8 * 4 + 3, 5 * 4 + 3, 2 * 4 + 3];

    assert!(evaluate_5card(&full_house) > evaluate_5card(&flush));
}

#[test]
fn equal_pairs_tie() {
    let a = [12 * 4, 12 * 4 + 1, 10 * 4, 8 * 4 + 2, 3 * 4 + 1];
    let b = [12 * 4 + 2, 12 * 4 + 3, 10 * 4 + 1, 8 * 4 + 3, 3 * 4 + 2];

    assert_eq!(compare_hands(evaluate_5card(&a), evaluate_5card(&b)), Ordering::Equal);
}

#[test]
fn evaluate_7card_one_million_under_two_seconds() {
    let cards = [12 * 4, 12 * 4 + 1, 11 * 4, 10 * 4, 9 * 4, 8 * 4, 2 * 4 + 3];
    let start = Instant::now();
    let mut result = HandRank::HighCard(0);

    for _ in 0..1_000_000 {
        result = evaluate_7card(std::hint::black_box(&cards));
    }

    assert_eq!(result, HandRank::StraightFlush(12));
    assert!(
        start.elapsed().as_secs_f64() < 2.0,
        "1M evaluate_7card calls took {:?}",
        start.elapsed()
    );
}

fn card(rank: u8, suit: u8) -> u8 {
    rank * 4 + suit
}

#[test]
fn five_card_values_are_packed_in_base_13() {
    // Four aces with a king: 12 * 13 + 11.
    let quads = [card(12, 0), card(12, 1), card(12, 2), card(12, 3), card(11, 0)];
    assert_eq!(evaluate_5card(&quads), HandRank::FourOfAKind(12 * 13 + 11));
    // Kings full of twos.
    let full = [card(11, 0), card(11, 1), card(11, 2), card(0, 0), card(0, 1)];
    assert_eq!(evaluate_5card(&full), HandRank::FullHouse(11 * 13));
    // The wheel: five high.
    let wheel = [card(12, 0), card(0, 1), card(1, 2), card(2, 3), card(3, 0)];
    assert_eq!(evaluate_5card(&wheel), HandRank::Straight(3));
    // A flush is valued by all ranks, highest first.
    let flush = [card(2, 1), card(9, 1), card(4, 1), card(12, 1), card(7, 1)];
    let packed = (((12 * 13 + 9) * 13 + 7) * 13 + 4) * 13 + 2;
    assert_eq!(evaluate_5card(&flush), HandRank::Flush(packed));
    // Trips with two kickers.
    let trips = [card(5, 0), card(5, 1), card(5, 2), card(9, 0), card(1, 3)];
    assert_eq!(evaluate_5card(&trips), HandRank::ThreeOfAKind((5 * 13 + 9) * 13 + 1));
    // Two pair with a kicker.
    let two_pair = [card(5, 0), card(5, 1), card(9, 2), card(9, 0), card(1, 3)];
    assert_eq!(evaluate_5card(&two_pair), HandRank::TwoPair((9 * 13 + 5) * 13 + 1));
    // High card.
    let high = [card(0, 0), card(3, 1), card(5, 2), card(9, 0), card(11, 3)];
    let packed = (((11 * 13 + 9) * 13 + 5) * 13 + 3) * 13;
    assert_eq!(evaluate_5card(&high), HandRank::HighCard(packed));
}

#[test]
fn card_order_does_not_matter() {
    let a = [card(5, 0), card(5, 1), card(9, 2), card(9, 0), card(1, 3)];
    let b = [card(9, 0), card(1, 3), card(5, 1), card(9, 2), card(5, 0)];
    assert_eq!(evaluate_5card(&a), evaluate_5card(&b));
    let c = [card(12, 0), card(12, 1), card(11, 0), card(10, 0), card(9, 0), card(8, 0), card(2, 3)];
    let d = [card(2, 3), card(8, 0), card(12, 1), card(9, 0), card(10, 0), card(11, 0), card(12, 0)];
    assert_eq!(evaluate_7card(&c), evaluate_7card(&d));
}

#[test]
fn seven_card_categories() {
    // Four of a kind takes the best kicker among the other three cards.
    let quads = [card(3, 0), card(3, 1), card(3, 2), card(3, 3), card(7, 0), card(7, 1), card(10, 2)];
    assert_eq!(evaluate_7card(&quads), HandRank::FourOfAKind(3 * 13 + 10));
    // Two sets make a full house with the lower set as the pair.
    let two_sets = [card(4, 0), card(4, 1), card(4, 2), card(8, 0), card(8, 1), card(8, 2), card(0, 3)];
    assert_eq!(evaluate_7card(&two_sets), HandRank::FullHouse(8 * 13 + 4));
    // A flush keeps the five highest cards of its suit.
    let flush = [card(0, 2), card(3, 2), card(5, 2), card(7, 2), card(9, 2), card(11, 2), card(12, 0)];
    let packed = (((11 * 13 + 9) * 13 + 7) * 13 + 5) * 13 + 3;
    assert_eq!(evaluate_7card(&flush), HandRank::Flush(packed));
    // A straight beats three of a kind.
    let straight = [card(4, 0), card(5, 1), card(6, 2), card(7, 3), card(8, 0), card(8, 1), card(8, 2)];
    assert_eq!(evaluate_7card(&straight), HandRank::Straight(8));
    // Three pairs: the two best pairs and the best remaining card.
    let three_pairs = [card(1, 0), card(1, 1), card(6, 2), card(6, 3), card(9, 0), card(9, 1), card(4, 2)];
    assert_eq!(evaluate_7card(&three_pairs), HandRank::TwoPair((9 * 13 + 6) * 13 + 4));
    // One pair with three kickers.
    let pair = [card(1, 0), card(1, 1), card(6, 2), card(10, 3), card(9, 0), card(3, 1), card(4, 2)];
    assert_eq!(evaluate_7card(&pair), HandRank::OnePair(((1 * 13 + 10) * 13 + 9) * 13 + 6));
    // High card: the five best ranks.
    let high = [card(0, 0), card(2, 1), card(6, 2), card(10, 3), card(9, 0), card(3, 1), card(4, 2)];
    let packed = (((10 * 13 + 9) * 13 + 6) * 13 + 4) * 13 + 3;
    assert_eq!(evaluate_7card(&high), HandRank::HighCard(packed));
    // Trips with two kickers.
    let trips = [card(7, 0), card(7, 1), card(7, 2), card(0, 3), card(11, 0), card(3, 1), card(5, 2)];
    assert_eq!(evaluate_7card(&trips), HandRank::ThreeOfAKind((7 * 13 + 11) * 13 + 5));
    // A wheel straight flush.
    let wheel = [card(12, 1), card(0, 1), card(1, 1), card(2, 1), card(3, 1), card(9, 0), card(9, 2)];
    assert_eq!(evaluate_7card(&wheel), HandRank::StraightFlush(3));
}

#[test]
fn compare_orders_by_category_then_value() {
    assert_eq!(compare_hands(HandRank::OnePair(1), HandRank::HighCard(1000)), Ordering::Greater);
    assert_eq!(compare_hands(HandRank::Flush(5), HandRank::Flush(6)), Ordering::Less);
    assert_eq!(compare_hands(HandRank::Straight(6), HandRank::Straight(6)), Ordering::Equal);
    assert_eq!(compare_hands(HandRank::StraightFlush(3), HandRank::FourOfAKind(200)), Ordering::Greater);
    assert_eq!(hand_category(HandRank::FullHouse(0)), 6);
}

#[test]
fn hand_category_needs_seven_cards() {
    assert_eq!(evaluate_hand_category(&[1, 2, 3]), None);
    let cards = [12 * 4, 12 * 4 + 1, 11 * 4, 10 * 4, 9 * 4, 8 * 4, 2 * 4 + 3];
    assert_eq!(evaluate_hand_category(&cards), Some(8));
    let pair = [card(1, 0), card(1, 1), card(6, 2), card(10, 3), card(9, 0), card(3, 1), card(4, 2)];
    assert_eq!(evaluate_hand_category(&pair), Some(1));
}

#[test]
fn seven_cards_take_the_best_five() {
    let mut seed: u64 = 0x2545_f491_4f6c_dd1d;
    for _ in 0..20_000 {
        let mut deck: Vec<u8> = (0..52).collect();
        for i in (1..52usize).rev() {
            seed ^= seed << 13;
            seed ^= seed >> 7;
            seed ^= seed << 17;
            let j = (seed % (i as u64 + 1)) as usize;
            deck.swap(i, j);
        }
        let seven = [deck[0], deck[1], deck[2], deck[3], deck[4], deck[5], deck[6]];
        let mut best: Option<HandRank> = None;
        for a in 0..7 {
            for b in (a + 1)..7 {
                let five: Vec<u8> = (0..7).filter(|&k| k != a && k != b).map(|k| seven[k]).collect();
                let rank = evaluate_5card(&[five[0], five[1], five[2], five[3], five[4]]);
                if best.map_or(true, |current| rank > current) {
                    best = Some(rank);
                }
            }
        }
        assert_eq!(evaluate_7card(&seven), best.unwrap(), "hand {:?}", seven);
    }
}

#[test]
fn compare_hands_agrees_with_the_derived_order() {
    let hands = [
        HandRank::HighCard(5),
        HandRank::HighCard(9),
        HandRank::OnePair(0),
        HandRank::TwoPair(40),
        HandRank::ThreeOfAKind(3),
        HandRank::Straight(12),
        HandRank::Flush(1),
        HandRank::FullHouse(100),
        HandRank::FourOfAKind(7),
        HandRank::StraightFlush(3),
        HandRank::StraightFlush(12),
    ];
    for a in hands {
        for b in hands {
            assert_eq!(compare_hands(a, b), a.cmp(&b));
        }
    }
}
