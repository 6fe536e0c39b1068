use gto_solver::table::{Action, Card, Deck, GameState, Hand, Position, Rank, Street, Suit};

#[test]
fn test_card_display() {
    assert_eq!(Card::new(Rank::Ace, Suit::Spade).to_string(), "As");
    assert_eq!(Card::new(Rank::King, Suit::Heart).to_string(), "Kh");
    assert_eq!(Card::new(Rank::Queen, Suit::Diamond).to_string(), "Qd");
    assert_eq!(Card::new(Rank::Two, Suit::Club).to_string(), "2c");
    assert_eq!(Card::new(Rank::Ten, Suit::Spade).to_string(), "Ts");
}

#[test]
fn test_hand_pocket_pair() {
    let hand = Hand::new(
        Card::new(Rank::Ace, Suit::Spade),
        Card::new(Rank::Ace, Suit::Heart),
    );
    assert!(hand.is_pair());
    assert!(!hand.is_suited());
    assert_eq!(hand.to_string(), "AsAh");
}

#[test]
fn test_hand_suited() {
    let hand = Hand::new(
        Card::new(Rank::Ace, Suit::Spade),
        Card::new(Rank::King, Suit::Spade),
    );
    assert!(!hand.is_pair());
    assert!(hand.is_suited());
}

#[test]
fn test_hand_offsuit() {
    let hand = Hand::new(
        Card::new(Rank::Ace, Suit::Spade),
        Card::new(Rank::King, Suit::Heart),
    );
    assert!(!hand.is_pair());
    assert!(!hand.is_suited());
}

#[test]
fn test_rank_ordering() {
    assert!(Rank::Ace > Rank::King);
    assert!(Rank::King > Rank::Queen);
    assert!(Rank::Queen > Rank::Jack);
    assert!(Rank::Jack > Rank::Ten);
    assert!(Rank::Two < Rank::Three);
}

#[test]
fn test_action_raise() {
    let mut gs = GameState::new(6, 10000);
    gs.apply_action(&Action::Raise(300), 0);
    assert_eq!(gs.pot, 300);
    assert_eq!(gs.stacks[0], 9700);
    assert_eq!(gs.stacks[1], 10000);
}

#[test]
fn test_action_allin() {
    let mut gs = GameState::new(2, 1000);
    gs.apply_action(&Action::AllIn, 0);
    assert_eq!(gs.pot, 1000);
    assert_eq!(gs.stacks[0], 0);
}

#[test]
fn test_action_raise_insufficient_stack() {
    let mut gs = GameState::new(2, 100);
    gs.apply_action(&Action::Raise(200), 0);
    assert_eq!(gs.pot, 0);
    assert_eq!(gs.stacks[0], 100);
}

#[test]
fn test_initial_gamestate() {
    let gs = GameState::new(6, 10000);
    assert_eq!(gs.street, Street::Preflop);
    assert_eq!(gs.pot, 0);
    assert_eq!(gs.stacks.len(), 6);
    assert!(gs.board.is_empty());
}

#[test]
fn test_position_display() {
    assert_eq!(Position::BTN.to_string(), "BTN");
    assert_eq!(Position::BB.to_string(), "BB");
    assert_eq!(Position::UTG.to_string(), "UTG");
}

#[test]
fn test_deck_new_has_52_cards() {
    let deck = Deck::new();
    assert_eq!(deck.remaining(), 52);
}

#[test]
fn test_deck_deal_reduces_count() {
    let mut deck = Deck::new();
    let card = deck.deal();
    assert!(card.is_some());
    assert_eq!(deck.remaining(), 51);
}

#[test]
fn test_deck_deal_all_52() {
    let mut deck = Deck::new();
    let mut dealt = Vec::new();
    while let Some(card) = deck.deal() {
        dealt.push(card);
    }
    assert_eq!(dealt.len(), 52);
    assert_eq!(deck.remaining(), 0);
    assert!(deck.deal().is_none());
}

#[test]
fn test_deck_no_duplicates() {
    let mut deck = Deck::new();
    let mut seen = std::collections::HashSet::new();
    while let Some(card) = deck.deal() {
        let key = card.to_string();
        assert!(seen.insert(key), "duplicate card in the deck");
    }
    assert_eq!(seen.len(), 52);
}

#[test]
fn test_deck_peek_does_not_consume() {
    let deck = Deck::new();
    let _ = deck.peek();
    let _ = deck.peek();
    assert_eq!(deck.remaining(), 52);
}

#[test]
fn test_deck_deal_hands_6max() {
    let mut deck = Deck::new();
    deck.shuffle();
    let hands = deck.deal_hands(6).unwrap();
    assert_eq!(hands.len(), 6);
    assert_eq!(deck.remaining(), 52 - 12);
}

#[test]
fn test_deck_deal_hands_insufficient() {
    let mut deck = Deck::new();
    while deck.remaining() > 2 {
        deck.deal();
    }
    assert!(deck.deal_hands(6).is_none());
}

#[test]
fn test_deck_shuffle_changes_order() {
    let deck_fresh = Deck::new();
    let mut deck_shuffled = Deck::new();
    deck_shuffled.shuffle();
    let fresh_order: Vec<String> = {
        let mut d = Deck::new();
        (0..52).filter_map(|_| d.deal()).map(|c| c.to_string()).collect()
    };
    let shuffled: Vec<String> = {
        let mut d = deck_shuffled;
        (0..52).filter_map(|_| d.deal()).map(|c| c.to_string()).collect()
    };
    let mut fresh_sorted = fresh_order.clone();
    let mut shuf_sorted = shuffled.clone();
    fresh_sorted.sort();
    shuf_sorted.sort();
    assert_eq!(fresh_sorted, shuf_sorted);
    let _ = deck_fresh;
}

#[test]
fn fresh_deck_order_and_peek() {
    let deck = Deck::new();
    // Clubs first, from the two up; the ace of spades is last and dealt first.
    assert_eq!(deck.peek(), Some(&Card::new(Rank::Ace, Suit::Spade)));
    let mut deck = Deck::new();
    let hands = deck.deal_hands(2).unwrap();
    assert_eq!(hands[0].cards, [Card::new(Rank::Ace, Suit::Spade), Card::new(Rank::King, Suit::Spade)]);
    assert_eq!(hands[1].cards, [Card::new(Rank::Queen, Suit::Spade), Card::new(Rank::Jack, Suit::Spade)]);
    assert_eq!(deck.remaining(), 48);
    let mut empty = Deck::new();
    while empty.deal().is_some() {}
    assert_eq!(empty.peek(), None);
}

#[test]
fn shuffling_reorders_the_deck() {
    let fresh_order: Vec<String> = {
        let mut d = Deck::new();
        (0..52).filter_map(|_| d.deal()).map(|c| c.to_string()).collect()
    };
    let mut changed = false;
    for _ in 0..5 {
        let mut d = Deck::new();
        d.shuffle();
        let order: Vec<String> = (0..52).filter_map(|_| d.deal()).map(|c| c.to_string()).collect();
        if order != fresh_order {
            changed = true;
        }
    }
    assert!(changed);
}

#[test]
fn action_names_and_chip_conservation() {
    assert_eq!(Action::Raise(300).to_string(), "Raise(300)");
    assert_eq!(Action::Raise(0).to_string(), "Raise(0)");
    assert_eq!(Action::Fold.to_string(), "Fold");
    assert_eq!(Action::AllIn.to_string(), "AllIn");
    assert_eq!(Position::SB.to_string(), "SB");
    let mut gs = GameState::new(3, 500);
    gs.apply_action(&Action::Raise(120), 1);
    gs.apply_action(&Action::Call, 2);
    gs.apply_action(&Action::AllIn, 2);
    let total: u64 = gs.stacks.iter().sum::<u64>() + gs.pot;
    assert_eq!(total, 1500);
    assert_eq!(gs.stacks, vec![500, 380, 0]);
}
