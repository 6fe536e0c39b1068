use gto_solver::dcfr::private_card_deals;
use gto_solver::leduc::game::{BET_CALL, CHECK_PASS, FOLD, RAISE};
use gto_solver::leduc::infoset::key;
use gto_solver::leduc::{LeducCard, LeducDeck, LeducState};

#[test]
fn deck_holds_two_of_each() {
    assert_eq!(
        LeducDeck::cards(),
        [
            LeducCard::Jack,
            LeducCard::Jack,
            LeducCard::Queen,
            LeducCard::Queen,
            LeducCard::King,
            LeducCard::King
        ]
    );
    let mut deck = LeducDeck::new();
    assert_eq!(deck.deal(), Some(LeducCard::King));
    let mut dealt = 1;
    while deck.deal().is_some() {
        dealt += 1;
    }
    assert_eq!(dealt, 6);
    assert_eq!(deck.deal(), None);
}

#[test]
fn leduc_shuffle_keeps_the_cards() {
    let mut deck = LeducDeck::new();
    deck.shuffle();
    let mut cards = Vec::new();
    while let Some(card) = deck.deal() {
        cards.push(card);
    }
    cards.sort();
    assert_eq!(cards, LeducDeck::cards().to_vec());
    let mut reordered = false;
    for _ in 0..20 {
        let mut deck = LeducDeck::new();
        deck.shuffle();
        let mut order = Vec::new();
        while let Some(card) = deck.deal() {
            order.push(card);
        }
        order.reverse();
        if order != LeducDeck::cards().to_vec() {
            reordered = true;
        }
    }
    assert!(reordered);
    assert_eq!(LeducCard::Queen.to_string(), "Q");
    assert_eq!(LeducCard::King.value(), 3);
}

#[test]
fn thirty_private_deals() {
    let deals = private_card_deals();
    assert_eq!(deals.len(), 30);
    assert_eq!(deals[0], [LeducCard::Jack, LeducCard::Jack]);
    assert_eq!(deals[1], [LeducCard::Jack, LeducCard::Queen]);
    assert_eq!(deals[29], [LeducCard::King, LeducCard::King]);
    let jack_king = deals.iter().filter(|d| **d == [LeducCard::Jack, LeducCard::King]).count();
    assert_eq!(jack_king, 4);
}

#[test]
fn new_hand_and_first_actions() {
    let state = LeducState::new([LeducCard::King, LeducCard::Jack]);
    assert_eq!(state.pot, 2);
    assert_eq!(state.stacks, [-1, -1]);
    assert_eq!(state.current_player(), 0);
    assert!(!state.is_terminal());
    assert_eq!(state.legal_actions(), vec![CHECK_PASS, BET_CALL]);
}

#[test]
fn betting_round_and_second_round() {
    let mut state = LeducState::new([LeducCard::King, LeducCard::Jack]);
    state.apply_action(BET_CALL);
    assert_eq!(state.pot, 4);
    assert_eq!(state.stacks, [-3, -1]);
    assert_eq!(state.legal_actions(), vec![BET_CALL, RAISE, FOLD]);
    state.apply_action(RAISE);
    // Call 2 and raise 2.
    assert_eq!(state.pot, 8);
    assert_eq!(state.stacks, [-3, -5]);
    assert_eq!(state.legal_actions(), vec![BET_CALL, FOLD]);
    // A second raise is not allowed and changes nothing.
    state.apply_action(RAISE);
    assert_eq!(state.pot, 8);
    state.apply_action(BET_CALL);
    assert_eq!(state.pot, 12);
    assert_eq!(state.stacks, [-7, -5]);
    assert_eq!(state.round, 1);
    // The second round waits for the community card.
    assert!(state.legal_actions().is_empty());
    assert_eq!(state.remaining_community_cards(), vec![LeducCard::Jack, LeducCard::Queen, LeducCard::Queen, LeducCard::King]);
    state.community = Some(LeducCard::Jack);
    assert_eq!(state.legal_actions(), vec![CHECK_PASS, BET_CALL]);
    assert_eq!(state.current_player(), 0);
    state.apply_action(CHECK_PASS);
    state.apply_action(BET_CALL);
    assert_eq!(state.pot, 16);
    state.apply_action(BET_CALL);
    assert!(state.is_terminal());
    assert_eq!(state.pot, 20);
    // The jack pairs with the community card and beats the king.
    assert_eq!(state.payoff(1), 11);
    assert_eq!(state.payoff(0), -11);
    assert_eq!(key(&state, 0), "K|J|121011");
}

#[test]
fn fold_gives_the_pot_to_the_other_player() {
    let mut state = LeducState::new([LeducCard::Queen, LeducCard::Queen]);
    state.apply_action(BET_CALL);
    state.apply_action(FOLD);
    assert!(state.is_terminal());
    assert_eq!(state.payoff(0), 1);
    assert_eq!(state.payoff(1), -1);
    assert!(state.legal_actions().is_empty());
    assert_eq!(key(&state, 1), "Q|-|13");
}

#[test]
fn showdown_tie_returns_nothing() {
    let mut state = LeducState::new([LeducCard::Queen, LeducCard::Queen]);
    state.apply_action(CHECK_PASS);
    state.apply_action(CHECK_PASS);
    assert_eq!(state.round, 1);
    state.community = Some(LeducCard::King);
    state.apply_action(CHECK_PASS);
    state.apply_action(CHECK_PASS);
    assert!(state.is_terminal());
    assert_eq!(state.payoff(0), 0);
    assert_eq!(state.payoff(1), 0);
    assert_eq!(state.remaining_community_cards(), vec![LeducCard::Jack, LeducCard::Jack, LeducCard::King]);
    assert_eq!(key(&state, 0), "Q|K|0000");
}

#[test]
fn dealing_the_community_card_opens_the_second_round() {
    let mut s = LeducState::new([LeducCard::King, LeducCard::Jack]);
    s.apply_action(BET_CALL);
    s.apply_action(BET_CALL);
    assert_eq!(s.history, vec![1, 1]);
    assert_eq!(s.pot, 6);
    assert_eq!(s.stacks, [-3, -3]);
    assert_eq!(s.round, 1);
    assert_eq!(s.current_player(), 0);
    assert!(!s.is_terminal());
    assert!(s.legal_actions().is_empty());
    s.deal_community(LeducCard::Queen);
    assert_eq!(s.community, Some(LeducCard::Queen));
    s.apply_action(BET_CALL);
    assert_eq!(s.pot, 10);
    assert_eq!(s.stacks, [-7, -3]);
    assert_eq!(s.current_player(), 1);
}

#[test]
fn keys_before_and_after_the_community_card() {
    let mut s = LeducState::new([LeducCard::Jack, LeducCard::King]);
    assert_eq!(key(&s, 0), "J|-|");
    assert_eq!(key(&s, 1), "K|-|");
    s.apply_action(BET_CALL);
    s.apply_action(BET_CALL);
    s.deal_community(LeducCard::Queen);
    assert_eq!(key(&s, 0), "J|Q|11");
    assert_eq!(key(&s, 1), "K|Q|11");
}
