use gto_solver::action_abstraction::BetSize;
use gto_solver::nlhe::NLHEState;
use rand::SeedableRng;

#[test]
fn new_random_posts_blinds() {
    let mut rng = rand::rngs::StdRng::seed_from_u64(1);
    let state = NLHEState::new_random(&mut rng);

    assert_eq!(state.street, 0);
    assert_eq!(state.pot, 150);
    assert_eq!(state.stacks, [9_950, 9_900]);
    assert_eq!(state.current_player(), 0);
}

#[test]
fn fold_ends_hand() {
    let mut rng = rand::rngs::StdRng::seed_from_u64(2);
    let mut state = NLHEState::new_random(&mut rng);
    state.apply_action(BetSize::Fold);

    assert!(state.is_terminal());
    assert_eq!(state.payoff(), [-50, 50]);
}

#[test]
fn random_deal_uses_distinct_cards() {
    let mut rng = rand::rngs::StdRng::seed_from_u64(7);
    let state = NLHEState::new_random(&mut rng);
    let mut cards = vec![
        state.hole_cards[0][0],
        state.hole_cards[0][1],
        state.hole_cards[1][0],
        state.hole_cards[1][1],
    ];
    cards.extend_from_slice(&state.board);
    assert!(cards.iter().all(|&c| c < 52));
    // The deck was shuffled: the unshuffled deck would deal 0..9 in order.
    assert_ne!(cards, vec![0, 2, 1, 3, 4, 5, 6, 7, 8]);
    cards.sort();
    cards.dedup();
    assert_eq!(cards.len(), 9);
}

fn fixed_hand() -> NLHEState {
    // Player 0: two aces; player 1: two kings; a dry board.
    let deck = [48, 44, 49, 45, 0, 9, 18, 27, 32];
    NLHEState::from_deck(&deck)
}

#[test]
fn from_deck_deals_alternately() {
    let state = fixed_hand();
    assert_eq!(state.hole_cards, [[48, 49], [44, 45]]);
    assert_eq!(state.board, [0, 9, 18, 27, 32]);
    assert_eq!(state.player_bets, [50, 100]);
    assert_eq!(state.current_bet, 100);
}

#[test]
fn legal_actions_follow_the_bet() {
    let mut state = fixed_hand();
    let facing = state.legal_actions();
    assert_eq!(facing.len(), 8);
    assert_eq!(facing[0], BetSize::Fold);
    assert_eq!(facing[1], BetSize::Call);
    assert_eq!(facing[2], BetSize::BetFraction(25));
    state.apply_action(BetSize::Call);
    // The big blind may now check.
    assert_eq!(state.current_player(), 1);
    let options = state.legal_actions();
    assert_eq!(options[0], BetSize::Check);
    assert_eq!(options.len(), 7);
}

#[test]
fn check_down_to_showdown() {
    let mut state = fixed_hand();
    state.apply_action(BetSize::Call);
    state.apply_action(BetSize::Check);
    assert_eq!(state.street, 1);
    assert_eq!(state.pot, 200);
    for _ in 0..3 {
        state.apply_action(BetSize::Check);
        state.apply_action(BetSize::Check);
    }
    assert!(state.is_terminal());
    assert_eq!(state.street, 3);
    // Aces beat kings.
    assert_eq!(state.payoff(), [100, -100]);
    // A finished hand ignores further actions.
    state.apply_action(BetSize::Call);
    assert_eq!(state.pot, 200);
    assert!(state.legal_actions().is_empty());
}

#[test]
fn bet_and_checking_against_it_folds() {
    let mut state = fixed_hand();
    // A half-pot raise: call 50 plus the larger of 75 (half of 150) and the big
    // blind, total 150.
    state.apply_action(BetSize::BetFraction(50));
    assert_eq!(state.pot, 300);
    assert_eq!(state.stacks, [9_800, 9_900]);
    assert_eq!(state.current_bet, 200);
    assert_eq!(state.current_player(), 1);
    state.apply_action(BetSize::Check);
    assert!(state.is_terminal());
    assert_eq!(state.folded, Some(1));
    assert_eq!(state.payoff(), [100, -100]);
}

#[test]
fn split_pot_on_equal_hands() {
    // Both players hold an ace and a king; the board plays a queen-high run.
    let deck = [48, 49, 44, 45, 42, 39, 34, 1, 6];
    let mut state = NLHEState::from_deck(&deck);
    state.apply_action(BetSize::Call);
    for _ in 0..4 {
        state.apply_action(BetSize::Check);
        state.apply_action(BetSize::Check);
    }
    assert!(state.is_terminal());
    let payoff = state.payoff();
    assert_eq!(payoff, [0, 0]);
    assert_eq!(payoff[0] + payoff[1], 0);
}

#[test]
fn raising_until_all_in_keeps_chips() {
    let mut state = fixed_hand();
    let mut steps = 0;
    while !state.is_terminal() && steps < 200 {
        let actions = state.legal_actions();
        let action = if actions.contains(&BetSize::BetFraction(150)) {
            BetSize::BetFraction(150)
        } else if actions.contains(&BetSize::Call) {
            BetSize::Call
        } else {
            BetSize::Check
        };
        state.apply_action(action);
        assert!(state.stacks[0] >= 0 && state.stacks[1] >= 0);
        assert_eq!(state.pot + state.stacks[0] + state.stacks[1], 20_000);
        steps += 1;
    }
    assert!(state.is_terminal());
    assert_eq!(state.stacks, [0, 0]);
    assert_eq!(state.pot, 20_000);
    let payoff = state.payoff();
    assert_eq!(payoff[0] + payoff[1], 0);
    assert_eq!(payoff, [10_000, -10_000]);
}

#[test]
fn fold_needs_no_seat_in_range() {
    let mut state = fixed_hand();
    state.to_act = 5;
    state.apply_action(BetSize::Fold);
    assert!(state.is_terminal());
    assert_eq!(state.folded, Some(5));
    assert_eq!(state.pot, 150);
    assert_eq!(state.stacks, [9_950, 9_900]);
    assert_eq!(state.player_bets, [50, 100]);
}

#[test]
fn check_facing_a_bet_folds() {
    let mut state = fixed_hand();
    state.apply_action(BetSize::Check);
    assert!(state.is_terminal());
    assert_eq!(state.folded, Some(0));
    assert_eq!(state.pot, 150);
    assert_eq!(state.payoff(), [-50, 50]);
}
