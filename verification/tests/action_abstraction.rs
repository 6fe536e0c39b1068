use gto_solver::action_abstraction::{bet_amount, discretize_bet, BetSize, STANDARD_BET_SIZES};

#[test]
fn exact_half_pot_maps_to_50() {
    assert_eq!(discretize_bet(50, 100), BetSize::BetFraction(50));
}

#[test]
fn sixty_percent_maps_to_nearest_standard_size() {
    assert_eq!(discretize_bet(60, 100), BetSize::BetFraction(50));
}

#[test]
fn zero_bet_maps_to_check() {
    assert_eq!(discretize_bet(0, 500), BetSize::Check);
}

#[test]
fn empty_pot_maps_to_smallest_size() {
    assert_eq!(discretize_bet(100, 0), BetSize::BetFraction(25));
    assert_eq!(discretize_bet(100, -5), BetSize::BetFraction(25));
}

#[test]
fn tie_between_sizes_takes_the_smaller() {
    // 29% of the pot is 4 away from both 25 and 33.
    assert_eq!(discretize_bet(29, 100), BetSize::BetFraction(25));
    // 125% is 25 away from both 100 and 150.
    assert_eq!(discretize_bet(125, 100), BetSize::BetFraction(100));
}

#[test]
fn huge_and_negative_bets_map_to_the_ends() {
    assert_eq!(discretize_bet(1_000, 100), BetSize::BetFraction(150));
    assert_eq!(discretize_bet(-50, 100), BetSize::BetFraction(25));
    // 2/3 of a pot truncates to 66 percent, nearest to 75.
    assert_eq!(discretize_bet(2, 3), BetSize::BetFraction(75));
}

#[test]
fn bet_amount_is_a_share_of_the_pot() {
    assert_eq!(bet_amount(50, 100), 50);
    assert_eq!(bet_amount(33, 100), 33);
    assert_eq!(bet_amount(150, 1_000), 1_500);
    assert_eq!(bet_amount(33, 10), 3);
    assert_eq!(bet_amount(33, -10), -3);
    assert_eq!(STANDARD_BET_SIZES, [25, 33, 50, 75, 100, 150]);
}

#[test]
fn standard_sizes_survive_the_round_trip() {
    for pot in [100i64, 101, 137, 999, 12_345, 1_000_000] {
        for size in STANDARD_BET_SIZES {
            assert_eq!(discretize_bet(bet_amount(size, pot), pot), BetSize::BetFraction(size));
        }
    }
}
