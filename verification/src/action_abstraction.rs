use vstd::prelude::*;

verus! {

/// An action of the betting abstraction: a bet is a percentage of the pot.
#[derive(Debug, Clone, PartialEq, Eq, Structural)]
pub enum BetSize {
    Fold,
    Check,
    Call,
    BetFraction(u8),
}

/// The bet sizes of the abstraction, in percent of the pot, smallest first.
pub const STANDARD_BET_SIZES: [u8; 6] = [25, 33, 50, 75, 100, 150];

/// The `i`-th standard bet size.
pub open spec fn standard_size(i: int) -> u8 {
    if i == 0 {
        25
    } else if i == 1 {
        33
    } else if i == 2 {
        50
    } else if i == 3 {
        75
    } else if i == 4 {
        100
    } else {
        150
    }
}

/// Division rounded toward zero, as Rust divides integers.
pub open spec fn trunc_div(a: int, b: int) -> int {
    if a >= 0 {
        a / b
    } else {
        -((-a) / b)
    }
}

/// The distance between a percentage of the pot and a bet size.
pub open spec fn size_distance(fraction: int, size: u8) -> int {
    if fraction - size < 0 {
        size - fraction
    } else {
        fraction - size
    }
}

/// The size nearest to `fraction` among the first `n` standard sizes; on a tie
/// the earlier (smaller) size.
pub open spec fn nearest_size_among(fraction: int, n: int) -> u8
    decreases n,
{
    if n <= 1 {
        standard_size(0)
    } else {
        let best = nearest_size_among(fraction, n - 1);
        if size_distance(fraction, standard_size(n - 1)) < size_distance(fraction, best) {
            standard_size(n - 1)
        } else {
            best
        }
    }
}

/// The bet, in percent of the pot and rounded toward zero.
pub open spec fn pot_fraction(bet_amount: int, pot_size: int) -> int {
    trunc_div(bet_amount * 100, pot_size)
}

/// What `discretize_bet` makes of a bet.
pub open spec fn discretized(bet_amount: int, pot_size: int) -> BetSize {
    if bet_amount == 0 {
        BetSize::Check
    } else if pot_size <= 0 {
        BetSize::BetFraction(standard_size(0))
    } else {
        BetSize::BetFraction(nearest_size_among(pot_fraction(bet_amount, pot_size), 6))
    }
}

/// Maps a bet to the standard size nearest to its share of the pot (the smaller
/// size on a tie). No bet is a check; against an empty pot any bet is the
/// smallest size.
pub fn discretize_bet(bet_amount: i64, pot_size: i64) -> (r: BetSize)
    requires
        bet_amount != 0 && pot_size > 0 ==> i64::MIN <= bet_amount * 100 <= i64::MAX
            && pot_fraction(bet_amount as int, pot_size as int) > i64::MIN + 150,
    ensures
        r == discretized(bet_amount as int, pot_size as int),
{
    if bet_amount == 0 {
        return BetSize::Check;
    }
    if pot_size <= 0 {
        return BetSize::BetFraction(STANDARD_BET_SIZES[0]);
    }
    let fraction = bet_amount * 100 / pot_size;
    assert(fraction == pot_fraction(bet_amount as int, pot_size as int));
    let mut best = STANDARD_BET_SIZES[0];
    let first = fraction - best as i64;
    let mut best_distance = if first < 0 {
        -first
    } else {
        first
    };
    let mut i: usize = 1;
    while i < 6
        invariant
            1 <= i <= 6,
            fraction > i64::MIN + 150,
            best == nearest_size_among(fraction as int, i as int),
            best_distance == size_distance(fraction as int, best),
        decreases 6 - i,
    {
        let size = STANDARD_BET_SIZES[i];
        assert(size == standard_size(i as int));
        let difference = fraction - size as i64;
        let distance = if difference < 0 {
            -difference
        } else {
            difference
        };
        if distance < best_distance {
            best = size;
            best_distance = distance;
        }
        i = i + 1;
    }
    BetSize::BetFraction(best)
}

/// The chips of a bet of `fraction_pct` percent of the pot, rounded toward zero.
pub fn bet_amount(fraction_pct: u8, pot_size: i64) -> (r: i64)
    requires
        i64::MIN <= pot_size * fraction_pct <= i64::MAX,
    ensures
        r == trunc_div(pot_size * fraction_pct, 100),
{
    pot_size * fraction_pct as i64 / 100
}

/// A bet of a standard size of the pot maps back to that size, for pots of at
/// least 100 chips (below that, rounding the bet to whole chips can move it to a
/// neighbouring size), and the round trip stays within the machine's integers.
pub proof fn lemma_standard_size_round_trip(i: int, pot: int)
    requires
        0 <= i < 6,
        100 <= pot <= i64::MAX / 150,
    ensures
        ({
            let bet = trunc_div(pot * standard_size(i), 100);
            &&& i64::MIN <= pot * standard_size(i) <= i64::MAX
            &&& i64::MIN <= bet * 100 <= i64::MAX
            &&& pot_fraction(bet, pot) > i64::MIN + 150
            &&& discretized(bet, pot) == BetSize::BetFraction(standard_size(i))
        }),
{
    let size = standard_size(i) as int;
    let bet = trunc_div(pot * size, 100);
    assert(25 <= size <= 150);
    assert(0 <= pot * size <= pot * 150) by (nonlinear_arith)
        requires
            25 <= size <= 150,
            pot >= 100,
    ;
    assert(bet == (pot * size) / 100);
    assert(bet * 100 <= pot * size < bet * 100 + 100) by (nonlinear_arith)
        requires
            bet == (pot * size) / 100,
            pot * size >= 0,
    ;
    assert(bet >= 25) by (nonlinear_arith)
        requires
            bet == (pot * size) / 100,
            pot >= 100,
            size >= 25,
    ;
    let fraction = pot_fraction(bet, pot);
    assert(fraction == (bet * 100) / pot);
    assert(size - 1 <= fraction <= size) by (nonlinear_arith)
        requires
            fraction == (bet * 100) / pot,
            bet * 100 <= pot * size < bet * 100 + 100,
            pot >= 100,
            bet >= 0,
    ;
    reveal_with_fuel(nearest_size_among, 7);
    if fraction == size {
        assert(nearest_size_among(fraction, 6) == standard_size(i));
    } else {
        assert(fraction == size - 1);
        assert(nearest_size_among(fraction, 6) == standard_size(i));
    }
}

} // verus!
