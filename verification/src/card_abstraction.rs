use vstd::prelude::*;

verus! {

/// A preflop hand group and a representative hand of it.
#[derive(Debug, Clone, Copy, PartialEq, Eq)]
pub struct HandGroup {
    pub group_id: u8,
    pub hand: [u8; 2],
}

/// The sum of the ranks above `high` up to the ace (rank 12).
pub open spec fn ranks_above(high: int) -> int
    decreases 12 - high,
{
    if high >= 12 {
        0
    } else {
        ranks_above(high + 1) + (high + 1)
    }
}

/// The position of the unpaired ranks `high > low` in the list of all such
/// pairs, ordered by high rank and then by low rank, both from the ace down.
pub open spec fn non_pair_position(high: int, low: int) -> int {
    ranks_above(high) + (high - 1 - low)
}

/// The group of a two-card starting hand: 0 to 12 for the pairs from aces down,
/// 13 to 90 for the suited and 91 to 168 for the offsuit unpaired hands.
pub open spec fn preflop_group(a: u8, b: u8) -> int {
    let rank_a = a / 4;
    let rank_b = b / 4;
    if rank_a == rank_b {
        12 - rank_a
    } else {
        let high = if rank_a > rank_b {
            rank_a
        } else {
            rank_b
        };
        let low = if rank_a > rank_b {
            rank_b
        } else {
            rank_a
        };
        if a % 4 == b % 4 {
            13 + non_pair_position(high as int, low as int)
        } else {
            91 + non_pair_position(high as int, low as int)
        }
    }
}

/// Maps two hole cards (rank `card / 4`, suit `card % 4`) to one of the 169
/// strategically distinct preflop groups.
pub fn classify_preflop(cards: &[u8; 2]) -> (r: u8)
    requires
        cards@[0] / 4 == cards@[1] / 4 ==> cards@[0] / 4 <= 12,
    ensures
        r == preflop_group(cards@[0], cards@[1]),
{
    let rank_a = cards[0] / 4;
    let rank_b = cards[1] / 4;
    let suit_a = cards[0] % 4;
    let suit_b = cards[1] % 4;

    if rank_a == rank_b {
        return 12 - rank_a;
    }
    let high = if rank_a > rank_b {
        rank_a
    } else {
        rank_b
    };
    let low = if rank_a > rank_b {
        rank_b
    } else {
        rank_a
    };
    let combo_index = non_pair_index(high, low);
    proof {
        lemma_non_pair_position_bounds(high as int, low as int);
    }
    if suit_a == suit_b {
        13 + combo_index
    } else {
        91 + combo_index
    }
}

proof fn lemma_ranks_above_bounds(high: int)
    ensures
        high >= -1 ==> 0 <= ranks_above(high),
        high >= 12 ==> ranks_above(high) == 0,
        0 <= high <= 12 ==> ranks_above(high) + triangle(high) == 78,
        0 <= high <= 12 ==> ranks_above(high) <= 78,
    decreases 12 - high,
{
    if high < 12 {
        lemma_ranks_above_bounds(high + 1);
    } else {
        assert(triangle(12) == 78) by {
            reveal_with_fuel(triangle, 13);
        }
    }
    if 0 <= high <= 12 {
        lemma_triangle_nonneg(high);
    }
}

proof fn lemma_triangle_nonneg(n: int)
    ensures
        triangle(n) >= 0,
    decreases n,
{
    if n > 0 {
        lemma_triangle_nonneg(n - 1);
    }
}

/// `1 + 2 + ... + n`.
pub open spec fn triangle(n: int) -> int
    decreases n,
{
    if n <= 0 {
        0
    } else {
        triangle(n - 1) + n
    }
}

proof fn lemma_triangle_at_least(n: int)
    requires
        n >= 1,
    ensures
        triangle(n) >= n,
    decreases n,
{
    if n > 1 {
        lemma_triangle_at_least(n - 1);
    } else {
        assert(triangle(0) == 0);
    }
}

proof fn lemma_non_pair_position_bounds(high: int, low: int)
    requires
        0 <= low < high,
        high <= 63,
    ensures
        0 <= non_pair_position(high, low),
        high <= 12 ==> non_pair_position(high, low) <= 77,
        high > 12 ==> non_pair_position(high, low) <= 62,
{
    lemma_ranks_above_bounds(high);
    if high <= 12 {
        lemma_triangle_at_least(high);
    }
}

/// The position of the unpaired ranks `high > low` among all unpaired ranks.
fn non_pair_index(high: u8, low: u8) -> (r: u8)
    requires
        high > low,
        high <= 63,
    ensures
        r == non_pair_position(high as int, low as int),
{
    proof {
        lemma_ranks_above_bounds(high as int);
        lemma_non_pair_position_bounds(high as int, low as int);
    }
    let mut idx: u8 = 0;
    let mut rank: u8 = 12;
    while rank > high
        invariant
            high <= rank <= 12 || (rank == 12 && high > 12),
            idx == ranks_above(rank as int),
            idx <= 78,
        decreases rank,
    {
        proof {
            lemma_ranks_above_bounds((rank - 1) as int);
            lemma_ranks_above_bounds(rank as int);
        }
        idx = idx + rank;
        rank = rank - 1;
    }
    proof {
        lemma_ranks_above_bounds(rank as int);
    }
    idx + (high - 1 - low)
}


/// The unpaired ranks `(high, low)` at position `k` among those whose high rank
/// is at most `high`, ordered by high rank and then low rank, both descending.
pub open spec fn unpaired_at(k: int, high: int) -> (int, int)
    decreases high,
{
    if high <= 1 || k < high {
        (high, high - 1 - k)
    } else {
        unpaired_at(k - high, high - 1)
    }
}

/// The representative hand of group `g`: the pair of clubs and diamonds for the
/// pairs, both cards in clubs for the suited hands, and a club with a diamond
/// below it for the offsuit hands.
pub open spec fn group_cards(g: int) -> Seq<u8> {
    if g < 13 {
        seq![(4 * (12 - g)) as u8, (4 * (12 - g) + 1) as u8]
    } else if g < 91 {
        let (high, low) = unpaired_at(g - 13, 12);
        seq![(4 * high) as u8, (4 * low) as u8]
    } else {
        let (high, low) = unpaired_at(g - 91, 12);
        seq![(4 * high) as u8, (4 * low + 1) as u8]
    }
}

proof fn lemma_unpaired_at_finds(high: int, low: int, top: int)
    requires
        0 <= low < high <= top <= 12,
    ensures
        unpaired_at(ranks_above(high) - ranks_above(top) + (high - 1 - low), top) == (high, low),
    decreases top - high,
{
    lemma_ranks_above_bounds(high);
    lemma_ranks_above_bounds(top);
    if high < top {
        lemma_unpaired_at_finds(high, low, top - 1);
        lemma_ranks_above_bounds(top - 1);
        lemma_ranks_above_gap(high, top - 1);
    }
}

proof fn lemma_ranks_above_gap(high: int, top: int)
    requires
        0 <= high <= top <= 12,
    ensures
        ranks_above(high) - ranks_above(top) >= 0,
    decreases top - high,
{
    if high < top {
        lemma_ranks_above_gap(high + 1, top);
    }
}

proof fn lemma_unpaired_at_position(k: int, top: int)
    requires
        1 <= top <= 12,
        0 <= k < triangle(top),
    ensures
        ({
            let (high, low) = unpaired_at(k, top);
            &&& 0 <= low < high <= top
            &&& non_pair_position(high, low) == ranks_above(top) + k
        }),
    decreases top,
{
    if k >= top {
        assert(top > 1) by {
            if top == 1 {
                assert(triangle(1) == 1) by {
                    reveal_with_fuel(triangle, 2);
                }
            }
        }
        lemma_unpaired_at_position(k - top, top - 1);
    }
}

/// The representative hands of the 169 preflop groups, in group order.
pub fn build_preflop_groups() -> (groups: Vec<[u8; 2]>)
    ensures
        groups@.len() == 169,
        forall|g: int| 0 <= g < 169 ==> (#[trigger] groups@[g])@ == group_cards(g),
{
    let mut groups: Vec<[u8; 2]> = Vec::new();
    let mut rank: u8 = 13;
    while rank > 0
        invariant
            rank <= 13,
            groups@.len() == 13 - rank,
            forall|g: int| 0 <= g < groups@.len() ==> (#[trigger] groups@[g])@ == group_cards(g),
        decreases rank,
    {
        rank = rank - 1;
        let hand = [rank * 4, rank * 4 + 1];
        assert(hand@ =~= group_cards(groups@.len() as int));
        groups.push(hand);
    }
    let mut pass: u8 = 0;
    while pass < 2
        invariant
            pass <= 2,
            groups@.len() == 13 + 78 * pass,
            forall|g: int| 0 <= g < groups@.len() ==> (#[trigger] groups@[g])@ == group_cards(g),
        decreases 2 - pass,
    {
        let mut high: u8 = 12;
        proof {
            lemma_ranks_above_bounds(12);
        }
        while high >= 1
            invariant
                pass < 2,
                high <= 12,
                groups@.len() == 13 + 78 * pass + ranks_above(high as int),
                forall|g: int|
                    0 <= g < groups@.len() ==> (#[trigger] groups@[g])@ == group_cards(g),
            decreases high,
        {
            let mut low: u8 = high;
            while low >= 1
                invariant
                    pass < 2,
                    1 <= high <= 12,
                    low <= high,
                    groups@.len() == 13 + 78 * pass + ranks_above(high as int) + (high - low),
                    forall|g: int|
                        0 <= g < groups@.len() ==> (#[trigger] groups@[g])@ == group_cards(g),
                decreases low,
            {
                low = low - 1;
                let hand = [high * 4, low * 4 + pass];
                proof {
                    lemma_unpaired_at_finds(high as int, low as int, 12);
                    lemma_ranks_above_bounds(12);
                    lemma_non_pair_position_bounds(high as int, low as int);
                    let k = non_pair_position(high as int, low as int);
                    assert(groups@.len() == 13 + 78 * pass + k);
                    if pass == 0 {
                        assert(group_cards(13 + k) == seq![(4 * high) as u8, (4 * low) as u8]);
                    } else {
                        assert(group_cards(91 + k) == seq![(4 * high) as u8, (4 * low + 1) as u8]);
                    }
                }
                assert(hand@ =~= group_cards(groups@.len() as int));
                groups.push(hand);
            }
            proof {
                lemma_ranks_above_bounds((high - 1) as int);
                lemma_ranks_above_bounds(high as int);
            }
            high = high - 1;
        }
        proof {
            lemma_ranks_above_bounds(0);
            assert(triangle(0) == 0);
        }
        pass = pass + 1;
    }
    groups
}

// ---------------------------------------------------------------------------
// Laws
// ---------------------------------------------------------------------------

/// The group of two cards does not depend on their order.
pub proof fn lemma_classify_symmetric(a: u8, b: u8)
    ensures
        preflop_group(a, b) == preflop_group(b, a),
{
}

/// The three kinds of starting hands get their own ranges of groups: a pair
/// (both cards of one rank) is below 13; two cards of different ranks are in
/// 13..91 exactly when they share a suit (`card % 4`), and in 91.. otherwise.
pub proof fn lemma_classify_by_kind(a: u8, b: u8)
    ensures
        a / 4 == b / 4 && a / 4 <= 12 ==> 0 <= preflop_group(a, b) < 13,
        a / 4 != b / 4 ==> 13 <= preflop_group(a, b),
        a / 4 != b / 4 ==> (preflop_group(a, b) < 91 <==> a % 4 == b % 4),
{
    let rank_a = a / 4;
    let rank_b = b / 4;
    if rank_a != rank_b {
        let high = if rank_a > rank_b {
            rank_a
        } else {
            rank_b
        };
        let low = if rank_a > rank_b {
            rank_b
        } else {
            rank_a
        };
        lemma_non_pair_position_bounds(high as int, low as int);
    }
}

/// Any two distinct cards of the deck fall into one of the 169 groups.
pub proof fn lemma_classify_in_range(a: u8, b: u8)
    requires
        a < 52,
        b < 52,
        a != b,
    ensures
        0 <= preflop_group(a, b) < 169,
{
    let rank_a = a / 4;
    let rank_b = b / 4;
    if rank_a != rank_b {
        let high = if rank_a > rank_b {
            rank_a
        } else {
            rank_b
        };
        let low = if rank_a > rank_b {
            rank_b
        } else {
            rank_a
        };
        lemma_non_pair_position_bounds(high as int, low as int);
    }
}

/// The representative hand of each group is two distinct cards of the deck that
/// fall into that group, so every one of the 169 groups is reached.
pub proof fn lemma_every_group_reached(g: int)
    requires
        0 <= g < 169,
    ensures
        group_cards(g).len() == 2,
        group_cards(g)[0] < 52,
        group_cards(g)[1] < 52,
        group_cards(g)[0] != group_cards(g)[1],
        preflop_group(group_cards(g)[0], group_cards(g)[1]) == g,
{
    lemma_ranks_above_bounds(12);
    assert(triangle(12) == 78) by {
        reveal_with_fuel(triangle, 13);
    }
    if 13 <= g < 91 {
        lemma_unpaired_at_position(g - 13, 12);
    } else if g >= 91 {
        lemma_unpaired_at_position(g - 91, 12);
    }
}
} // verus!
