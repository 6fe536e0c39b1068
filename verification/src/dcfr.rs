use crate::leduc::card::{deck_cards, LeducCard, LeducDeck};
use vstd::prelude::*;

verus! {

/// The deck positions of the two private cards of deal `k`: the first player's
/// card position is `k / 5`, and the second player's is the `(k % 5)`-th of the
/// other five positions.
pub open spec fn deal_positions(k: int) -> (int, int) {
    let first = k / 5;
    let other = k % 5;
    (first, if other < first { other } else { other + 1 })
}

/// Every ordered pair of distinct deck positions as private cards: 30 deals,
/// ordered by the first player's position, then the second player's.
pub fn private_card_deals() -> (deals: Vec<[LeducCard; 2]>)
    ensures
        deals@.len() == 30,
        forall|k: int|
            0 <= k < 30 ==> (#[trigger] deals@[k])@ == seq![
                deck_cards()[deal_positions(k).0],
                deck_cards()[deal_positions(k).1],
            ],
{
    let deck = LeducDeck::cards();
    let mut deals: Vec<[LeducCard; 2]> = Vec::new();
    let mut i: usize = 0;
    while i < 6
        invariant
            i <= 6,
            deck@ == deck_cards(),
            deals@.len() == 5 * i,
            forall|k: int|
                0 <= k < deals@.len() ==> (#[trigger] deals@[k])@ == seq![
                    deck_cards()[deal_positions(k).0],
                    deck_cards()[deal_positions(k).1],
                ],
        decreases 6 - i,
    {
        let mut j: usize = 0;
        while j < 6
            invariant
                i < 6,
                j <= 6,
                deck@ == deck_cards(),
                deals@.len() == 5 * i + j - (if j > i {
                    1int
                } else {
                    0
                }),
                forall|k: int|
                    0 <= k < deals@.len() ==> (#[trigger] deals@[k])@ == seq![
                        deck_cards()[deal_positions(k).0],
                        deck_cards()[deal_positions(k).1],
                    ],
            decreases 6 - j,
        {
            if i != j {
                let deal = [deck[i], deck[j]];
                let ghost k = deals@.len() as int;
                assert(k / 5 == i as int);
                assert(deal_positions(k) == (i as int, j as int));
                assert(deal@ =~= seq![
                    deck_cards()[deal_positions(k).0],
                    deck_cards()[deal_positions(k).1],
                ]);
                deals.push(deal);
            }
            j = j + 1;
        }
        i = i + 1;
    }
    deals
}

} // verus!
