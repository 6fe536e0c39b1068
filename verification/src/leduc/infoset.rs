use super::card::{card_letter, LeducCard};
use super::game::{LeducState, LeducView};
use crate::text::{decimal, push_decimal};
use vstd::prelude::*;
use vstd::string::*;

verus! {

/// The actions of a history written one after the other in decimal.
pub open spec fn history_text(history: Seq<u8>) -> Seq<char>
    decreases history.len(),
{
    if history.len() == 0 {
        Seq::empty()
    } else {
        history_text(history.drop_last()) + decimal(history.last() as nat)
    }
}

/// The information set of `player`: their private card, the community card (or
/// "-" before it is dealt) and the history, separated by "|".
pub open spec fn key_text(state: LeducView, player: int) -> Seq<char> {
    card_letter(state.private_cards[player]) + seq!['|'] + match state.community {
        Some(card) => card_letter(card),
        None => seq!['-'],
    } + seq!['|'] + history_text(state.history)
}

/// The key of the information set of `player` in `state`, such as "K|J|01".
pub fn key(state: &LeducState, player: usize) -> (r: String)
    requires
        player < 2,
    ensures
        r@ == key_text(state@, player as int),
{
    let history = state.history_actions();
    let mut out = String::from_str(card_name(state.private_card(player)));
    let separator = "|";
    proof {
        reveal_strlit("|");
        reveal_strlit("-");
    }
    out.append(separator);
    match state.community_card() {
        Some(card) => out.append(card_name(card)),
        None => out.append("-"),
    }
    out.append(separator);
    let ghost prefix = out@;
    let mut i: usize = 0;
    while i < history.len()
        invariant
            i <= history@.len(),
            out@ == prefix + history_text(history@.take(i as int)),
        decreases history@.len() - i,
    {
        assert(history@.take(i + 1).drop_last() =~= history@.take(i as int));
        push_decimal(&mut out, history[i] as u64);
        i = i + 1;
        assert(out@ =~= prefix + history_text(history@.take(i as int)));
    }
    assert(history@.take(i as int) =~= history@);
    assert(out@ =~= key_text(state@, player as int));
    out
}

/// The letter of a card.
fn card_name(card: LeducCard) -> (r: &'static str)
    ensures
        r@ == card_letter(card),
{
    card.letter()
}

} // verus!
