use vstd::prelude::*;
use vstd::string::*;

verus! {

/// The letter of a pass in a Kuhn poker history.
pub const PASS: u8 = 0x70;

/// The letter of a bet in a Kuhn poker history.
pub const BET: u8 = 0x62;

/// The utility for the first player of a finished Kuhn poker history (the bytes
/// of a word of 'p' for pass and 'b' for bet), or `None` while the hand goes on.
/// At a showdown the higher card wins one chip, or two after a called bet; a
/// player who passes facing a bet loses one chip.
pub open spec fn kuhn_utility(cards: Seq<usize>, history: Seq<u8>) -> Option<int> {
    let showdown = if cards[0] > cards[1] {
        1int
    } else {
        -1int
    };
    if history == seq![PASS, PASS] {
        Some(showdown)
    } else if history == seq![BET, PASS] {
        Some(1)
    } else if history == seq![PASS, BET, PASS] {
        Some(-1)
    } else if history == seq![BET, BET] || history == seq![PASS, BET, BET] {
        Some(2 * showdown)
    } else {
        None
    }
}

/// The utility for the first player of a finished Kuhn poker history, or `None`
/// while the hand goes on.
pub fn terminal_utility(cards: &[usize; 2], history: &str) -> (r: Option<i64>)
    ensures
        r matches Some(u) ==> kuhn_utility(cards@, history.spec_bytes()) == Some(u as int),
        r is None ==> kuhn_utility(cards@, history.spec_bytes()) is None,
{
    let h = history.as_bytes();
    let ghost s = h@;
    let showdown: i64 = if cards[0] > cards[1] {
        1
    } else {
        -1
    };
    if h.len() == 2 {
        if h[0] == PASS && h[1] == PASS {
            assert(s =~= seq![PASS, PASS]);
            return Some(showdown);
        }
        if h[0] == BET && h[1] == PASS {
            assert(s =~= seq![BET, PASS]);
            return Some(1);
        }
        if h[0] == BET && h[1] == BET {
            assert(s =~= seq![BET, BET]);
            return Some(2 * showdown);
        }
    } else if h.len() == 3 && h[0] == PASS && h[1] == BET {
        if h[2] == PASS {
            assert(s =~= seq![PASS, BET, PASS]);
            return Some(-1);
        }
        if h[2] == BET {
            assert(s =~= seq![PASS, BET, BET]);
            return Some(2 * showdown);
        }
    }
    proof {
        if s.len() == 2 {
            assert(s != seq![PASS, PASS] ==> s[0] != PASS || s[1] != PASS);
            assert(s != seq![BET, PASS] ==> s[0] != BET || s[1] != PASS);
            assert(s != seq![BET, BET] ==> s[0] != BET || s[1] != BET);
            assert(s[0] == PASS && s[1] == PASS ==> s =~= seq![PASS, PASS]);
            assert(s[0] == BET && s[1] == PASS ==> s =~= seq![BET, PASS]);
            assert(s[0] == BET && s[1] == BET ==> s =~= seq![BET, BET]);
        }
        if s.len() == 3 {
            assert(s[0] == PASS && s[1] == BET && s[2] == PASS ==> s =~= seq![PASS, BET, PASS]);
            assert(s[0] == PASS && s[1] == BET && s[2] == BET ==> s =~= seq![PASS, BET, BET]);
        }
    }
    None
}

} // verus!
