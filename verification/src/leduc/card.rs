use crate::rng::shuffle_with_thread_rng;
use vstd::prelude::*;
use vstd::string::*;

verus! {

/// A card of Leduc poker: two of each of jack, queen and king.
#[derive(Debug, Clone, Copy, PartialEq, Eq, Structural, PartialOrd, Ord, Hash)]
pub enum LeducCard {
    Jack,
    Queen,
    King,
}

/// The strength of a card: jack 1, queen 2, king 3.
pub open spec fn card_value(card: LeducCard) -> int {
    match card {
        LeducCard::Jack => 1,
        LeducCard::Queen => 2,
        LeducCard::King => 3,
    }
}

/// The letter of a card.
pub open spec fn card_letter(card: LeducCard) -> Seq<char> {
    match card {
        LeducCard::Jack => seq!['J'],
        LeducCard::Queen => seq!['Q'],
        LeducCard::King => seq!['K'],
    }
}

/// The six cards of the deck, in order.
pub open spec fn deck_cards() -> Seq<LeducCard> {
    seq![
        LeducCard::Jack,
        LeducCard::Jack,
        LeducCard::Queen,
        LeducCard::Queen,
        LeducCard::King,
        LeducCard::King,
    ]
}

impl LeducCard {
    /// The strength of the card: jack 1, queen 2, king 3.
    pub fn value(&self) -> (r: i64)
        ensures
            r == card_value(*self),
    {
        match self {
            LeducCard::Jack => 1,
            LeducCard::Queen => 2,
            LeducCard::King => 3,
        }
    }

    /// The letter of the card: "J", "Q" or "K".
    pub fn letter(&self) -> (r: &'static str)
        ensures
            r@ == card_letter(*self),
    {
        match self {
            LeducCard::Jack => {
                proof {
                    reveal_strlit("J");
                }
                "J"
            },
            LeducCard::Queen => {
                proof {
                    reveal_strlit("Q");
                }
                "Q"
            },
            LeducCard::King => {
                proof {
                    reveal_strlit("K");
                }
                "K"
            },
        }
    }

    /// The card written as its letter.
    pub fn to_string(&self) -> (r: String)
        ensures
            r@ == card_letter(*self),
    {
        String::from_str(self.letter())
    }
}

/// A deck of Leduc cards; cards are dealt from its end.
#[derive(Debug, Clone)]
pub struct LeducDeck {
    cards: Vec<LeducCard>,
}

impl View for LeducDeck {
    type V = Seq<LeducCard>;

    closed spec fn view(&self) -> Seq<LeducCard> {
        self.cards@
    }
}

impl LeducDeck {
    /// A full deck in the order jack, jack, queen, queen, king, king.
    pub fn new() -> (deck: Self)
        ensures
            deck@ == deck_cards(),
    {
        let mut cards = Vec::new();
        cards.push(LeducCard::Jack);
        cards.push(LeducCard::Jack);
        cards.push(LeducCard::Queen);
        cards.push(LeducCard::Queen);
        cards.push(LeducCard::King);
        cards.push(LeducCard::King);
        assert(cards@ =~= deck_cards());
        LeducDeck { cards }
    }

    /// The six cards of the deck, in order.
    pub fn cards() -> (r: [LeducCard; 6])
        ensures
            r@ == deck_cards(),
    {
        let r = [
            LeducCard::Jack,
            LeducCard::Jack,
            LeducCard::Queen,
            LeducCard::Queen,
            LeducCard::King,
            LeducCard::King,
        ];
        assert(r@ =~= deck_cards());
        r
    }

    /// Shuffles the deck: the same cards in an order left to chance.
    pub fn shuffle(&mut self)
        ensures
            final(self)@.len() == old(self)@.len(),
            final(self)@.to_multiset() == old(self)@.to_multiset(),
    {
        shuffle_with_thread_rng(&mut self.cards);
    }

    /// Deals the last card of the deck, or `None` from an empty deck.
    pub fn deal(&mut self) -> (r: Option<LeducCard>)
        ensures
            old(self)@.len() == 0 ==> r is None && final(self)@ == old(self)@,
            old(self)@.len() > 0 ==> r == Some(old(self)@.last()) && final(self)@
                == old(self)@.drop_last(),
    {
        self.cards.pop()
    }
}

} // verus!
