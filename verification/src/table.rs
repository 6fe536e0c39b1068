use crate::rng::shuffle_with_thread_rng;
use crate::text::{decimal, push_decimal};
use vstd::prelude::*;
use vstd::string::*;

verus! {

#[derive(Debug, Clone, Copy, PartialEq, Eq, Structural, PartialOrd, Ord)]
pub enum Suit {
    Club,
    Diamond,
    Heart,
    Spade,
}

/// The ranks from the two up to the ace, in order of strength.
#[derive(Debug, Clone, Copy, PartialEq, Eq, Structural, PartialOrd, Ord)]
pub enum Rank {
    Two,
    Three,
    Four,
    Five,
    Six,
    Seven,
    Eight,
    Nine,
    Ten,
    Jack,
    Queen,
    King,
    Ace,
}

#[derive(Debug, Clone, Copy, PartialEq, Eq, Structural)]
pub struct Card {
    pub rank: Rank,
    pub suit: Suit,
}

/// Two hole cards.
#[derive(Debug, Clone, Copy, PartialEq, Eq)]
pub struct Hand {
    pub cards: [Card; 2],
}

#[derive(Debug, Clone, PartialEq)]
pub enum Action {
    Fold,
    Check,
    Call,
    Raise(u64),
    AllIn,
}

#[derive(Debug, Clone, Copy, PartialEq, Eq, Structural)]
pub enum Street {
    Preflop,
    Flop,
    Turn,
    River,
}

/// The seats of a six-handed table.
#[derive(Debug, Clone, Copy, PartialEq, Eq, Structural)]
pub enum Position {
    UTG,
    HJ,
    CO,
    BTN,
    SB,
    BB,
}

/// The rank at position `i` from the two (0) up to the ace (12).
pub open spec fn rank_at(i: int) -> Rank {
    if i == 0 {
        Rank::Two
    } else if i == 1 {
        Rank::Three
    } else if i == 2 {
        Rank::Four
    } else if i == 3 {
        Rank::Five
    } else if i == 4 {
        Rank::Six
    } else if i == 5 {
        Rank::Seven
    } else if i == 6 {
        Rank::Eight
    } else if i == 7 {
        Rank::Nine
    } else if i == 8 {
        Rank::Ten
    } else if i == 9 {
        Rank::Jack
    } else if i == 10 {
        Rank::Queen
    } else if i == 11 {
        Rank::King
    } else {
        Rank::Ace
    }
}

/// The suit at position `i`: clubs, diamonds, hearts, spades.
pub open spec fn suit_at(i: int) -> Suit {
    if i == 0 {
        Suit::Club
    } else if i == 1 {
        Suit::Diamond
    } else if i == 2 {
        Suit::Heart
    } else {
        Suit::Spade
    }
}

/// A fresh deck: for each suit from clubs to spades, the ranks from two to ace.
pub open spec fn standard_deck() -> Seq<Card> {
    Seq::new(52, |i: int| Card { rank: rank_at(i % 13), suit: suit_at(i / 13) })
}

pub open spec fn rank_text(rank: Rank) -> Seq<char> {
    match rank {
        Rank::Ace => "A"@,
        Rank::King => "K"@,
        Rank::Queen => "Q"@,
        Rank::Jack => "J"@,
        Rank::Ten => "T"@,
        Rank::Nine => "9"@,
        Rank::Eight => "8"@,
        Rank::Seven => "7"@,
        Rank::Six => "6"@,
        Rank::Five => "5"@,
        Rank::Four => "4"@,
        Rank::Three => "3"@,
        Rank::Two => "2"@,
    }
}

pub open spec fn suit_text(suit: Suit) -> Seq<char> {
    match suit {
        Suit::Spade => "s"@,
        Suit::Heart => "h"@,
        Suit::Diamond => "d"@,
        Suit::Club => "c"@,
    }
}

/// A card written as its rank and suit, such as "As" or "Td".
pub open spec fn card_text(card: Card) -> Seq<char> {
    rank_text(card.rank) + suit_text(card.suit)
}

pub open spec fn action_text(action: Action) -> Seq<char> {
    match action {
        Action::Fold => "Fold"@,
        Action::Check => "Check"@,
        Action::Call => "Call"@,
        Action::Raise(amount) => "Raise("@ + decimal(amount as nat) + ")"@,
        Action::AllIn => "AllIn"@,
    }
}

pub open spec fn position_text(position: Position) -> Seq<char> {
    match position {
        Position::UTG => "UTG"@,
        Position::HJ => "HJ"@,
        Position::CO => "CO"@,
        Position::BTN => "BTN"@,
        Position::SB => "SB"@,
        Position::BB => "BB"@,
    }
}

fn rank_str(rank: Rank) -> (r: &'static str)
    ensures
        r@ == rank_text(rank),
{
    match rank {
        Rank::Ace => "A",
        Rank::King => "K",
        Rank::Queen => "Q",
        Rank::Jack => "J",
        Rank::Ten => "T",
        Rank::Nine => "9",
        Rank::Eight => "8",
        Rank::Seven => "7",
        Rank::Six => "6",
        Rank::Five => "5",
        Rank::Four => "4",
        Rank::Three => "3",
        Rank::Two => "2",
    }
}

fn suit_str(suit: Suit) -> (r: &'static str)
    ensures
        r@ == suit_text(suit),
{
    match suit {
        Suit::Spade => "s",
        Suit::Heart => "h",
        Suit::Diamond => "d",
        Suit::Club => "c",
    }
}

impl Card {
    pub fn new(rank: Rank, suit: Suit) -> (c: Self)
        ensures
            c == (Card { rank, suit }),
    {
        Card { rank, suit }
    }

    /// The card written as its rank and suit, such as "As".
    pub fn to_string(&self) -> (r: String)
        ensures
            r@ == card_text(*self),
    {
        let mut out = String::from_str(rank_str(self.rank));
        out.append(suit_str(self.suit));
        out
    }
}

impl Hand {
    pub fn new(c1: Card, c2: Card) -> (h: Self)
        ensures
            h.cards@ == seq![c1, c2],
    {
        let h = Hand { cards: [c1, c2] };
        assert(h.cards@ =~= seq![c1, c2]);
        h
    }

    /// Both cards have the same rank.
    pub fn is_pair(&self) -> (r: bool)
        ensures
            r == (self.cards@[0].rank == self.cards@[1].rank),
    {
        self.cards[0].rank == self.cards[1].rank
    }

    /// Both cards have the same suit.
    pub fn is_suited(&self) -> (r: bool)
        ensures
            r == (self.cards@[0].suit == self.cards@[1].suit),
    {
        self.cards[0].suit == self.cards[1].suit
    }

    /// Both cards written one after the other, such as "AsAh".
    pub fn to_string(&self) -> (r: String)
        ensures
            r@ == card_text(self.cards@[0]) + card_text(self.cards@[1]),
    {
        let mut out = self.cards[0].to_string();
        let second = self.cards[1].to_string();
        out.append(second.as_str());
        out
    }
}

impl Action {
    /// The action's name, with the amount of a raise: "Raise(300)".
    pub fn to_string(&self) -> (r: String)
        ensures
            r@ == action_text(*self),
    {
        match self {
            Action::Fold => String::from_str("Fold"),
            Action::Check => String::from_str("Check"),
            Action::Call => String::from_str("Call"),
            Action::Raise(amount) => {
                let mut out = String::from_str("Raise(");
                push_decimal(&mut out, *amount);
                out.append(")");
                out
            },
            Action::AllIn => String::from_str("AllIn"),
        }
    }
}

impl Position {
    /// The seat's short name, such as "BTN".
    pub fn to_string(&self) -> (r: String)
        ensures
            r@ == position_text(*self),
    {
        match self {
            Position::UTG => String::from_str("UTG"),
            Position::HJ => String::from_str("HJ"),
            Position::CO => String::from_str("CO"),
            Position::BTN => String::from_str("BTN"),
            Position::SB => String::from_str("SB"),
            Position::BB => String::from_str("BB"),
        }
    }
}

/// A deck of cards; cards are dealt from its end.
pub struct Deck {
    cards: Vec<Card>,
}

impl View for Deck {
    type V = Seq<Card>;

    closed spec fn view(&self) -> Seq<Card> {
        self.cards@
    }
}

impl Deck {
    /// A full deck of 52 cards, in the order of `standard_deck`.
    pub fn new() -> (d: Self)
        ensures
            d@ == standard_deck(),
    {
        let suits = [Suit::Club, Suit::Diamond, Suit::Heart, Suit::Spade];
        let ranks = [
            Rank::Two,
            Rank::Three,
            Rank::Four,
            Rank::Five,
            Rank::Six,
            Rank::Seven,
            Rank::Eight,
            Rank::Nine,
            Rank::Ten,
            Rank::Jack,
            Rank::Queen,
            Rank::King,
            Rank::Ace,
        ];
        let mut cards: Vec<Card> = Vec::new();
        let mut s: usize = 0;
        while s < 4
            invariant
                s <= 4,
                forall|i: int| 0 <= i < 4 ==> suits@[i] == suit_at(i),
                forall|i: int| 0 <= i < 13 ==> ranks@[i] == rank_at(i),
                cards@ == standard_deck().take(13 * s),
            decreases 4 - s,
        {
            let mut r: usize = 0;
            while r < 13
                invariant
                    s < 4,
                    r <= 13,
                    forall|i: int| 0 <= i < 4 ==> suits@[i] == suit_at(i),
                    forall|i: int| 0 <= i < 13 ==> ranks@[i] == rank_at(i),
                    cards@ == standard_deck().take(13 * s + r),
                decreases 13 - r,
            {
                let card = Card::new(ranks[r], suits[s]);
                let ghost k = 13 * s + r;
                assert(k % 13 == r as int && k / 13 == s as int);
                cards.push(card);
                r = r + 1;
                assert(cards@ =~= standard_deck().take(13 * s + r));
            }
            s = s + 1;
        }
        assert(standard_deck().take(52) =~= standard_deck());
        Deck { cards }
    }

    /// Shuffles the deck: the same cards in an order left to chance.
    pub fn shuffle(&mut self)
        ensures
            final(self)@.len() == old(self)@.len(),
            final(self)@.to_multiset() == old(self)@.to_multiset(),
    {
        shuffle_with_thread_rng(&mut self.cards);
    }

    /// Deals the last card, or `None` from an empty deck.
    pub fn deal(&mut self) -> (r: Option<Card>)
        ensures
            old(self)@.len() == 0 ==> r is None && final(self)@ == old(self)@,
            old(self)@.len() > 0 ==> r == Some(old(self)@.last()) && final(self)@
                == old(self)@.drop_last(),
    {
        self.cards.pop()
    }

    /// The number of cards left.
    pub fn remaining(&self) -> (r: usize)
        ensures
            r == self@.len(),
    {
        self.cards.len()
    }

    /// The card that would be dealt next, without dealing it.
    pub fn peek(&self) -> (r: Option<&Card>)
        ensures
            self@.len() == 0 ==> r is None,
            self@.len() > 0 ==> r == Some(&self@.last()),
    {
        if self.cards.len() == 0 {
            None
        } else {
            Some(&self.cards[self.cards.len() - 1])
        }
    }

    /// Deals two cards to each of `num_players` players, player by player, or
    /// `None` (dealing nothing) when the deck is short.
    pub fn deal_hands(&mut self, num_players: usize) -> (r: Option<Vec<Hand>>)
        requires
            num_players * 2 <= usize::MAX,
        ensures
            old(self)@.len() < num_players * 2 ==> r is None && final(self)@ == old(self)@,
            old(self)@.len() >= num_players * 2 ==> {
                &&& r is Some
                &&& final(self)@ == old(self)@.take(old(self)@.len() - num_players * 2)
                &&& r->0@.len() == num_players
                &&& forall|k: int|
                    0 <= k < num_players ==> (#[trigger] r->0@[k]).cards@ == seq![
                        old(self)@[old(self)@.len() - 1 - 2 * k],
                        old(self)@[old(self)@.len() - 2 - 2 * k],
                    ]
            },
    {
        if self.remaining() < num_players * 2 {
            return None;
        }
        let ghost start = self@;
        let mut hands: Vec<Hand> = Vec::with_capacity(num_players);
        let mut dealt: usize = 0;
        while dealt < num_players
            invariant
                dealt <= num_players,
                start.len() >= num_players * 2,
                self@ == start.take(start.len() - dealt * 2),
                hands@.len() == dealt,
                forall|k: int|
                    0 <= k < dealt ==> (#[trigger] hands@[k]).cards@ == seq![
                        start[start.len() - 1 - 2 * k],
                        start[start.len() - 2 - 2 * k],
                    ],
            decreases num_players - dealt,
        {
            let c1 = self.deal().unwrap();
            let c2 = self.deal().unwrap();
            hands.push(Hand::new(c1, c2));
            dealt = dealt + 1;
            assert(self@ =~= start.take(start.len() - dealt * 2));
        }
        Some(hands)
    }
}

/// The chips of a multi-player table, before bet tracking.
#[derive(Debug, Clone)]
pub struct GameState {
    pub street: Street,
    pub pot: u64,
    pub stacks: Vec<u64>,
    pub to_act: usize,
    pub board: Vec<Card>,
}

/// The chips `action` moves from a stack of `stack` chips to the pot: a raise
/// its amount if the stack covers it (else nothing), all-in the whole stack.
pub open spec fn chips_moved(action: Action, stack: u64) -> int {
    match action {
        Action::Raise(amount) => if stack >= amount {
            amount as int
        } else {
            0
        },
        Action::AllIn => stack as int,
        _ => 0,
    }
}

impl GameState {
    /// A table of `num_players` players with `starting_stack` chips each, before
    /// the flop, with an empty pot and board.
    pub fn new(num_players: usize, starting_stack: u64) -> (g: Self)
        ensures
            g.street == Street::Preflop,
            g.pot == 0,
            g.stacks@ == Seq::new(num_players as nat, |_i: int| starting_stack),
            g.to_act == 0,
            g.board@.len() == 0,
    {
        let mut stacks: Vec<u64> = Vec::new();
        let mut i: usize = 0;
        while i < num_players
            invariant
                i <= num_players,
                stacks@ == Seq::new(i as nat, |_i: int| starting_stack),
            decreases num_players - i,
        {
            stacks.push(starting_stack);
            i = i + 1;
            assert(stacks@ =~= Seq::new(i as nat, |_i: int| starting_stack));
        }
        GameState { street: Street::Preflop, pot: 0, stacks, to_act: 0, board: Vec::new() }
    }

    /// Moves the chips of `action` from `player`'s stack to the pot; a raise the
    /// stack cannot cover does nothing, and folds, checks and calls move nothing.
    pub fn apply_action(&mut self, action: &Action, player: usize)
        requires
            moves_chips(*action) ==> player < old(self).stacks@.len() && old(self).pot
                + chips_moved(*action, old(self).stacks@[player as int]) <= u64::MAX,
        ensures
            !moves_chips(*action) ==> *final(self) == *old(self),
            moves_chips(*action) ==> {
                &&& final(self).pot == old(self).pot + chips_moved(
                    *action,
                    old(self).stacks@[player as int],
                )
                &&& final(self).stacks@ == old(self).stacks@.update(
                    player as int,
                    (old(self).stacks@[player as int] - chips_moved(
                        *action,
                        old(self).stacks@[player as int],
                    )) as u64,
                )
                &&& final(self).street == old(self).street
                &&& final(self).to_act == old(self).to_act
                &&& final(self).board == old(self).board
            },
    {
        match action {
            Action::Fold | Action::Check => {},
            Action::Call => {},
            Action::Raise(amount) => {
                if self.stacks[player] >= *amount {
                    let left = self.stacks[player] - *amount;
                    self.stacks.set(player, left);
                    self.pot = self.pot + *amount;
                }
                assert(self.stacks@ =~= old(self).stacks@.update(
                    player as int,
                    (old(self).stacks@[player as int] - chips_moved(
                        *action,
                        old(self).stacks@[player as int],
                    )) as u64,
                ));
            },
            Action::AllIn => {
                let all = self.stacks[player];
                self.stacks.set(player, 0);
                self.pot = self.pot + all;
            },
        }
    }
}

/// Raises and all-ins move chips; folds, checks and calls do not.
pub open spec fn moves_chips(action: Action) -> bool {
    action is Raise || action is AllIn
}

// ---------------------------------------------------------------------------
// Laws
// ---------------------------------------------------------------------------

/// A fresh deck holds 52 different cards.
pub proof fn lemma_standard_deck_distinct(i: int, j: int)
    requires
        0 <= i < 52,
        0 <= j < 52,
        i != j,
    ensures
        standard_deck()[i] != standard_deck()[j],
{
}

/// The chips of all stacks together.
pub open spec fn stack_total(stacks: Seq<u64>) -> int
    decreases stacks.len(),
{
    if stacks.len() == 0 {
        0
    } else {
        stack_total(stacks.drop_last()) + stacks.last()
    }
}

proof fn lemma_stack_total_update(stacks: Seq<u64>, player: int, value: u64)
    requires
        0 <= player < stacks.len(),
    ensures
        stack_total(stacks.update(player, value)) == stack_total(stacks) - stacks[player] + value,
    decreases stacks.len(),
{
    if player < stacks.len() - 1 {
        assert(stacks.update(player, value).drop_last() =~= stacks.drop_last().update(player, value));
        lemma_stack_total_update(stacks.drop_last(), player, value);
    } else {
        assert(stacks.update(player, value).drop_last() =~= stacks.drop_last());
    }
}

/// An action moves chips from a stack to the pot: the pot and the stacks
/// together keep the same number of chips.
pub proof fn lemma_action_keeps_chips(pot: u64, stacks: Seq<u64>, player: int, action: Action)
    requires
        0 <= player < stacks.len(),
    ensures
        0 <= chips_moved(action, stacks[player]) <= stacks[player],
        (pot + chips_moved(action, stacks[player])) + stack_total(
            stacks.update(
                player,
                (stacks[player] - chips_moved(action, stacks[player])) as u64,
            ),
        ) == pot + stack_total(stacks),
{
    lemma_stack_total_update(
        stacks,
        player,
        (stacks[player] - chips_moved(action, stacks[player])) as u64,
    );
}

} // verus!
