use crate::action_abstraction::{bet_amount, standard_size, trunc_div, BetSize, STANDARD_BET_SIZES};
use crate::hand_evaluator::{compare_hands, evaluate_7card, hand_lt, seven_card_rank, valid_cards};
use crate::rng::shuffle_with_rng;
use rand::rngs::StdRng;
use vstd::multiset::Multiset;
use vstd::prelude::*;

verus! {

pub const SMALL_BLIND: i64 = 50;

pub const BIG_BLIND: i64 = 100;

pub const STARTING_STACK: i64 = 10_000;

/// A heads-up no-limit hold'em hand with blinds of 50 and 100 and stacks of
/// 10000. The first player posts the small blind and acts first on every street.
#[derive(Debug, Clone)]
pub struct NLHEState {
    pub hole_cards: [[u8; 2]; 2],
    pub board: [u8; 5],
    pub street: u8,
    pub pot: i64,
    pub stacks: [i64; 2],
    pub player_bets: [i64; 2],
    pub current_bet: i64,
    pub to_act: usize,
    pub folded: Option<usize>,
    pub terminal: bool,
    actions_this_round: u8,
}

/// The model of an `NLHEState`, with the chips as integers.
#[verifier::ext_equal]
pub struct NLHEView {
    pub hole_cards: Seq<Seq<u8>>,
    pub board: Seq<u8>,
    pub street: int,
    pub pot: int,
    pub stacks: Seq<int>,
    pub player_bets: Seq<int>,
    pub current_bet: int,
    pub to_act: int,
    pub folded: Option<int>,
    pub terminal: bool,
    /// The actions taken in the current betting round; a bet or raise restarts
    /// the count at one.
    pub actions_this_round: int,
}

impl View for NLHEState {
    type V = NLHEView;

    closed spec fn view(&self) -> NLHEView {
        NLHEView {
            hole_cards: seq![self.hole_cards[0]@, self.hole_cards[1]@],
            board: self.board@,
            street: self.street as int,
            pot: self.pot as int,
            stacks: seq![self.stacks[0] as int, self.stacks[1] as int],
            player_bets: seq![self.player_bets[0] as int, self.player_bets[1] as int],
            current_bet: self.current_bet as int,
            to_act: self.to_act as int,
            folded: match self.folded {
                Some(p) => Some(p as int),
                None => None,
            },
            terminal: self.terminal,
            actions_this_round: self.actions_this_round as int,
        }
    }
}

pub open spec fn min_int(a: int, b: int) -> int {
    if a < b {
        a
    } else {
        b
    }
}

pub open spec fn max_int(a: int, b: int) -> int {
    if a > b {
        a
    } else {
        b
    }
}

pub open spec fn in_i64(x: int) -> bool {
    i64::MIN <= x <= i64::MAX
}

/// The hand dealt from a deck: hole cards from the first four cards, alternating
/// between the players, the board from the next five; the blinds are posted.
pub open spec fn dealt_from(deck: Seq<u8>) -> NLHEView {
    NLHEView {
        hole_cards: seq![seq![deck[0], deck[2]], seq![deck[1], deck[3]]],
        board: seq![deck[4], deck[5], deck[6], deck[7], deck[8]],
        street: 0,
        pot: SMALL_BLIND + BIG_BLIND,
        stacks: seq![STARTING_STACK - SMALL_BLIND, STARTING_STACK - BIG_BLIND],
        player_bets: seq![SMALL_BLIND as int, BIG_BLIND as int],
        current_bet: BIG_BLIND as int,
        to_act: 0,
        folded: None,
        terminal: false,
        actions_this_round: 0,
    }
}

/// The 52 cards in order.
pub open spec fn full_deck() -> Seq<u8> {
    Seq::new(52, |i: int| i as u8)
}

impl NLHEView {
    pub open spec fn is_terminal(self) -> bool {
        self.terminal || self.folded is Some
    }

    /// The chips `player` must add to match the current bet.
    pub open spec fn call_amount(self, player: int) -> int {
        max_int(self.current_bet - self.player_bets[player], 0)
    }

    pub open spec fn legal_actions(self) -> Seq<BetSize> {
        if self.is_terminal() {
            Seq::empty()
        } else {
            let call = self.call_amount(self.to_act);
            let base = if call > 0 {
                seq![BetSize::Fold, BetSize::Call]
            } else {
                seq![BetSize::Check]
            };
            if self.stacks[self.to_act] > call {
                base + Seq::new(6, |i: int| BetSize::BetFraction(standard_size(i)))
            } else {
                base
            }
        }
    }

    /// The state after `player` puts `amount` chips in, as far as their stack
    /// allows (and nothing for a negative amount).
    pub open spec fn commit(self, player: int, amount: int) -> NLHEView {
        let chips = max_int(min_int(amount, self.stacks[player]), 0);
        NLHEView {
            stacks: self.stacks.update(player, self.stacks[player] - chips),
            player_bets: self.player_bets.update(player, self.player_bets[player] + chips),
            pot: self.pot + chips,
            ..self
        }
    }

    /// The chips a bet of `fraction` percent of the pot raises by: at least the
    /// big blind.
    pub open spec fn raise_amount(self, fraction: u8) -> int {
        max_int(trunc_div(self.pot * fraction, 100), BIG_BLIND as int)
    }

    /// The state right after the player to act takes `action`, before the turn
    /// passes or the street ends.
    pub open spec fn acted(self, action: BetSize) -> NLHEView {
        let player = self.to_act;
        match action {
            BetSize::Fold => NLHEView { folded: Some(player), terminal: true, ..self },
            BetSize::Check => if self.call_amount(player) > 0 {
                NLHEView { folded: Some(player), terminal: true, ..self }
            } else {
                NLHEView { actions_this_round: self.actions_this_round + 1, ..self }
            },
            BetSize::Call => {
                let paid = self.commit(
                    player,
                    min_int(self.call_amount(player), self.stacks[player]),
                );
                NLHEView { actions_this_round: paid.actions_this_round + 1, ..paid }
            },
            BetSize::BetFraction(fraction) => {
                let total = min_int(
                    self.call_amount(player) + self.raise_amount(fraction),
                    self.stacks[player],
                );
                let paid = self.commit(player, total);
                NLHEView {
                    current_bet: max_int(paid.current_bet, paid.player_bets[player]),
                    actions_this_round: 1,
                    ..paid
                }
            },
        }
    }

    /// Both players have acted and their bets match.
    pub open spec fn round_complete(self) -> bool {
        self.actions_this_round >= 2 && self.player_bets[0] == self.player_bets[1]
    }

    /// The next street, or the end of the hand after the river.
    pub open spec fn advance_street(self) -> NLHEView {
        if self.street >= 3 {
            NLHEView { terminal: true, ..self }
        } else {
            NLHEView {
                street: self.street + 1,
                player_bets: seq![0, 0],
                current_bet: 0,
                actions_this_round: 0,
                to_act: 0,
                ..self
            }
        }
    }

    /// The state after the player to act takes `action`; a finished hand is left
    /// unchanged, and checking when facing a bet folds.
    pub open spec fn step(self, action: BetSize) -> NLHEView {
        if self.is_terminal() {
            self
        } else {
            let after = self.acted(action);
            if after.is_terminal() {
                after
            } else if after.round_complete() {
                after.advance_street()
            } else {
                NLHEView { to_act: 1 - self.to_act, ..after }
            }
        }
    }

    /// The numbers of the state fit the machine's integers.
    pub open spec fn fits(self) -> bool {
        &&& in_i64(self.pot)
        &&& in_i64(self.stacks[0])
        &&& in_i64(self.stacks[1])
        &&& in_i64(self.player_bets[0])
        &&& in_i64(self.player_bets[1])
        &&& in_i64(self.current_bet)
        &&& 0 <= self.actions_this_round <= u8::MAX
        &&& 0 <= self.street <= u8::MAX
    }

    /// The arithmetic of `action` stays within the machine's integers, and the
    /// player to act is a player. A fold reads nothing of the player's chips, so
    /// it asks for neither.
    pub open spec fn action_fits(self, action: BetSize) -> bool {
        let player = self.to_act;
        self.is_terminal() || action is Fold || {
            &&& 0 <= player < 2
            &&& in_i64(self.current_bet - self.player_bets[player])
            &&& self.acted(action).fits()
            &&& (action matches BetSize::BetFraction(fraction) ==> {
                &&& in_i64(self.pot * fraction)
                &&& in_i64(self.call_amount(player) + self.raise_amount(fraction))
            })
        }
    }

    /// The seven cards `player` shows down.
    pub open spec fn showdown_cards(self, player: int) -> Seq<u8> {
        seq![self.hole_cards[player][0], self.hole_cards[player][1]] + self.board
    }

    /// The value of the best hand of `player`.
    pub open spec fn showdown_hand(self, player: int) -> crate::hand_evaluator::HandRank {
        seven_card_rank(self.showdown_cards(player).to_multiset())
    }

    /// The chips `player` has put in during the hand.
    pub open spec fn contribution(self, player: int) -> int {
        STARTING_STACK - self.stacks[player]
    }

    /// The net result of each player: the winner takes the pot, a split pot gives
    /// the odd chip to the second player, and each loses what they put in.
    pub open spec fn payoff(self) -> Seq<int> {
        match self.folded {
            Some(folder) => {
                let winner = 1 - folder;
                let lost = seq![-self.contribution(0), -self.contribution(1)];
                lost.update(winner, lost[winner] + self.pot)
            },
            None => {
                let hand0 = self.showdown_hand(0);
                let hand1 = self.showdown_hand(1);
                if hand_lt(hand1, hand0) {
                    seq![self.pot - self.contribution(0), -self.contribution(1)]
                } else if hand_lt(hand0, hand1) {
                    seq![-self.contribution(0), self.pot - self.contribution(1)]
                } else {
                    seq![
                        trunc_div(self.pot, 2) - self.contribution(0),
                        self.pot - trunc_div(self.pot, 2) - self.contribution(1),
                    ]
                }
            },
        }
    }

    /// The payoff can be computed: the folder is a player, the cards are cards of
    /// the deck, and the chips fit the machine's integers.
    pub open spec fn payoff_fits(self) -> bool {
        &&& (self.folded matches Some(folder) ==> 0 <= folder < 2)
        &&& (self.folded is None ==> valid_cards(self.showdown_cards(0)) && valid_cards(
            self.showdown_cards(1),
        ))
        &&& in_i64(self.contribution(0))
        &&& in_i64(self.contribution(1))
        &&& in_i64(self.payoff()[0])
        &&& in_i64(self.payoff()[1])
    }

    /// The chips in play: the pot and both stacks.
    pub open spec fn total_chips(self) -> int {
        self.pot + self.stacks[0] + self.stacks[1]
    }
}

impl NLHEState {
    /// Deals a hand from a deck shuffled with `rng`.
    pub fn new_random(rng: &mut StdRng) -> (s: Self)
        ensures
            exists|deck: Seq<u8>|
                deck.to_multiset() == full_deck().to_multiset() && s@ == dealt_from(deck),
    {
        let mut deck: Vec<u8> = Vec::new();
        let mut card: u8 = 0;
        while card < 52
            invariant
                card <= 52,
                deck@ == full_deck().take(card as int),
            decreases 52 - card,
        {
            deck.push(card);
            card = card + 1;
            assert(deck@ =~= full_deck().take(card as int));
        }
        assert(full_deck().take(52) =~= full_deck());
        shuffle_with_rng(&mut deck, rng);
        Self::from_deck(&deck)
    }

    /// Deals a hand from the first nine cards of `deck` and posts the blinds.
    pub fn from_deck(deck: &[u8]) -> (s: Self)
        requires
            deck@.len() >= 9,
        ensures
            s@ == dealt_from(deck@),
    {
        let s = NLHEState {
            hole_cards: [[deck[0], deck[2]], [deck[1], deck[3]]],
            board: [deck[4], deck[5], deck[6], deck[7], deck[8]],
            street: 0,
            pot: SMALL_BLIND + BIG_BLIND,
            stacks: [STARTING_STACK - SMALL_BLIND, STARTING_STACK - BIG_BLIND],
            player_bets: [SMALL_BLIND, BIG_BLIND],
            current_bet: BIG_BLIND,
            to_act: 0,
            folded: None,
            terminal: false,
            actions_this_round: 0,
        };
        assert(s@.hole_cards =~= dealt_from(deck@).hole_cards);
        assert(s@.board =~= dealt_from(deck@).board);
        assert(s@.stacks =~= dealt_from(deck@).stacks);
        assert(s@.player_bets =~= dealt_from(deck@).player_bets);
        s
    }

    /// The model of a state holds two players' cards and chips, a five-card
    /// board, and numbers that fit the machine's integers.
    pub proof fn lemma_view_shape(&self)
        ensures
            self@.hole_cards.len() == 2,
            self@.hole_cards[0].len() == 2,
            self@.hole_cards[1].len() == 2,
            self@.board.len() == 5,
            self@.stacks.len() == 2,
            self@.player_bets.len() == 2,
            self@.fits(),
            0 <= self@.to_act,
            self@.folded matches Some(p) ==> 0 <= p,
    {
    }

    pub fn is_terminal(&self) -> (r: bool)
        ensures
            r == self@.is_terminal(),
    {
        self.terminal || self.folded.is_some()
    }

    pub fn current_player(&self) -> (r: usize)
        ensures
            r == self@.to_act,
    {
        self.to_act
    }

    /// The actions the player to act may take: fold and call when facing a bet,
    /// else check; and every standard bet size while they have chips beyond the
    /// call.
    pub fn legal_actions(&self) -> (r: Vec<BetSize>)
        requires
            !self@.is_terminal() ==> 0 <= self@.to_act < 2 && in_i64(
                self@.current_bet - self@.player_bets[self@.to_act],
            ),
        ensures
            r@ == self@.legal_actions(),
    {
        let mut actions = Vec::new();
        if self.is_terminal() {
            return actions;
        }
        let call_amount = self.call_amount(self.to_act);
        if call_amount > 0 {
            actions.push(BetSize::Fold);
            actions.push(BetSize::Call);
        } else {
            actions.push(BetSize::Check);
        }
        let ghost base = actions@;
        if self.stacks[self.to_act] > call_amount {
            let mut i: usize = 0;
            while i < 6
                invariant
                    i <= 6,
                    actions@ == base + Seq::new(i as nat, |j: int| BetSize::BetFraction(standard_size(j))),
                decreases 6 - i,
            {
                let size = STANDARD_BET_SIZES[i];
                assert(size == standard_size(i as int));
                actions.push(BetSize::BetFraction(size));
                i = i + 1;
                assert(actions@ =~= base + Seq::new(i as nat, |j: int| BetSize::BetFraction(standard_size(j))));
            }
        }
        assert(actions@ =~= self@.legal_actions());
        actions
    }

    /// Plays `action` for the player to act. A finished hand is left unchanged;
    /// checking when facing a bet folds.
    pub fn apply_action(&mut self, action: BetSize)
        requires
            old(self)@.action_fits(action),
        ensures
            final(self)@ == old(self)@.step(action),
    {
        if self.is_terminal() {
            return;
        }
        let player = self.to_act;
        let ghost start = self@;
        match action {
            BetSize::Fold => {
                self.folded = Some(player);
                self.terminal = true;
                assert(self@ =~= start.step(action));
                return;
            },
            BetSize::Check => {
                if self.call_amount(player) > 0 {
                    self.folded = Some(player);
                    self.terminal = true;
                    assert(self@ =~= start.step(action));
                    return;
                }
                self.actions_this_round = self.actions_this_round + 1;
            },
            BetSize::Call => {
                let owed = self.call_amount(player);
                let amount = if owed < self.stacks[player] {
                    owed
                } else {
                    self.stacks[player]
                };
                self.commit(player, amount);
                self.actions_this_round = self.actions_this_round + 1;
            },
            BetSize::BetFraction(fraction) => {
                let call_amount = self.call_amount(player);
                let bet = bet_amount(fraction, self.pot);
                let raise_amount = if bet > BIG_BLIND {
                    bet
                } else {
                    BIG_BLIND
                };
                let wanted = call_amount + raise_amount;
                let total = if wanted < self.stacks[player] {
                    wanted
                } else {
                    self.stacks[player]
                };
                self.commit(player, total);
                if self.player_bets[player] > self.current_bet {
                    self.current_bet = self.player_bets[player];
                }
                self.actions_this_round = 1;
            },
        }
        assert(self@ =~= start.acted(action));
        if self.round_complete() {
            self.advance_street();
        } else {
            self.to_act = 1 - self.to_act;
        }
        assert(self@ =~= start.step(action));
    }

    /// The net result of each player at the end of the hand.
    pub fn payoff(&self) -> (r: [i64; 2])
        requires
            self@.payoff_fits(),
        ensures
            r@[0] == self@.payoff()[0],
            r@[1] == self@.payoff()[1],
    {
        if let Some(folder) = self.folded {
            let winner = 1 - folder;
            let mut payoff = [
                -self.player_total_contribution(0),
                -self.player_total_contribution(1),
            ];
            payoff[winner] = payoff[winner] + self.pot;
            return payoff;
        }
        let hand_0 = self.showdown_hand(0);
        let hand_1 = self.showdown_hand(1);
        let contribution = [self.player_total_contribution(0), self.player_total_contribution(1)];
        let order = compare_hands(hand_0, hand_1);
        let r = match order {
            std::cmp::Ordering::Greater => [self.pot - contribution[0], -contribution[1]],
            std::cmp::Ordering::Less => [-contribution[0], self.pot - contribution[1]],
            std::cmp::Ordering::Equal => [
                self.pot / 2 - contribution[0],
                self.pot - self.pot / 2 - contribution[1],
            ],
        };
        r
    }

    fn call_amount(&self, player: usize) -> (r: i64)
        requires
            player < 2,
            in_i64(self@.current_bet - self@.player_bets[player as int]),
        ensures
            r == self@.call_amount(player as int),
    {
        let owed = self.current_bet - self.player_bets[player];
        if owed > 0 {
            owed
        } else {
            0
        }
    }

    fn commit(&mut self, player: usize, amount: i64)
        requires
            player < 2,
            old(self)@.commit(player as int, amount as int).fits(),
        ensures
            final(self)@ == old(self)@.commit(player as int, amount as int),
    {
        let ghost start = self@;
        let capped = if amount < self.stacks[player] {
            amount
        } else {
            self.stacks[player]
        };
        let chips = if capped > 0 {
            capped
        } else {
            0
        };
        self.stacks[player] = self.stacks[player] - chips;
        self.player_bets[player] = self.player_bets[player] + chips;
        self.pot = self.pot + chips;
        assert(self@ =~= start.commit(player as int, amount as int));
    }

    fn round_complete(&self) -> (r: bool)
        ensures
            r == self@.round_complete(),
    {
        self.actions_this_round >= 2 && self.player_bets[0] == self.player_bets[1]
    }

    fn advance_street(&mut self)
        ensures
            final(self)@ == old(self)@.advance_street(),
    {
        let ghost start = self@;
        if self.street >= 3 {
            self.terminal = true;
            assert(self@ =~= start.advance_street());
            return;
        }
        self.street = self.street + 1;
        self.player_bets = [0, 0];
        self.current_bet = 0;
        self.actions_this_round = 0;
        self.to_act = 0;
        assert(self@ =~= start.advance_street());
    }

    fn showdown_hand(&self, player: usize) -> (r: crate::hand_evaluator::HandRank)
        requires
            player < 2,
            valid_cards(self@.showdown_cards(player as int)),
        ensures
            r == self@.showdown_hand(player as int),
    {
        let cards = [
            self.hole_cards[player][0],
            self.hole_cards[player][1],
            self.board[0],
            self.board[1],
            self.board[2],
            self.board[3],
            self.board[4],
        ];
        assert(cards@ =~= self@.showdown_cards(player as int));
        evaluate_7card(&cards)
    }

    fn player_total_contribution(&self, player: usize) -> (r: i64)
        requires
            player < 2,
            in_i64(self@.contribution(player as int)),
        ensures
            r == self@.contribution(player as int),
    {
        STARTING_STACK - self.stacks[player]
    }
}

// ---------------------------------------------------------------------------
// Laws
// ---------------------------------------------------------------------------

/// Betting moves chips from a stack to the pot, so the chips in play never
/// change.
pub proof fn lemma_step_keeps_chips(v: NLHEView, action: BetSize)
    requires
        v.stacks.len() == 2,
        v.player_bets.len() == 2,
        0 <= v.to_act < 2,
    ensures
        v.step(action).total_chips() == v.total_chips(),
{
}

/// Nobody bets chips they do not have: stacks and the pot stay non-negative.
pub proof fn lemma_step_keeps_stacks_non_negative(v: NLHEView, action: BetSize)
    requires
        v.stacks.len() == 2,
        v.player_bets.len() == 2,
        0 <= v.to_act < 2,
        v.stacks[0] >= 0,
        v.stacks[1] >= 0,
        v.pot >= 0,
    ensures
        v.step(action).stacks[0] >= 0,
        v.step(action).stacks[1] >= 0,
        v.step(action).pot >= 0,
{
}

/// A fresh hand has the two starting stacks in play.
pub proof fn lemma_new_hand_chips(deck: Seq<u8>)
    ensures
        dealt_from(deck).total_chips() == 2 * STARTING_STACK,
{
}

/// Hold'em heads-up is zero-sum: with the starting chips in play, what one player
/// wins the other loses.
pub proof fn lemma_payoff_zero_sum(v: NLHEView)
    requires
        v.stacks.len() == 2,
        v.total_chips() == 2 * STARTING_STACK,
        v.folded matches Some(folder) ==> 0 <= folder < 2,
    ensures
        v.payoff()[0] + v.payoff()[1] == 0,
{
}

/// At a showdown the better hand takes the whole pot and the other player loses
/// exactly what they put in; the pot is split only when neither hand is better.
/// With the starting chips in play, the winner gains what the loser put in.
pub proof fn lemma_showdown_payoff(v: NLHEView)
    requires
        v.stacks.len() == 2,
        v.folded is None,
    ensures
        hand_lt(v.showdown_hand(0), v.showdown_hand(1)) ==> v.payoff()[0] == -v.contribution(0)
            && v.payoff()[1] == v.pot - v.contribution(1),
        hand_lt(v.showdown_hand(1), v.showdown_hand(0)) ==> v.payoff()[0] == v.pot
            - v.contribution(0) && v.payoff()[1] == -v.contribution(1),
        !hand_lt(v.showdown_hand(0), v.showdown_hand(1)) && !hand_lt(
            v.showdown_hand(1),
            v.showdown_hand(0),
        ) ==> v.payoff()[0] + v.contribution(0) == trunc_div(v.pot, 2) && v.payoff()[1]
            + v.contribution(1) == v.pot - trunc_div(v.pot, 2),
        v.total_chips() == 2 * STARTING_STACK && hand_lt(v.showdown_hand(0), v.showdown_hand(1))
            ==> v.payoff()[1] == v.contribution(0),
        v.total_chips() == 2 * STARTING_STACK && hand_lt(v.showdown_hand(1), v.showdown_hand(0))
            ==> v.payoff()[0] == v.contribution(1),
{
    crate::hand_evaluator::lemma_hand_order_trichotomy(v.showdown_hand(0), v.showdown_hand(1));
}

/// A fold hands the pot to the other player; the folder loses what they put in.
pub proof fn lemma_fold_payoff(v: NLHEView, action: BetSize)
    requires
        v.stacks.len() == 2,
        !v.is_terminal(),
        0 <= v.to_act < 2,
        action is Fold || (action is Check && v.call_amount(v.to_act) > 0),
    ensures
        v.step(action).is_terminal(),
        v.step(action).payoff()[v.to_act] == -v.contribution(v.to_act),
        v.step(action).payoff()[1 - v.to_act] == v.pot - v.contribution(1 - v.to_act),
{
}

/// A bet or raise answered by a call that matches it closes the betting round:
/// the next street begins with no bets and the first player to act, or the hand
/// ends after the river.
pub proof fn lemma_called_bet_closes_round(v: NLHEView, fraction: u8)
    requires
        hand_invariant(v),
        !v.is_terminal(),
        v.stacks[v.to_act] > v.call_amount(v.to_act),
        ({
            let w = v.step(BetSize::BetFraction(fraction));
            w.stacks[w.to_act] >= w.call_amount(w.to_act)
        }),
    ensures
        ({
            let w = v.step(BetSize::BetFraction(fraction));
            let x = w.step(BetSize::Call);
            &&& !w.is_terminal()
            &&& w.to_act == 1 - v.to_act
            &&& v.street < 3 ==> {
                &&& !x.is_terminal()
                &&& x.street == v.street + 1
                &&& x.player_bets == seq![0int, 0int]
                &&& x.current_bet == 0
                &&& x.to_act == 0
            }
            &&& v.street == 3 ==> x.is_terminal()
        }),
{
    let p = v.to_act;
    let w = v.step(BetSize::BetFraction(fraction));
    let a = v.acted(BetSize::BetFraction(fraction));
    assert(v.raise_amount(fraction) >= BIG_BLIND);
    assert(a.player_bets[p] > v.current_bet);
    assert(a.current_bet == a.player_bets[p]);
    assert(!a.round_complete());
    assert(w == NLHEView { to_act: 1 - p, ..a });
    let q = 1 - p;
    let b = w.acted(BetSize::Call);
    assert(b.player_bets[q] == w.current_bet);
    assert(b.player_bets[p] == w.current_bet);
    assert(b.actions_this_round == 2);
    assert(b.round_complete());
}

/// What holds of every hand dealt and played: the starting chips stay in play,
/// no stack is negative, no bet exceeds the current bet, the street is at most
/// the river and a player is to act.
pub open spec fn hand_invariant(v: NLHEView) -> bool {
    &&& v.stacks.len() == 2
    &&& v.player_bets.len() == 2
    &&& v.total_chips() == 2 * STARTING_STACK
    &&& v.stacks[0] >= 0
    &&& v.stacks[1] >= 0
    &&& v.player_bets[0] <= v.current_bet
    &&& v.player_bets[1] <= v.current_bet
    &&& 0 <= v.street <= 3
    &&& 0 <= v.to_act < 2
}

/// A fresh hand meets the invariant.
pub proof fn lemma_hand_invariant_dealt(deck: Seq<u8>)
    ensures
        hand_invariant(dealt_from(deck)),
{
}

/// Every action keeps the invariant and only moves forward: the pot grows,
/// stacks shrink, the street never goes back, and a finished hand stays finished.
pub proof fn lemma_step_keeps_hand_invariant(v: NLHEView, action: BetSize)
    requires
        hand_invariant(v),
    ensures
        hand_invariant(v.step(action)),
        v.step(action).pot >= v.pot,
        v.step(action).stacks[0] <= v.stacks[0],
        v.step(action).stacks[1] <= v.stacks[1],
        v.step(action).street >= v.street,
        v.is_terminal() ==> v.step(action).is_terminal(),
{
}

/// A finished hand offers no actions and is not changed by one.
pub proof fn lemma_terminal_is_final(v: NLHEView, action: BetSize)
    requires
        v.is_terminal(),
    ensures
        v.legal_actions().len() == 0,
        v.step(action) == v,
{
}

/// A hand dealt from a shuffled deck holds nine distinct cards of the deck.
pub proof fn lemma_dealt_cards_distinct(deck: Seq<u8>)
    requires
        deck.to_multiset() == full_deck().to_multiset(),
    ensures
        deck.len() == 52,
        forall|i: int| 0 <= i < 52 ==> #[trigger] deck[i] < 52,
        deck.no_duplicates(),
{
    broadcast use vstd::seq_lib::group_to_multiset_ensures;
    assert(full_deck().no_duplicates());
    full_deck().lemma_multiset_has_no_duplicates();
    assert(deck.len() == deck.to_multiset().len());
    assert(full_deck().len() == full_deck().to_multiset().len());
    deck.lemma_multiset_has_no_duplicates_conv();
    assert forall|i: int| 0 <= i < 52 implies #[trigger] deck[i] < 52 by {
        assert(deck.contains(deck[i]));
        assert(full_deck().to_multiset().count(deck[i]) > 0);
        assert(full_deck().contains(deck[i]));
    }
}

} // verus!
