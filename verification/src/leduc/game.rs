use super::card::{card_value, LeducCard};
use vstd::prelude::*;

verus! {

/// Check, or pass when no bet is outstanding.
pub const CHECK_PASS: u8 = 0;

/// Bet, or call when a bet is outstanding.
pub const BET_CALL: u8 = 1;

/// Raise an outstanding bet.
pub const RAISE: u8 = 2;

/// Give up the hand.
pub const FOLD: u8 = 3;

/// A position in a hand of two-player Leduc poker. Both players have put one
/// chip in the pot (their stacks count what they have put in, negatively). In the
/// first round a bet or raise is 2 chips, in the second 4; a round allows a bet
/// and one raise. The community card is dealt between the rounds.
#[derive(Debug, Clone)]
pub struct LeducState {
    pub private_cards: [LeducCard; 2],
    pub community: Option<LeducCard>,
    pub history: Vec<u8>,
    pub pot: i64,
    pub stacks: [i64; 2],
    pub round: u8,
    round_start: usize,
}

/// The model of a `LeducState`, with the chips as integers.
#[verifier::ext_equal]
pub struct LeducView {
    pub private_cards: Seq<LeducCard>,
    pub community: Option<LeducCard>,
    pub history: Seq<u8>,
    pub pot: int,
    pub stacks: Seq<int>,
    pub round: u8,
    /// Where in the history the current round began.
    pub round_start: int,
}

impl View for LeducState {
    type V = LeducView;

    closed spec fn view(&self) -> LeducView {
        LeducView {
            private_cards: self.private_cards@,
            community: self.community,
            history: self.history@,
            pot: self.pot as int,
            stacks: seq![self.stacks[0] as int, self.stacks[1] as int],
            round: self.round,
            round_start: self.round_start as int,
        }
    }
}

/// After the actions `a` of a round, a bet is outstanding: a bet or a raise
/// opens one, a call closes it.
pub open spec fn facing_bet_after(a: Seq<u8>) -> bool
    decreases a.len(),
{
    if a.len() == 0 {
        false
    } else if a.last() == BET_CALL {
        !facing_bet_after(a.drop_last())
    } else if a.last() == RAISE {
        true
    } else {
        facing_bet_after(a.drop_last())
    }
}

/// The number of bets, calls and raises among the actions `a`.
pub open spec fn bets_among(a: Seq<u8>) -> nat
    decreases a.len(),
{
    if a.len() == 0 {
        0
    } else if a.last() == BET_CALL || a.last() == RAISE {
        bets_among(a.drop_last()) + 1
    } else {
        bets_among(a.drop_last())
    }
}

/// Every action of `a` is a check.
pub open spec fn all_checks(a: Seq<u8>) -> bool {
    forall|i: int| 0 <= i < a.len() ==> #[trigger] a[i] == CHECK_PASS
}

/// A round with the actions `a` is over: both players checked, or a bet was
/// made and nothing is outstanding.
pub open spec fn round_over(a: Seq<u8>) -> bool {
    (a.len() >= 2 && all_checks(a)) || (a.len() > 0 && !facing_bet_after(a) && bets_among(a) > 0)
}

impl LeducView {
    /// The state is well formed: the current round began inside the history.
    pub open spec fn wf(self) -> bool {
        0 <= self.round_start <= self.history.len()
    }

    /// The actions of the current round.
    pub open spec fn round_actions(self) -> Seq<u8> {
        self.history.subrange(self.round_start, self.history.len() as int)
    }

    pub open spec fn facing_bet(self) -> bool {
        facing_bet_after(self.round_actions())
    }

    pub open spec fn bets_this_round(self) -> nat {
        bets_among(self.round_actions())
    }

    pub open spec fn round_complete(self) -> bool {
        round_over(self.round_actions())
    }

    /// The last action was a fold.
    pub open spec fn folded(self) -> bool {
        self.history.len() > 0 && self.history.last() == FOLD
    }

    pub open spec fn is_terminal(self) -> bool {
        self.folded() || (self.round == 1 && self.round_complete())
    }

    /// The player to act: they alternate within a round, the first player first.
    pub open spec fn current_player(self) -> int {
        (self.history.len() - self.round_start) % 2
    }

    /// The chips it costs to call the outstanding bet.
    pub open spec fn amount_to_call(self) -> int {
        if self.facing_bet() {
            if self.round_actions().contains(RAISE) {
                if self.round == 0 {
                    4
                } else {
                    8
                }
            } else if self.round == 0 {
                2
            } else {
                4
            }
        } else {
            0
        }
    }

    pub open spec fn legal_actions(self) -> Seq<u8> {
        if self.is_terminal() || (self.round == 1 && self.community is None) {
            Seq::empty()
        } else if self.facing_bet() {
            if self.bets_this_round() < 2 {
                seq![BET_CALL, RAISE, FOLD]
            } else {
                seq![BET_CALL, FOLD]
            }
        } else {
            seq![CHECK_PASS, BET_CALL]
        }
    }

    /// The chips the player to act puts in the pot with `action`.
    pub open spec fn cost(self, action: u8) -> int {
        let bet_size = if self.round == 0 {
            2int
        } else {
            4int
        };
        if action == BET_CALL {
            if self.facing_bet() {
                self.amount_to_call()
            } else {
                bet_size
            }
        } else if action == RAISE {
            self.amount_to_call() + bet_size
        } else {
            0
        }
    }

    /// The state after `action`; a terminal state, and an illegal action, change
    /// nothing. When the first round ends without a fold the second begins.
    pub open spec fn step(self, action: u8) -> LeducView {
        if self.is_terminal() || !self.legal_actions().contains(action) {
            self
        } else {
            let player = self.current_player();
            let amount = self.cost(action);
            let paid = LeducView {
                private_cards: self.private_cards,
                community: self.community,
                history: self.history.push(action),
                pot: self.pot + amount,
                stacks: self.stacks.update(player, self.stacks[player] - amount),
                round: self.round,
                round_start: self.round_start,
            };
            if action != FOLD && paid.round_complete() && self.round == 0 {
                LeducView {
                    private_cards: paid.private_cards,
                    community: paid.community,
                    history: paid.history,
                    pot: paid.pot,
                    stacks: paid.stacks,
                    round: 1,
                    round_start: paid.history.len() as int,
                }
            } else {
                paid
            }
        }
    }

    /// The chips fit the machine's integers.
    pub open spec fn fits(self) -> bool {
        &&& i64::MIN <= self.pot <= i64::MAX
        &&& i64::MIN <= self.stacks[0] <= i64::MAX
        &&& i64::MIN <= self.stacks[1] <= i64::MAX
    }

    /// A player's showdown score: a pair with the community card beats any
    /// unpaired card, and otherwise the higher card wins.
    pub open spec fn hand_score(self, player: int) -> int {
        let private = self.private_cards[player];
        if self.community == Some(private) {
            100 + card_value(private)
        } else {
            card_value(private)
        }
    }

    /// What `player` ends with when `winner` takes the pot.
    pub open spec fn payoff_for_winner(self, player: int, winner: int) -> int {
        if player == winner {
            self.pot + self.stacks[player]
        } else {
            self.stacks[player]
        }
    }

    /// The chips `player` wins or loses at the end of the hand: the player who did
    /// not fold takes the pot, else the better showdown score does, and a tie
    /// returns every player's own chips.
    pub open spec fn payoff(self, player: int) -> int {
        if self.folded() {
            let folder = (self.history.len() - self.round_start - 1) % 2;
            self.payoff_for_winner(player, 1 - folder)
        } else {
            let score0 = self.hand_score(0);
            let score1 = self.hand_score(1);
            if score0 == score1 {
                0
            } else if score0 > score1 {
                self.payoff_for_winner(player, 0)
            } else {
                self.payoff_for_winner(player, 1)
            }
        }
    }

    /// The chips in play: the pot and both stacks.
    pub open spec fn total_chips(self) -> int {
        self.pot + self.stacks[0] + self.stacks[1]
    }

    /// How many of the dealt cards (private and community) are `card`.
    pub open spec fn dealt_count(self, card: LeducCard) -> int {
        (if self.private_cards[0] == card {
            1int
        } else {
            0
        }) + (if self.private_cards[1] == card {
            1int
        } else {
            0
        }) + (if self.community == Some(card) {
            1int
        } else {
            0
        })
    }

    /// How many copies of `card` are still in the deck.
    pub open spec fn copies_left(self, card: LeducCard) -> nat {
        if self.dealt_count(card) >= 2 {
            0
        } else {
            (2 - self.dealt_count(card)) as nat
        }
    }

    /// The cards of the deck not yet dealt, in deck order.
    pub open spec fn remaining_community_cards(self) -> Seq<LeducCard> {
        Seq::new(self.copies_left(LeducCard::Jack), |_i: int| LeducCard::Jack) + Seq::new(
            self.copies_left(LeducCard::Queen),
            |_i: int| LeducCard::Queen,
        ) + Seq::new(self.copies_left(LeducCard::King), |_i: int| LeducCard::King)
    }
}

impl LeducState {
    /// The state is well formed: the current round began inside the history.
    pub open spec fn wf(&self) -> bool {
        self@.wf()
    }

    /// Deals the community card, between the rounds; nothing else changes.
    pub fn deal_community(&mut self, card: LeducCard)
        ensures
            final(self)@ == (LeducView { community: Some(card), ..old(self)@ }),
    {
        self.community = Some(card);
    }

    /// The model of a state holds two private cards, two stacks, chips that fit
    /// the machine's integers, and a round start inside the history's bounds
    /// from below.
    pub proof fn lemma_view_shape(&self)
        ensures
            self@.private_cards.len() == 2,
            self@.stacks.len() == 2,
            self@.fits(),
            0 <= self@.round_start,
    {
    }

    /// The private card of `player`.
    pub fn private_card(&self, player: usize) -> (r: LeducCard)
        requires
            player < 2,
        ensures
            r == self@.private_cards[player as int],
    {
        self.private_cards[player]
    }

    /// The community card, once dealt.
    pub fn community_card(&self) -> (r: Option<LeducCard>)
        ensures
            r == self@.community,
    {
        self.community
    }

    /// The actions of the hand so far.
    pub fn history_actions(&self) -> (r: &Vec<u8>)
        ensures
            r@ == self@.history,
    {
        &self.history
    }

    /// A new hand with the given private cards, before any action.
    pub fn new(private_cards: [LeducCard; 2]) -> (s: Self)
        ensures
            s.wf(),
            s@ == (LeducView {
                private_cards: private_cards@,
                community: None,
                history: Seq::empty(),
                pot: 2,
                stacks: seq![-1, -1],
                round: 0,
                round_start: 0,
            }),
    {
        let s = LeducState {
            private_cards,
            community: None,
            history: Vec::new(),
            pot: 2,
            stacks: [-1, -1],
            round: 0,
            round_start: 0,
        };
        assert(s@.stacks =~= seq![-1int, -1int]);
        s
    }

    /// The cards of the deck not yet dealt, in deck order.
    pub fn remaining_community_cards(&self) -> (r: Vec<LeducCard>)
        ensures
            r@ == self@.remaining_community_cards(),
    {
        let mut jacks: u8 = 0;
        let mut queens: u8 = 0;
        let mut kings: u8 = 0;
        let mut i: usize = 0;
        while i < 2
            invariant
                i <= 2,
                jacks + queens + kings == i,
                jacks == count_of(self.private_cards@.take(i as int), LeducCard::Jack),
                queens == count_of(self.private_cards@.take(i as int), LeducCard::Queen),
                kings == count_of(self.private_cards@.take(i as int), LeducCard::King),
            decreases 2 - i,
        {
            assert(self.private_cards@.take(i + 1).drop_last() =~= self.private_cards@.take(
                i as int,
            ));
            match self.private_cards[i] {
                LeducCard::Jack => jacks = jacks + 1,
                LeducCard::Queen => queens = queens + 1,
                LeducCard::King => kings = kings + 1,
            }
            i = i + 1;
        }
        match self.community {
            Some(LeducCard::Jack) => jacks = jacks + 1,
            Some(LeducCard::Queen) => queens = queens + 1,
            Some(LeducCard::King) => kings = kings + 1,
            None => {},
        }
        proof {
            assert(self.private_cards@.take(2) =~= self.private_cards@);
            reveal_with_fuel(count_of, 3);
        }
        let mut remaining = Vec::new();
        push_copies(&mut remaining, LeducCard::Jack, jacks);
        push_copies(&mut remaining, LeducCard::Queen, queens);
        push_copies(&mut remaining, LeducCard::King, kings);
        assert(remaining@ =~= self@.remaining_community_cards());
        remaining
    }

    /// Plays `action` for the player to act. A terminal state, or an action that is
    /// not legal, is left unchanged.
    pub fn apply_action(&mut self, action: u8)
        requires
            old(self)@.folded() || old(self).wf(),
            old(self)@.step(action).fits(),
        ensures
            old(self).wf() ==> final(self).wf(),
            final(self)@ == old(self)@.step(action),
    {
        if self.is_terminal() || !contains_action(&self.legal_actions(), action) {
            return;
        }
        let player = self.current_player();
        let facing_bet = self.facing_bet();
        let bet_size: i64 = if self.round == 0 {
            2
        } else {
            4
        };
        let ghost before = self@;
        if action == BET_CALL {
            let amount = if facing_bet {
                self.amount_to_call()
            } else {
                bet_size
            };
            self.stacks[player] = self.stacks[player] - amount;
            self.pot = self.pot + amount;
        } else if action == RAISE {
            let amount = self.amount_to_call() + bet_size;
            self.stacks[player] = self.stacks[player] - amount;
            self.pot = self.pot + amount;
        }
        self.history.push(action);
        assert(self@.stacks =~= before.stacks.update(player as int, before.stacks[player as int]
            - before.cost(action)));
        assert(self@.history == before.history.push(action));
        if action != FOLD && self.round_complete() && self.round == 0 {
            self.round = 1;
            self.round_start = self.history.len();
        }
    }

    pub fn is_terminal(&self) -> (r: bool)
        requires
            self@.folded() || self@.round != 1 || self.wf(),
        ensures
            r == self@.is_terminal(),
    {
        let folded = self.history.len() > 0 && self.history[self.history.len() - 1] == FOLD;
        folded || (self.round == 1 && self.round_complete())
    }

    /// The chips `player` wins (positive) or loses (negative) at the end of the
    /// hand.
    pub fn payoff(&self, player: usize) -> (r: i64)
        requires
            player < 2,
            self@.folded() ==> self@.round_start < self@.history.len(),
            i64::MIN <= self@.payoff(player as int) <= i64::MAX,
        ensures
            r == self@.payoff(player as int),
    {
        if self.history.len() > 0 && self.history[self.history.len() - 1] == FOLD {
            let folder = (self.history.len() - self.round_start - 1) % 2;
            let winner = 1 - folder;
            return self.payoff_for_winner(player, winner);
        }
        let score0 = self.hand_score(0);
        let score1 = self.hand_score(1);
        if score0 == score1 {
            0
        } else if score0 > score1 {
            self.payoff_for_winner(player, 0)
        } else {
            self.payoff_for_winner(player, 1)
        }
    }

    /// The player to act, 0 or 1.
    pub fn current_player(&self) -> (r: usize)
        requires
            self.wf(),
        ensures
            r == self@.current_player(),
            r < 2,
    {
        (self.history.len() - self.round_start) % 2
    }

    /// The actions the player to act may take.
    pub fn legal_actions(&self) -> (r: Vec<u8>)
        requires
            self@.folded() || self.wf(),
        ensures
            r@ == self@.legal_actions(),
    {
        let mut actions = Vec::new();
        if self.is_terminal() || (self.round == 1 && self.community.is_none()) {
            return actions;
        }
        if self.facing_bet() {
            actions.push(BET_CALL);
            if self.bets_this_round() < 2 {
                actions.push(RAISE);
            }
            actions.push(FOLD);
        } else {
            actions.push(CHECK_PASS);
            actions.push(BET_CALL);
        }
        assert(actions@ =~= self@.legal_actions());
        actions
    }

    fn payoff_for_winner(&self, player: usize, winner: usize) -> (r: i64)
        requires
            player < 2,
            i64::MIN <= self@.payoff_for_winner(player as int, winner as int) <= i64::MAX,
        ensures
            r == self@.payoff_for_winner(player as int, winner as int),
    {
        if player == winner {
            self.pot + self.stacks[player]
        } else {
            self.stacks[player]
        }
    }

    fn hand_score(&self, player: usize) -> (r: i64)
        requires
            player < 2,
        ensures
            r == self@.hand_score(player as int),
    {
        let private = self.private_cards[player];
        match self.community {
            Some(community) if community == private => 100 + private.value(),
            _ => private.value(),
        }
    }

    /// The actions of the current round.
    fn round_actions(&self) -> (r: &[u8])
        requires
            self.wf(),
        ensures
            r@ == self@.round_actions(),
    {
        vstd::slice::slice_subrange(self.history.as_slice(), self.round_start, self.history.len())
    }

    fn bets_this_round(&self) -> (r: usize)
        requires
            self.wf(),
        ensures
            r == self@.bets_this_round(),
    {
        let actions = self.round_actions();
        let mut count: usize = 0;
        let mut i: usize = 0;
        while i < actions.len()
            invariant
                i <= actions@.len(),
                count == bets_among(actions@.take(i as int)),
                count <= i,
            decreases actions@.len() - i,
        {
            assert(actions@.take(i + 1).drop_last() =~= actions@.take(i as int));
            let action = actions[i];
            if action == BET_CALL || action == RAISE {
                count = count + 1;
            }
            i = i + 1;
        }
        assert(actions@.take(i as int) =~= actions@);
        count
    }

    fn facing_bet(&self) -> (r: bool)
        requires
            self.wf(),
        ensures
            r == self@.facing_bet(),
    {
        let actions = self.round_actions();
        let mut outstanding = false;
        let mut i: usize = 0;
        while i < actions.len()
            invariant
                i <= actions@.len(),
                outstanding == facing_bet_after(actions@.take(i as int)),
            decreases actions@.len() - i,
        {
            assert(actions@.take(i + 1).drop_last() =~= actions@.take(i as int));
            let action = actions[i];
            if action == BET_CALL {
                outstanding = !outstanding;
            } else if action == RAISE {
                outstanding = true;
            }
            i = i + 1;
        }
        assert(actions@.take(i as int) =~= actions@);
        outstanding
    }

    fn amount_to_call(&self) -> (r: i64)
        requires
            self.wf(),
        ensures
            r == self@.amount_to_call(),
    {
        if self.facing_bet() {
            if slice_contains_action(self.round_actions(), RAISE) {
                if self.round == 0 {
                    4
                } else {
                    8
                }
            } else if self.round == 0 {
                2
            } else {
                4
            }
        } else {
            0
        }
    }

    fn round_complete(&self) -> (r: bool)
        requires
            self.wf(),
        ensures
            r == self@.round_complete(),
    {
        let actions = self.round_actions();
        let mut checks_only = true;
        let mut i: usize = 0;
        while i < actions.len()
            invariant
                i <= actions@.len(),
                checks_only == (forall|j: int| 0 <= j < i ==> actions@[j] == CHECK_PASS),
            decreases actions@.len() - i,
        {
            if actions[i] != CHECK_PASS {
                checks_only = false;
            }
            i = i + 1;
        }
        if actions.len() >= 2 && checks_only {
            return true;
        }
        actions.len() > 0 && !self.facing_bet() && self.bets_this_round() > 0
    }
}

/// How many times `card` occurs in `cards`.
pub open spec fn count_of(cards: Seq<LeducCard>, card: LeducCard) -> int
    decreases cards.len(),
{
    if cards.len() == 0 {
        0
    } else {
        count_of(cards.drop_last(), card) + if cards.last() == card {
            1int
        } else {
            0
        }
    }
}

fn contains_action(actions: &Vec<u8>, action: u8) -> (r: bool)
    ensures
        r == actions@.contains(action),
{
    slice_contains_action(actions.as_slice(), action)
}

fn slice_contains_action(actions: &[u8], action: u8) -> (r: bool)
    ensures
        r == actions@.contains(action),
{
    let mut i: usize = 0;
    while i < actions.len()
        invariant
            i <= actions@.len(),
            forall|j: int| 0 <= j < i ==> actions@[j] != action,
        decreases actions@.len() - i,
    {
        if actions[i] == action {
            return true;
        }
        i = i + 1;
    }
    false
}

/// Appends the copies of `card` that remain after `dealt` of its two were dealt.
fn push_copies(out: &mut Vec<LeducCard>, card: LeducCard, dealt: u8)
    ensures
        final(out)@ == old(out)@ + Seq::new(
            if dealt >= 2 {
                0nat
            } else {
                (2 - dealt) as nat
            },
            |_i: int| card,
        ),
{
    let mut copies: u8 = if dealt >= 2 {
        0
    } else {
        2 - dealt
    };
    let ghost start = old(out)@;
    let ghost total = copies;
    while copies > 0
        invariant
            copies <= total,
            out@ == start + Seq::new((total - copies) as nat, |_i: int| card),
        decreases copies,
    {
        out.push(card);
        copies = copies - 1;
        assert(out@ =~= start + Seq::new((total - copies) as nat, |_i: int| card));
    }
    assert(out@ =~= start + Seq::new(total as nat, |_i: int| card));
}

// ---------------------------------------------------------------------------
// Laws
// ---------------------------------------------------------------------------

/// An action moves chips from the acting player's stack to the pot, so the
/// chips in play never change.
pub proof fn lemma_step_keeps_chips(v: LeducView, action: u8)
    requires
        v.wf(),
        v.stacks.len() == 2,
    ensures
        v.step(action).total_chips() == v.total_chips(),
        v.step(action).wf(),
        v.step(action).stacks.len() == 2,
{
}

/// A new hand holds no chips in play: both antes are in the pot.
pub proof fn lemma_new_hand_balanced(private_cards: Seq<LeducCard>)
    ensures
        (LeducView {
            private_cards,
            community: None,
            history: Seq::empty(),
            pot: 2,
            stacks: seq![-1, -1],
            round: 0,
            round_start: 0,
        }).total_chips() == 0,
{
}

/// Leduc poker is zero-sum: when no chips were created, what one player wins the
/// other loses.
pub proof fn lemma_payoff_zero_sum(v: LeducView)
    requires
        v.stacks.len() == 2,
        v.total_chips() == 0,
    ensures
        v.payoff(0) + v.payoff(1) == 0,
{
}

/// An action only moves forward: the pot grows, stacks shrink, the round never
/// goes back, and the history grows by that action or not at all.
pub proof fn lemma_step_moves_forward(v: LeducView, action: u8)
    requires
        v.wf(),
        v.stacks.len() == 2,
        v.round <= 1,
    ensures
        v.step(action).pot >= v.pot,
        v.step(action).stacks[0] <= v.stacks[0],
        v.step(action).stacks[1] <= v.stacks[1],
        v.round <= v.step(action).round <= 1,
        v.step(action).history == v.history || v.step(action).history == v.history.push(action),
        v.step(action).total_chips() == v.total_chips(),
{
}

/// A fold ends the hand and gives the pot to the other player: the folder, the
/// player who was to act, keeps only their stack, and the other
/// player takes the pot on top of theirs.
pub proof fn lemma_fold_gives_pot_to_other(u: LeducView)
    requires
        u.wf(),
        u.stacks.len() == 2,
        !u.is_terminal(),
        u.legal_actions().contains(FOLD),
    ensures
        u.step(FOLD).is_terminal(),
        u.step(FOLD).folded(),
        u.step(FOLD).payoff(u.current_player()) == u.stacks[u.current_player()],
        u.step(FOLD).payoff(1 - u.current_player()) == u.pot + u.stacks[1 - u.current_player()],
{
    let v = u.step(FOLD);
    assert(v.history == u.history.push(FOLD));
    assert(v.round_start == u.round_start);
    assert(v.history.last() == FOLD);
}

/// A finished hand offers no actions, and an action there changes nothing.
pub proof fn lemma_terminal_is_final(v: LeducView, action: u8)
    requires
        v.is_terminal(),
    ensures
        v.legal_actions().len() == 0,
        v.step(action) == v,
{
}

/// Each copy of a card is either dealt or still in the deck, as long as no card
/// was dealt more often than the deck holds it.
pub proof fn lemma_remaining_cards_complement(v: LeducView, card: LeducCard)
    requires
        v.dealt_count(LeducCard::Jack) <= 2,
        v.dealt_count(LeducCard::Queen) <= 2,
        v.dealt_count(LeducCard::King) <= 2,
    ensures
        v.remaining_community_cards().to_multiset().count(card) + v.dealt_count(card) == 2,
        v.remaining_community_cards().len() + v.dealt_count(LeducCard::Jack) + v.dealt_count(
            LeducCard::Queen,
        ) + v.dealt_count(LeducCard::King) == 6,
{
    broadcast use vstd::seq_lib::group_to_multiset_ensures;
    let j = Seq::new(v.copies_left(LeducCard::Jack), |_i: int| LeducCard::Jack);
    let q = Seq::new(v.copies_left(LeducCard::Queen), |_i: int| LeducCard::Queen);
    let k = Seq::new(v.copies_left(LeducCard::King), |_i: int| LeducCard::King);
    lemma_repeat_count(LeducCard::Jack, v.copies_left(LeducCard::Jack), card);
    lemma_repeat_count(LeducCard::Queen, v.copies_left(LeducCard::Queen), card);
    lemma_repeat_count(LeducCard::King, v.copies_left(LeducCard::King), card);
    vstd::seq_lib::lemma_multiset_commutative(j, q);
    vstd::seq_lib::lemma_multiset_commutative(j + q, k);
}

proof fn lemma_repeat_count(c: LeducCard, n: nat, card: LeducCard)
    ensures
        Seq::new(n, |_i: int| c).to_multiset().count(card) == if c == card {
            n
        } else {
            0
        },
    decreases n,
{
    broadcast use vstd::seq_lib::group_to_multiset_ensures;
    if n > 0 {
        lemma_repeat_count(c, (n - 1) as nat, card);
        assert(Seq::new(n, |_i: int| c) =~= Seq::new((n - 1) as nat, |_i: int| c).push(c));
    } else {
        assert(Seq::new(n, |_i: int| c) =~= Seq::<LeducCard>::empty());
    }
}


/// The number of raises among the actions `a`.
pub open spec fn raises_among(a: Seq<u8>) -> nat
    decreases a.len(),
{
    if a.len() == 0 {
        0
    } else if a.last() == RAISE {
        raises_among(a.drop_last()) + 1
    } else {
        raises_among(a.drop_last())
    }
}

/// A round holds at most one raise, and a raise follows a bet.
pub open spec fn raise_limit_holds(v: LeducView) -> bool {
    &&& v.wf()
    &&& raises_among(v.round_actions()) <= 1
    &&& raises_among(v.round_actions()) == 1 ==> bets_among(v.round_actions()) >= 2
}

proof fn lemma_facing_needs_a_bet(a: Seq<u8>)
    ensures
        facing_bet_after(a) ==> bets_among(a) >= 1,
    decreases a.len(),
{
    if a.len() > 0 {
        lemma_facing_needs_a_bet(a.drop_last());
    }
}

/// A new hand has no raise yet.
pub proof fn lemma_raise_limit_initially(private_cards: Seq<LeducCard>)
    ensures
        raise_limit_holds(
            LeducView {
                private_cards,
                community: None,
                history: Seq::empty(),
                pot: 2,
                stacks: seq![-1, -1],
                round: 0,
                round_start: 0,
            },
        ),
{
    let v = LeducView {
        private_cards,
        community: None,
        history: Seq::empty(),
        pot: 2,
        stacks: seq![-1, -1],
        round: 0,
        round_start: 0,
    };
    assert(v.round_actions() =~= Seq::<u8>::empty());
}

/// Betting is capped: every action keeps each round at one raise at most, so no
/// round holds a re-raise.
pub proof fn lemma_raise_limit_kept(v: LeducView, action: u8)
    requires
        raise_limit_holds(v),
    ensures
        raise_limit_holds(v.step(action)),
{
    if !(v.is_terminal() || !v.legal_actions().contains(action)) {
        let a = v.round_actions();
        let paid_history = v.history.push(action);
        let a2 = paid_history.subrange(v.round_start, paid_history.len() as int);
        assert(a2 =~= a.push(action));
        assert(a2.drop_last() =~= a);
        lemma_facing_needs_a_bet(a);
        let w = v.step(action);
        if w.round_start == w.history.len() {
            assert(w.round_actions() =~= Seq::<u8>::empty());
        } else {
            assert(w.round_actions() == a2);
            if action == RAISE {
                assert(v.legal_actions().contains(RAISE));
                assert(v.facing_bet() && v.bets_this_round() < 2);
            }
        }
    }
}
} // verus!
