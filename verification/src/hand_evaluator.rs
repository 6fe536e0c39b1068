use vstd::prelude::*;
use vstd::multiset::Multiset;

verus! {

broadcast use vstd::seq_lib::group_to_multiset_ensures;

/// The value of a poker hand: a category, and inside the category a number that
/// orders hands of that category (higher is better).
#[derive(PartialEq, Eq, Structural, PartialOrd, Ord, Debug, Clone, Copy)]
pub enum HandRank {
    HighCard(u32),
    OnePair(u32),
    TwoPair(u32),
    ThreeOfAKind(u32),
    Straight(u32),
    Flush(u32),
    FullHouse(u32),
    FourOfAKind(u32),
    StraightFlush(u32),
}

// ---------------------------------------------------------------------------
// The model of a hand.
//
// A card is a number below 52: its rank (2 up to the ace) is `card / 4`, in
// 0..13, and its suit is `card % 4`. A hand is the multiset of its cards, so
// nothing below depends on the order in which the cards are given.
// ---------------------------------------------------------------------------

/// The card of a given rank and suit.
pub open spec fn card_of(rank: int, suit: int) -> u8 {
    (4 * rank + suit) as u8
}

/// How many cards of the hand have the given rank.
pub open spec fn rank_count(m: Multiset<u8>, rank: int) -> nat {
    m.count(card_of(rank, 0)) + m.count(card_of(rank, 1)) + m.count(card_of(rank, 2)) + m.count(
        card_of(rank, 3),
    )
}

/// How many cards of the hand have the given suit and a rank below `n`.
pub open spec fn suit_count_below(m: Multiset<u8>, suit: int, n: int) -> nat
    decreases n,
{
    if n <= 0 {
        0
    } else {
        suit_count_below(m, suit, n - 1) + m.count(card_of(n - 1, suit))
    }
}

/// How many cards of the hand have the given suit.
pub open spec fn suit_count(m: Multiset<u8>, suit: int) -> nat {
    suit_count_below(m, suit, 13)
}

/// The number of cards of each rank, indexed by rank.
pub open spec fn rank_counts(m: Multiset<u8>) -> Seq<u8> {
    Seq::new(13, |r: int| rank_count(m, r) as u8)
}

/// The number of cards of each rank in one suit, indexed by rank.
pub open spec fn suited_rank_counts(m: Multiset<u8>, suit: int) -> Seq<u8> {
    Seq::new(13, |r: int| m.count(card_of(r, suit)) as u8)
}

/// Every card of the sequence is a card of the deck.
pub open spec fn valid_cards(cards: Seq<u8>) -> bool {
    forall|i: int| 0 <= i < cards.len() ==> #[trigger] cards[i] < 52
}

proof fn lemma_suit_count_insert(m: Multiset<u8>, c: u8, suit: int, n: int)
    requires
        c < 52,
        0 <= suit < 4,
        0 <= n <= 13,
    ensures
        suit_count_below(m.insert(c), suit, n) == suit_count_below(m, suit, n) + (if c % 4 == suit
            && c / 4 < n {
            1int
        } else {
            0int
        }),
    decreases n,
{
    if n > 0 {
        lemma_suit_count_insert(m, c, suit, n - 1);
    }
}

proof fn lemma_suit_count_empty(suit: int, n: int)
    ensures
        suit_count_below(Multiset::<u8>::empty(), suit, n) == 0,
    decreases n,
{
    if n > 0 {
        lemma_suit_count_empty(suit, n - 1);
    }
}

/// The sum of the first `n` counts.
pub open spec fn count_sum(c: Seq<u8>, n: int) -> int
    decreases n,
{
    if n <= 0 {
        0
    } else {
        count_sum(c, n - 1) + c[n - 1]
    }
}

proof fn lemma_count_sum_update(c: Seq<u8>, r: int, v: u8, n: int)
    requires
        0 <= r < c.len(),
        n <= c.len(),
    ensures
        count_sum(c.update(r, v), n) == count_sum(c, n) + (if r < n { v - c[r] } else { 0 }),
    decreases n,
{
    if n > 0 {
        lemma_count_sum_update(c, r, v, n - 1);
    }
}

proof fn lemma_count_sum_zero(c: Seq<u8>, n: int)
    requires
        n <= c.len(),
        forall|i: int| 0 <= i < c.len() ==> c[i] == 0,
    ensures
        count_sum(c, n) == 0,
    decreases n,
{
    if n > 0 {
        lemma_count_sum_zero(c, n - 1);
    }
}

/// The counts of a hand: by rank, by suit, and by card.
struct Tally {
    ranks: [u8; 13],
    suits: [u8; 4],
    cards: [u8; 52],
}

impl Tally {
    spec fn describes(&self, m: Multiset<u8>) -> bool {
        &&& forall|r: int| 0 <= r < 13 ==> self.ranks@[r] == rank_count(m, r)
        &&& forall|s: int| 0 <= s < 4 ==> self.suits@[s] == suit_count(m, s)
        &&& forall|c: int| 0 <= c < 52 ==> self.cards@[c] == m.count(c as u8)
    }
}

fn tally(hand: &[u8]) -> (t: Tally)
    requires
        hand@.len() <= 7,
        valid_cards(hand@),
    ensures
        t.describes(hand@.to_multiset()),
        count_sum(t.ranks@, 13) == hand@.len(),
{
    let mut t = Tally { ranks: [0u8; 13], suits: [0u8; 4], cards: [0u8; 52] };
    let mut i: usize = 0;
    assert(hand@.take(0).to_multiset() =~= Multiset::empty());
    proof {
        lemma_count_sum_zero(t.ranks@, 13);
    }
    proof {
        assert forall|s: int| 0 <= s < 4 implies suit_count(Multiset::<u8>::empty(), s) == 0 by {
            lemma_suit_count_empty(s, 13);
        }
    }
    while i < hand.len()
        invariant
            0 <= i <= hand@.len() <= 7,
            valid_cards(hand@),
            t.describes(hand@.take(i as int).to_multiset()),
            forall|r: int| 0 <= r < 13 ==> t.ranks@[r] <= i,
            forall|s: int| 0 <= s < 4 ==> t.suits@[s] <= i,
            forall|c: int| 0 <= c < 52 ==> t.cards@[c] <= i,
            count_sum(t.ranks@, 13) == i,
        decreases hand@.len() - i,
    {
        let card = hand[i];
        let ghost before = hand@.take(i as int).to_multiset();
        assert(hand@.take(i + 1) =~= hand@.take(i as int).push(card));
        let ghost after = hand@.take(i + 1).to_multiset();
        assert(after =~= before.insert(card));
        let ghost t0 = t;
        let rank = (card / 4) as usize;
        let suit = (card % 4) as usize;
        t.ranks[rank] = t.ranks[rank] + 1;
        proof {
            lemma_count_sum_update(t0.ranks@, rank as int, t.ranks@[rank as int], 13);
            assert(t.ranks@ =~= t0.ranks@.update(rank as int, t.ranks@[rank as int]));
        }
        t.suits[suit] = t.suits[suit] + 1;
        t.cards[card as usize] = t.cards[card as usize] + 1;
        proof {
            assert forall|s: int| 0 <= s < 4 implies t.suits@[s] == suit_count(after, s) by {
                lemma_suit_count_insert(before, card, s, 13);
                assert(t0.suits@[s] == suit_count(before, s));
            }
            assert forall|r: int| 0 <= r < 13 implies t.ranks@[r] == rank_count(after, r) by {
                assert(t0.ranks@[r] == rank_count(before, r));
                assert(card == card_of((card / 4) as int, (card % 4) as int));
            }
            assert forall|c: int| 0 <= c < 52 implies t.cards@[c] == after.count(c as u8) by {
                assert(t0.cards@[c] == before.count(c as u8));
            }
        }
        i = i + 1;
    }
    assert(hand@.take(hand@.len() as int) =~= hand@);
    t
}


// ---------------------------------------------------------------------------
// Straights
// ---------------------------------------------------------------------------

/// The five ranks `high - 4 ..= high` are all present.
pub open spec fn run_ending_at(c: Seq<u8>, high: int) -> bool {
    c[high - 4] > 0 && c[high - 3] > 0 && c[high - 2] > 0 && c[high - 1] > 0 && c[high] > 0
}

/// The ace plays low: ace, two, three, four and five are all present.
pub open spec fn wheel(c: Seq<u8>) -> bool {
    c[12] > 0 && c[0] > 0 && c[1] > 0 && c[2] > 0 && c[3] > 0
}

/// The top rank of the best straight whose top rank is at most `high`; a wheel
/// counts as a straight whose top rank is the five (rank 3).
pub open spec fn straight_high_at_most(c: Seq<u8>, high: int) -> Option<u8>
    decreases high,
{
    if high < 4 {
        if wheel(c) {
            Some(3u8)
        } else {
            None
        }
    } else if run_ending_at(c, high) {
        Some(high as u8)
    } else {
        straight_high_at_most(c, high - 1)
    }
}

/// The top rank of the best straight in the counts `c` (indexed by rank).
pub open spec fn best_straight(c: Seq<u8>) -> Option<u8> {
    straight_high_at_most(c, 12)
}

fn straight_high(rank_counts: &[u8; 13]) -> (r: Option<u8>)
    ensures
        r == best_straight(rank_counts@),
{
    let mut high: usize = 12;
    while high >= 4
        invariant
            3 <= high <= 12,
            best_straight(rank_counts@) == straight_high_at_most(rank_counts@, high as int),
        decreases high,
    {
        if rank_counts[high - 4] > 0 && rank_counts[high - 3] > 0 && rank_counts[high - 2] > 0
            && rank_counts[high - 1] > 0 && rank_counts[high] > 0 {
            return Some(high as u8);
        }
        high = high - 1;
    }
    if rank_counts[12] > 0 && rank_counts[0] > 0 && rank_counts[1] > 0 && rank_counts[2] > 0
        && rank_counts[3] > 0 {
        Some(3)
    } else {
        None
    }
}

// ---------------------------------------------------------------------------
// Lists of ranks, highest first
// ---------------------------------------------------------------------------

/// The ranks below `n` that occur exactly `k` times, highest first.
pub open spec fn ranks_with_count_below(c: Seq<u8>, k: u8, n: int) -> Seq<u8>
    decreases n,
{
    if n <= 0 {
        Seq::empty()
    } else if c[n - 1] == k {
        seq![(n - 1) as u8] + ranks_with_count_below(c, k, n - 1)
    } else {
        ranks_with_count_below(c, k, n - 1)
    }
}

/// The ranks that occur exactly `k` times, highest first.
pub open spec fn ranks_with_count(c: Seq<u8>, k: u8) -> Seq<u8> {
    ranks_with_count_below(c, k, 13)
}

/// The ranks below `n` that occur at all and are not in `excluded`, highest first.
pub open spec fn present_excluding_below(c: Seq<u8>, excluded: Seq<u8>, n: int) -> Seq<u8>
    decreases n,
{
    if n <= 0 {
        Seq::empty()
    } else if c[n - 1] > 0 && !excluded.contains((n - 1) as u8) {
        seq![(n - 1) as u8] + present_excluding_below(c, excluded, n - 1)
    } else {
        present_excluding_below(c, excluded, n - 1)
    }
}

/// The ranks that occur at all and are not in `excluded`, highest first.
pub open spec fn present_excluding(c: Seq<u8>, excluded: Seq<u8>) -> Seq<u8> {
    present_excluding_below(c, excluded, 13)
}

/// The `i`-th element of `s`, or 0 where `s` is too short.
pub open spec fn nth_or_zero(s: Seq<u8>, i: int) -> u8 {
    if 0 <= i < s.len() {
        s[i]
    } else {
        0
    }
}

/// The `count` highest ranks present and not excluded, padded with zeros to five.
pub open spec fn top_ranks(c: Seq<u8>, excluded: Seq<u8>, count: int) -> Seq<u8> {
    Seq::new(5, |i: int| if i < count { nth_or_zero(present_excluding(c, excluded), i) } else { 0 })
}

proof fn lemma_ranks_with_count_bounded(c: Seq<u8>, k: u8, n: int)
    requires
        n <= 13,
    ensures
        ranks_with_count_below(c, k, n).len() <= if n < 0 { 0 } else { n },
        forall|i: int|
            0 <= i < ranks_with_count_below(c, k, n).len() ==> #[trigger] ranks_with_count_below(
                c,
                k,
                n,
            )[i] < n,
    decreases n,
{
    if n > 0 {
        lemma_ranks_with_count_bounded(c, k, n - 1);
    }
}

proof fn lemma_present_excluding_bounded(c: Seq<u8>, excluded: Seq<u8>, n: int)
    requires
        n <= 13,
    ensures
        present_excluding_below(c, excluded, n).len() <= if n < 0 { 0 } else { n },
        forall|i: int|
            0 <= i < present_excluding_below(c, excluded, n).len()
                ==> #[trigger] present_excluding_below(c, excluded, n)[i] < n,
    decreases n,
{
    if n > 0 {
        lemma_present_excluding_bounded(c, excluded, n - 1);
    }
}

/// The ranks that occur exactly `k` times, highest first, in the first `len`
/// slots of the array; the other slots hold 0.
fn ranks_with_count_of(rank_counts: &[u8; 13], k: u8) -> (r: ([u8; 13], usize))
    ensures
        r.1 == ranks_with_count(rank_counts@, k).len(),
        forall|i: int| 0 <= i < 13 ==> r.0@[i] == nth_or_zero(ranks_with_count(rank_counts@, k), i),
        forall|i: int| 0 <= i < 13 ==> r.0@[i] < 13,
{
    let ghost c = rank_counts@;
    let mut found = [0u8; 13];
    let mut len: usize = 0;
    let mut n: usize = 13;
    proof {
        lemma_ranks_with_count_bounded(c, k, 13);
    }
    while n > 0
        invariant
            n <= 13,
            len + n <= 13,
            c == rank_counts@,
            found@.take(len as int) + ranks_with_count_below(c, k, n as int) == ranks_with_count(c, k),
            forall|i: int| len <= i < 13 ==> found@[i] == 0,
            forall|i: int| 0 <= i < 13 ==> found@[i] < 13,
        decreases n,
    {
        n = n - 1;
        if rank_counts[n] == k {
            let ghost before = found@.take(len as int);
            found[len] = n as u8;
            len = len + 1;
            assert(found@.take(len as int) =~= before.push(n as u8));
            assert(found@.take(len as int) + ranks_with_count_below(c, k, n as int) =~= before + (
            seq![n as u8] + ranks_with_count_below(c, k, n as int)));
        }
    }
    assert(found@.take(len as int) =~= ranks_with_count(c, k));
    (found, len)
}

fn slice_contains(s: &[u8], x: u8) -> (r: bool)
    ensures
        r == s@.contains(x),
{
    let mut i: usize = 0;
    while i < s.len()
        invariant
            i <= s@.len(),
            forall|j: int| 0 <= j < i ==> s@[j] != x,
        decreases s@.len() - i,
    {
        if s[i] == x {
            return true;
        }
        i = i + 1;
    }
    false
}

/// The `count` highest ranks present in `rank_counts` and not in `excluded`,
/// highest first, padded with zeros.
fn top_excluding(rank_counts: &[u8; 13], excluded: &[u8], count: usize) -> (r: [u8; 5])
    requires
        1 <= count <= 5,
    ensures
        r@ == top_ranks(rank_counts@, excluded@, count as int),
        forall|i: int| 0 <= i < 5 ==> r@[i] < 13,
{
    let ghost c = rank_counts@;
    let ghost e = excluded@;
    let ghost whole = present_excluding(c, e);
    let mut ranks = [0u8; 5];
    let mut len: usize = 0;
    let mut n: usize = 13;
    proof {
        lemma_present_excluding_bounded(c, e, 13);
    }
    while n > 0 && len < count
        invariant
            n <= 13,
            len <= count <= 5,
            c == rank_counts@,
            e == excluded@,
            ranks@.take(len as int) + present_excluding_below(c, e, n as int) == whole,
            forall|i: int| len <= i < 5 ==> ranks@[i] == 0,
            forall|i: int| 0 <= i < 5 ==> ranks@[i] < 13,
        decreases n,
    {
        n = n - 1;
        if rank_counts[n] != 0 && !slice_contains(excluded, n as u8) {
            let ghost before = ranks@.take(len as int);
            ranks[len] = n as u8;
            len = len + 1;
            assert(ranks@.take(len as int) =~= before.push(n as u8));
            assert(ranks@.take(len as int) + present_excluding_below(c, e, n as int) =~= before + (
            seq![n as u8] + present_excluding_below(c, e, n as int)));
        }
    }
    proof {
        if n == 0 {
            assert(ranks@.take(len as int) =~= whole);
        }
        assert forall|i: int| 0 <= i < 5 implies ranks@[i] == top_ranks(c, e, count as int)[i] by {
            if i < len {
                assert(ranks@.take(len as int)[i] == ranks@[i]);
            }
        }
    }
    assert(ranks@ =~= top_ranks(c, e, count as int));
    ranks
}

fn highest_excluding(rank_counts: &[u8; 13], excluded: u8) -> (r: u8)
    ensures
        r == nth_or_zero(present_excluding(rank_counts@, seq![excluded]), 0),
        r < 13,
{
    let excluded_ranks = [excluded];
    assert(excluded_ranks@ =~= seq![excluded]);
    top_excluding(rank_counts, excluded_ranks.as_slice(), 1)[0]
}

// ---------------------------------------------------------------------------
// Packing a list of ranks into one number
// ---------------------------------------------------------------------------

/// The ranks read as the digits of a number in base 13, the first the most
/// significant.
pub open spec fn pack_value(s: Seq<u8>) -> nat
    decreases s.len(),
{
    if s.len() == 0 {
        0
    } else {
        pack_value(s.drop_last()) * 13 + s.last() as nat
    }
}

/// 13 to the power `n`.
pub open spec fn pow13(n: nat) -> nat
    decreases n,
{
    if n == 0 {
        1
    } else {
        13 * pow13((n - 1) as nat)
    }
}

proof fn lemma_pack_prefix_le(s: Seq<u8>, i: int)
    requires
        0 <= i <= s.len(),
    ensures
        pack_value(s.take(i)) <= pack_value(s),
    decreases s.len(),
{
    if i < s.len() {
        assert(s.drop_last().take(i) =~= s.take(i));
        lemma_pack_prefix_le(s.drop_last(), i);
    } else {
        assert(s.take(i) =~= s);
    }
}

proof fn lemma_pack_bound(s: Seq<u8>)
    requires
        forall|i: int| 0 <= i < s.len() ==> #[trigger] s[i] < 13,
    ensures
        pack_value(s) < pow13(s.len()),
    decreases s.len(),
{
    if s.len() > 0 {
        lemma_pack_bound(s.drop_last());
    }
}

fn pack_ranks(ranks: &[u8]) -> (r: u32)
    requires
        pack_value(ranks@) <= u32::MAX,
    ensures
        r == pack_value(ranks@),
{
    let mut acc: u32 = 0;
    let mut i: usize = 0;
    while i < ranks.len()
        invariant
            i <= ranks@.len(),
            pack_value(ranks@) <= u32::MAX,
            acc == pack_value(ranks@.take(i as int)),
        decreases ranks@.len() - i,
    {
        proof {
            lemma_pack_prefix_le(ranks@, i + 1);
            assert(ranks@.take(i + 1).drop_last() =~= ranks@.take(i as int));
        }
        acc = acc * 13 + ranks[i] as u32;
        i = i + 1;
    }
    assert(ranks@.take(i as int) =~= ranks@);
    acc
}

// ---------------------------------------------------------------------------
// All ranks of a hand, highest first
// ---------------------------------------------------------------------------

/// Every rank below `n` repeated as often as it occurs, highest first.
pub open spec fn sorted_ranks_below(c: Seq<u8>, n: int) -> Seq<u8>
    decreases n,
{
    if n <= 0 {
        Seq::empty()
    } else {
        Seq::new(c[n - 1] as nat, |_i: int| (n - 1) as u8) + sorted_ranks_below(c, n - 1)
    }
}

/// The ranks of all cards of the hand, highest first.
pub open spec fn sorted_ranks(c: Seq<u8>) -> Seq<u8> {
    sorted_ranks_below(c, 13)
}

proof fn lemma_sorted_ranks_len(c: Seq<u8>, n: int)
    requires
        n <= 13,
    ensures
        sorted_ranks_below(c, n).len() == count_sum(c, n),
        forall|i: int|
            0 <= i < sorted_ranks_below(c, n).len() ==> #[trigger] sorted_ranks_below(c, n)[i] < 13,
    decreases n,
{
    if n > 0 {
        lemma_sorted_ranks_len(c, n - 1);
        let head = Seq::new(c[n - 1] as nat, |_i: int| (n - 1) as u8);
        assert forall|i: int|
            0 <= i < sorted_ranks_below(c, n).len() implies #[trigger] sorted_ranks_below(c, n)[i]
            < 13 by {
            if i >= head.len() {
                assert(sorted_ranks_below(c, n)[i] == sorted_ranks_below(c, n - 1)[i - head.len()]);
            }
        }
    }
}

/// The five ranks of a five-card hand, highest first.
fn ranks_high_to_low(rank_counts: &[u8; 13]) -> (r: [u8; 5])
    requires
        count_sum(rank_counts@, 13) == 5,
    ensures
        r@ == sorted_ranks(rank_counts@),
        forall|i: int| 0 <= i < 5 ==> r@[i] < 13,
{
    let ghost c = rank_counts@;
    let ghost whole = sorted_ranks(c);
    let mut out = [0u8; 5];
    let mut idx: usize = 0;
    let mut n: usize = 13;
    while n > 0
        invariant
            n <= 13,
            c == rank_counts@,
            idx + count_sum(c, n as int) == 5,
            out@.take(idx as int) + sorted_ranks_below(c, n as int) == whole,
            forall|i: int| 0 <= i < 5 ==> out@[i] < 13,
        decreases n,
    {
        n = n - 1;
        let copies = rank_counts[n];
        let mut j: u8 = 0;
        proof {
            lemma_count_sum_nonneg(c, n as int);
        }
        while j < copies
            invariant
                n < 13,
                j <= copies,
                copies == c[n as int],
                c == rank_counts@,
                count_sum(c, n as int) >= 0,
                idx + (copies - j) + count_sum(c, n as int) == 5,
                out@.take(idx as int) + (Seq::new((copies - j) as nat, |_i: int| n as u8)
                    + sorted_ranks_below(c, n as int)) == whole,
                forall|i: int| 0 <= i < 5 ==> out@[i] < 13,
            decreases copies - j,
        {
            let ghost before = out@.take(idx as int);
            let ghost rest = sorted_ranks_below(c, n as int);
            out[idx] = n as u8;
            idx = idx + 1;
            j = j + 1;
            assert(out@.take(idx as int) =~= before.push(n as u8));
            assert(Seq::new((copies - j + 1) as nat, |_i: int| n as u8) =~= seq![n as u8]
                + Seq::new((copies - j) as nat, |_i: int| n as u8));
            assert(out@.take(idx as int) + (Seq::new((copies - j) as nat, |_i: int| n as u8) + rest)
                =~= before + (Seq::new((copies - j + 1) as nat, |_i: int| n as u8) + rest));
        }
        assert(Seq::new((copies - j) as nat, |_i: int| n as u8) =~= Seq::<u8>::empty());
        assert(out@.take(idx as int) + sorted_ranks_below(c, n as int) =~= out@.take(idx as int) + (
        Seq::new((copies - j) as nat, |_i: int| n as u8) + sorted_ranks_below(c, n as int)));
    }
    proof {
        lemma_sorted_ranks_len(c, 13);
    }
    assert(out@.take(idx as int) =~= out@);
    out
}

proof fn lemma_count_sum_nonneg(c: Seq<u8>, n: int)
    ensures
        count_sum(c, n) >= 0,
    decreases n,
{
    if n > 0 {
        lemma_count_sum_nonneg(c, n - 1);
    }
}

// ---------------------------------------------------------------------------
// Five-card hands
// ---------------------------------------------------------------------------

/// All five cards share a suit.
pub open spec fn is_five_card_flush(m: Multiset<u8>) -> bool {
    suit_count(m, 0) == 5 || suit_count(m, 1) == 5 || suit_count(m, 2) == 5 || suit_count(m, 3) == 5
}

/// The value of a five-card hand, given as the multiset of its cards.
///
/// Kickers are the ranks that occur once, highest first; a flush and a high
/// card are valued by all five ranks, highest first.
pub open spec fn five_card_rank(m: Multiset<u8>) -> HandRank {
    let c = rank_counts(m);
    let flush = is_five_card_flush(m);
    let straight = best_straight(c);
    let quads = ranks_with_count(c, 4);
    let trips = ranks_with_count(c, 3);
    let pairs = ranks_with_count(c, 2);
    let singles = ranks_with_count(c, 1);
    if straight is Some && flush {
        HandRank::StraightFlush(straight->0 as u32)
    } else if quads.len() > 0 {
        HandRank::FourOfAKind(pack_value(seq![quads[0], nth_or_zero(singles, 0)]) as u32)
    } else if trips.len() > 0 && pairs.len() > 0 {
        HandRank::FullHouse(pack_value(seq![trips[0], pairs[0]]) as u32)
    } else if flush {
        HandRank::Flush(pack_value(sorted_ranks(c)) as u32)
    } else if straight is Some {
        HandRank::Straight(straight->0 as u32)
    } else if trips.len() > 0 {
        HandRank::ThreeOfAKind(
            pack_value(seq![trips[0], nth_or_zero(singles, 0), nth_or_zero(singles, 1)]) as u32,
        )
    } else if pairs.len() >= 2 {
        HandRank::TwoPair(pack_value(seq![pairs[0], pairs[1], nth_or_zero(singles, 0)]) as u32)
    } else if pairs.len() == 1 {
        HandRank::OnePair(
            pack_value(
                seq![
                    pairs[0],
                    nth_or_zero(singles, 0),
                    nth_or_zero(singles, 1),
                    nth_or_zero(singles, 2),
                ],
            ) as u32,
        )
    } else {
        HandRank::HighCard(pack_value(sorted_ranks(c)) as u32)
    }
}

proof fn lemma_pack_small(s: Seq<u8>)
    requires
        s.len() <= 5,
        forall|i: int| 0 <= i < s.len() ==> #[trigger] s[i] < 13,
    ensures
        pack_value(s) <= u32::MAX,
{
    lemma_pack_bound(s);
    assert(pow13(5) == 371293) by {
        reveal_with_fuel(pow13, 6);
    }
    assert(pow13(s.len()) <= pow13(5)) by {
        lemma_pow13_mono(s.len(), 5);
    }
}

proof fn lemma_pow13_mono(a: nat, b: nat)
    requires
        a <= b,
    ensures
        pow13(a) <= pow13(b),
    decreases b,
{
    if a < b {
        lemma_pow13_mono(a, (b - 1) as nat);
    }
}

/// Packs up to five ranks below 13.
fn pack_small(ranks: &[u8]) -> (r: u32)
    requires
        ranks@.len() <= 5,
        forall|i: int| 0 <= i < ranks@.len() ==> #[trigger] ranks@[i] < 13,
    ensures
        r == pack_value(ranks@),
{
    proof {
        lemma_pack_small(ranks@);
    }
    pack_ranks(ranks)
}

/// Evaluates a five-card hand. Every card is a number below 52 whose rank is
/// `card / 4` and whose suit is `card % 4`; the order of the cards does not matter.
pub fn evaluate_5card(cards: &[u8; 5]) -> (r: HandRank)
    requires
        valid_cards(cards@),
    ensures
        r == five_card_rank(cards@.to_multiset()),
{
    let ghost m = cards@.to_multiset();
    let t = tally(cards.as_slice());
    let ghost c = rank_counts(m);
    assert(t.ranks@ =~= c);
    let is_flush = t.suits[0] == 5 || t.suits[1] == 5 || t.suits[2] == 5 || t.suits[3] == 5;
    let straight = straight_high(&t.ranks);
    if let Some(high) = straight {
        if is_flush {
            return HandRank::StraightFlush(high as u32);
        }
    }
    let (quads, quad_len) = ranks_with_count_of(&t.ranks, 4);
    let (trips, trips_len) = ranks_with_count_of(&t.ranks, 3);
    let (pairs, pairs_len) = ranks_with_count_of(&t.ranks, 2);
    let (singles, _singles_len) = ranks_with_count_of(&t.ranks, 1);

    if quad_len > 0 {
        let ranks = [quads[0], singles[0]];
        assert(ranks@ =~= seq![quads@[0], singles@[0]]);
        return HandRank::FourOfAKind(pack_small(ranks.as_slice()));
    }
    if trips_len > 0 && pairs_len > 0 {
        let ranks = [trips[0], pairs[0]];
        assert(ranks@ =~= seq![trips@[0], pairs@[0]]);
        return HandRank::FullHouse(pack_small(ranks.as_slice()));
    }
    if is_flush {
        let ranks = ranks_high_to_low(&t.ranks);
        return HandRank::Flush(pack_small(ranks.as_slice()));
    }
    if let Some(high) = straight {
        return HandRank::Straight(high as u32);
    }
    if trips_len > 0 {
        let ranks = [trips[0], singles[0], singles[1]];
        assert(ranks@ =~= seq![trips@[0], singles@[0], singles@[1]]);
        return HandRank::ThreeOfAKind(pack_small(ranks.as_slice()));
    }
    if pairs_len >= 2 {
        let ranks = [pairs[0], pairs[1], singles[0]];
        assert(ranks@ =~= seq![pairs@[0], pairs@[1], singles@[0]]);
        return HandRank::TwoPair(pack_small(ranks.as_slice()));
    }
    if pairs_len == 1 {
        let ranks = [pairs[0], singles[0], singles[1], singles[2]];
        assert(ranks@ =~= seq![pairs@[0], singles@[0], singles@[1], singles@[2]]);
        return HandRank::OnePair(pack_small(ranks.as_slice()));
    }
    let ranks = ranks_high_to_low(&t.ranks);
    HandRank::HighCard(pack_small(ranks.as_slice()))
}

// ---------------------------------------------------------------------------
// Seven-card hands
// ---------------------------------------------------------------------------

/// The top rank of a straight flush in the first suit from `suit` on that holds
/// at least five cards and a straight.
pub open spec fn straight_flush_from(m: Multiset<u8>, suit: int) -> Option<u8>
    decreases 4 - suit,
{
    if suit >= 4 {
        None
    } else if suit_count(m, suit) >= 5 && best_straight(suited_rank_counts(m, suit)) is Some {
        best_straight(suited_rank_counts(m, suit))
    } else {
        straight_flush_from(m, suit + 1)
    }
}

/// The first suit from `suit` on that holds at least five cards.
pub open spec fn flush_suit_from(m: Multiset<u8>, suit: int) -> Option<int>
    decreases 4 - suit,
{
    if suit >= 4 {
        None
    } else if suit_count(m, suit) >= 5 {
        Some(suit)
    } else {
        flush_suit_from(m, suit + 1)
    }
}

/// The value of a seven-card hand, given as the multiset of its cards.
///
/// The best five cards decide: kickers are the highest ranks not already used,
/// and a flush is valued by the five highest ranks of its suit.
pub open spec fn seven_card_rank(m: Multiset<u8>) -> HandRank {
    if straight_flush_from(m, 0) is Some {
        HandRank::StraightFlush(straight_flush_from(m, 0)->0 as u32)
    } else {
        seven_card_rank_below_straight_flush(m)
    }
}

/// The value of a seven-card hand that holds no straight flush.
pub open spec fn seven_card_rank_below_straight_flush(m: Multiset<u8>) -> HandRank {
    let c = rank_counts(m);
    let quads = ranks_with_count(c, 4);
    let trips = ranks_with_count(c, 3);
    let pairs = ranks_with_count(c, 2);
    if quads.len() > 0 {
        HandRank::FourOfAKind(
            pack_value(seq![quads[0], nth_or_zero(present_excluding(c, seq![quads[0]]), 0)]) as u32,
        )
    } else if trips.len() > 0 && (pairs.len() > 0 || trips.len() > 1) {
        HandRank::FullHouse(
            pack_value(
                seq![
                    trips[0],
                    if pairs.len() > 0 {
                        pairs[0]
                    } else {
                        trips[1]
                    },
                ],
            ) as u32,
        )
    } else if flush_suit_from(m, 0) is Some {
        HandRank::Flush(
            pack_value(
                top_ranks(suited_rank_counts(m, flush_suit_from(m, 0)->0), Seq::empty(), 5),
            ) as u32,
        )
    } else if best_straight(c) is Some {
        HandRank::Straight(best_straight(c)->0 as u32)
    } else {
        kicker_rank(c)
    }
}

/// The value of a hand without a straight, a flush, four of a kind or a full
/// house, from its counts by rank.
pub open spec fn kicker_rank(c: Seq<u8>) -> HandRank {
    let trips = ranks_with_count(c, 3);
    let pairs = ranks_with_count(c, 2);
    if trips.len() > 0 {
        let kickers = top_ranks(c, seq![trips[0]], 2);
        HandRank::ThreeOfAKind(pack_value(seq![trips[0], kickers[0], kickers[1]]) as u32)
    } else if pairs.len() >= 2 {
        let kickers = top_ranks(c, seq![pairs[0], pairs[1]], 1);
        HandRank::TwoPair(pack_value(seq![pairs[0], pairs[1], kickers[0]]) as u32)
    } else if pairs.len() == 1 {
        let kickers = top_ranks(c, seq![pairs[0]], 3);
        HandRank::OnePair(pack_value(seq![pairs[0], kickers[0], kickers[1], kickers[2]]) as u32)
    } else {
        HandRank::HighCard(pack_value(top_ranks(c, Seq::empty(), 5)) as u32)
    }
}

/// The counts by rank of the cards of one suit.
fn suit_column(t: &Tally, suit: usize, Ghost(m): Ghost<Multiset<u8>>) -> (r: [u8; 13])
    requires
        t.describes(m),
        suit < 4,
    ensures
        r@ == suited_rank_counts(m, suit as int),
{
    let mut column = [0u8; 13];
    let mut rank: usize = 0;
    while rank < 13
        invariant
            rank <= 13,
            suit < 4,
            t.describes(m),
            forall|r: int| 0 <= r < rank ==> column@[r] == suited_rank_counts(m, suit as int)[r],
        decreases 13 - rank,
    {
        column[rank] = t.cards[4 * rank + suit];
        rank = rank + 1;
    }
    assert(column@ =~= suited_rank_counts(m, suit as int));
    column
}

/// Evaluates a seven-card hand by its best five cards. Every card is a number
/// below 52 whose rank is `card / 4` and whose suit is `card % 4`; the order of
/// the cards does not matter.
pub fn evaluate_7card(cards: &[u8; 7]) -> (r: HandRank)
    requires
        valid_cards(cards@),
    ensures
        r == seven_card_rank(cards@.to_multiset()),
{
    let ghost m = cards@.to_multiset();
    let t = tally(cards.as_slice());

    let mut suit: usize = 0;
    while suit < 4
        invariant
            suit <= 4,
            t.describes(m),
            m == cards@.to_multiset(),
            straight_flush_from(m, 0) == straight_flush_from(m, suit as int),
        decreases 4 - suit,
    {
        if t.suits[suit] >= 5 {
            let column = suit_column(&t, suit, Ghost(m));
            if let Some(high) = straight_high(&column) {
                assert(t.suits@[suit as int] == suit_count(m, suit as int));
                assert(straight_flush_from(m, suit as int) == Some(high));
                return HandRank::StraightFlush(high as u32);
            }
        }
        suit = suit + 1;
    }
    rank_below_straight_flush(&t, Ghost(m))
}

#[verifier::rlimit(30)]
fn rank_below_straight_flush(t: &Tally, Ghost(m): Ghost<Multiset<u8>>) -> (r: HandRank)
    requires
        t.describes(m),
    ensures
        r == seven_card_rank_below_straight_flush(m),
{
    let ghost c = rank_counts(m);
    assert(t.ranks@ =~= c);
    let (quads, quad_len) = ranks_with_count_of(&t.ranks, 4);
    let (trips, trips_len) = ranks_with_count_of(&t.ranks, 3);
    let (pairs, pairs_len) = ranks_with_count_of(&t.ranks, 2);

    if quad_len > 0 {
        let kicker = highest_excluding(&t.ranks, quads[0]);
        let ranks = [quads[0], kicker];
        assert(ranks@ =~= seq![quads@[0], kicker]);
        return HandRank::FourOfAKind(pack_small(ranks.as_slice()));
    }
    if trips_len > 0 && (pairs_len > 0 || trips_len > 1) {
        let pair_rank = if pairs_len > 0 {
            pairs[0]
        } else {
            trips[1]
        };
        let ranks = [trips[0], pair_rank];
        assert(ranks@ =~= seq![trips@[0], pair_rank]);
        return HandRank::FullHouse(pack_small(ranks.as_slice()));
    }
    match flush_suit(t, Ghost(m)) {
        Some(suit) => {
            let column = suit_column(t, suit, Ghost(m));
            let no_ranks: [u8; 0] = [];
            assert(no_ranks@ =~= Seq::<u8>::empty());
            let flush_ranks = top_excluding(&column, no_ranks.as_slice(), 5);
            return HandRank::Flush(pack_small(flush_ranks.as_slice()));
        },
        None => {},
    }
    if let Some(high) = straight_high(&t.ranks) {
        return HandRank::Straight(high as u32);
    }
    rank_by_kickers(&t.ranks)
}

/// The first suit that holds at least five cards.
fn flush_suit(t: &Tally, Ghost(m): Ghost<Multiset<u8>>) -> (r: Option<usize>)
    requires
        t.describes(m),
    ensures
        r matches Some(s) ==> s < 4,
        flush_suit_from(m, 0) == match r {
            Some(s) => Some(s as int),
            None => None,
        },
{
    let mut suit: usize = 0;
    while suit < 4
        invariant
            suit <= 4,
            t.describes(m),
            flush_suit_from(m, 0) == flush_suit_from(m, suit as int),
        decreases 4 - suit,
    {
        if t.suits[suit] >= 5 {
            assert(t.suits@[suit as int] == suit_count(m, suit as int));
            return Some(suit);
        }
        suit = suit + 1;
    }
    None
}

#[verifier::rlimit(30)]
fn rank_by_kickers(rank_counts: &[u8; 13]) -> (r: HandRank)
    ensures
        r == kicker_rank(rank_counts@),
{
    let (trips, trips_len) = ranks_with_count_of(rank_counts, 3);
    let (pairs, pairs_len) = ranks_with_count_of(rank_counts, 2);
    if trips_len > 0 {
        let excluded = [trips[0]];
        assert(excluded@ =~= seq![trips@[0]]);
        let kickers = top_excluding(rank_counts, excluded.as_slice(), 2);
        let ranks = [trips[0], kickers[0], kickers[1]];
        assert(ranks@ =~= seq![trips@[0], kickers@[0], kickers@[1]]);
        return HandRank::ThreeOfAKind(pack_small(ranks.as_slice()));
    }
    if pairs_len >= 2 {
        let excluded = [pairs[0], pairs[1]];
        assert(excluded@ =~= seq![pairs@[0], pairs@[1]]);
        let kicker = top_excluding(rank_counts, excluded.as_slice(), 1);
        let ranks = [pairs[0], pairs[1], kicker[0]];
        assert(ranks@ =~= seq![pairs@[0], pairs@[1], kicker@[0]]);
        return HandRank::TwoPair(pack_small(ranks.as_slice()));
    }
    if pairs_len == 1 {
        let excluded = [pairs[0]];
        assert(excluded@ =~= seq![pairs@[0]]);
        let kickers = top_excluding(rank_counts, excluded.as_slice(), 3);
        let ranks = [pairs[0], kickers[0], kickers[1], kickers[2]];
        assert(ranks@ =~= seq![pairs@[0], kickers@[0], kickers@[1], kickers@[2]]);
        return HandRank::OnePair(pack_small(ranks.as_slice()));
    }
    let no_ranks: [u8; 0] = [];
    assert(no_ranks@ =~= Seq::<u8>::empty());
    let high_cards = top_excluding(rank_counts, no_ranks.as_slice(), 5);
    HandRank::HighCard(pack_small(high_cards.as_slice()))
}


// ---------------------------------------------------------------------------
// Comparing hands
// ---------------------------------------------------------------------------

/// The category of a hand, from 0 (high card) to 8 (straight flush).
pub open spec fn category_of(h: HandRank) -> int {
    match h {
        HandRank::HighCard(_) => 0,
        HandRank::OnePair(_) => 1,
        HandRank::TwoPair(_) => 2,
        HandRank::ThreeOfAKind(_) => 3,
        HandRank::Straight(_) => 4,
        HandRank::Flush(_) => 5,
        HandRank::FullHouse(_) => 6,
        HandRank::FourOfAKind(_) => 7,
        HandRank::StraightFlush(_) => 8,
    }
}

/// The number that orders hands inside a category.
pub open spec fn value_of(h: HandRank) -> int {
    match h {
        HandRank::HighCard(v) => v as int,
        HandRank::OnePair(v) => v as int,
        HandRank::TwoPair(v) => v as int,
        HandRank::ThreeOfAKind(v) => v as int,
        HandRank::Straight(v) => v as int,
        HandRank::Flush(v) => v as int,
        HandRank::FullHouse(v) => v as int,
        HandRank::FourOfAKind(v) => v as int,
        HandRank::StraightFlush(v) => v as int,
    }
}

/// `a` is a worse hand than `b`: a lower category, or the same category and a
/// lower value.
pub open spec fn hand_lt(a: HandRank, b: HandRank) -> bool {
    category_of(a) < category_of(b) || (category_of(a) == category_of(b) && value_of(a)
        < value_of(b))
}

/// The category of a hand, from 0 (high card) to 8 (straight flush).
pub fn hand_category(rank: HandRank) -> (r: u32)
    ensures
        r == category_of(rank),
{
    match rank {
        HandRank::HighCard(_) => 0,
        HandRank::OnePair(_) => 1,
        HandRank::TwoPair(_) => 2,
        HandRank::ThreeOfAKind(_) => 3,
        HandRank::Straight(_) => 4,
        HandRank::Flush(_) => 5,
        HandRank::FullHouse(_) => 6,
        HandRank::FourOfAKind(_) => 7,
        HandRank::StraightFlush(_) => 8,
    }
}

fn hand_value(rank: HandRank) -> (r: u32)
    ensures
        r == value_of(rank),
{
    match rank {
        HandRank::HighCard(v) => v,
        HandRank::OnePair(v) => v,
        HandRank::TwoPair(v) => v,
        HandRank::ThreeOfAKind(v) => v,
        HandRank::Straight(v) => v,
        HandRank::Flush(v) => v,
        HandRank::FullHouse(v) => v,
        HandRank::FourOfAKind(v) => v,
        HandRank::StraightFlush(v) => v,
    }
}

/// Compares two hands: by category first, then by the value inside the category.
pub fn compare_hands(a: HandRank, b: HandRank) -> (r: std::cmp::Ordering)
    ensures
        (r == std::cmp::Ordering::Less) == hand_lt(a, b),
        (r == std::cmp::Ordering::Equal) == (a == b),
        (r == std::cmp::Ordering::Greater) == hand_lt(b, a),
{
    let category_a = hand_category(a);
    let category_b = hand_category(b);
    let value_a = hand_value(a);
    let value_b = hand_value(b);
    if category_a < category_b || (category_a == category_b && value_a < value_b) {
        std::cmp::Ordering::Less
    } else if category_a == category_b && value_a == value_b {
        std::cmp::Ordering::Equal
    } else {
        std::cmp::Ordering::Greater
    }
}

/// The category (0 to 8) of a seven-card hand, or `None` where the hand does not
/// hold exactly seven cards.
pub fn evaluate_hand_category(cards: &[u8]) -> (r: Option<u32>)
    requires
        cards@.len() == 7 ==> valid_cards(cards@),
    ensures
        cards@.len() != 7 ==> r is None,
        cards@.len() == 7 ==> r == Some(category_of(seven_card_rank(cards@.to_multiset())) as u32),
{
    if cards.len() != 7 {
        return None;
    }
    let hand = [cards[0], cards[1], cards[2], cards[3], cards[4], cards[5], cards[6]];
    assert(hand@ =~= cards@);
    Some(hand_category(evaluate_7card(&hand)))
}

// ---------------------------------------------------------------------------
// Laws
// ---------------------------------------------------------------------------

/// Five ranks `high - 4 ..= high` all occur in the counts `c`.
pub open spec fn holds_run(c: Seq<u8>, high: int) -> bool {
    forall|k: int| high - 4 <= k <= high ==> #[trigger] c[k] > 0
}

proof fn lemma_straight_at_most_characterized(c: Seq<u8>, top: int)
    requires
        c.len() == 13,
        3 <= top <= 12,
    ensures
        forall|h: int| 4 <= h <= top && holds_run(c, h) ==> (straight_high_at_most(c, top) matches Some(
            r,
        ) && r >= h),
        straight_high_at_most(c, top) matches Some(r) ==> (4 <= r <= top && holds_run(c, r as int) && forall|
            h: int,
        |
            r < h <= top ==> !holds_run(c, h)) || (r == 3 && c[12] > 0 && c[0] > 0 && c[1] > 0 && c[2]
            > 0 && c[3] > 0 && forall|h: int| 4 <= h <= top ==> !holds_run(c, h)),
        straight_high_at_most(c, top) is None ==> !(c[12] > 0 && c[0] > 0 && c[1] > 0 && c[2] > 0
            && c[3] > 0) && forall|h: int| 4 <= h <= top ==> !holds_run(c, h),
    decreases top,
{
    if top >= 4 {
        lemma_straight_at_most_characterized(c, top - 1);
        if run_ending_at(c, top) {
            assert forall|k: int| top - 4 <= k <= top implies #[trigger] c[k] > 0 by {
                if k == top - 4 {
                } else if k == top - 3 {
                } else if k == top - 2 {
                } else if k == top - 1 {
                } else {
                }
            }
        } else {
            assert(!holds_run(c, top)) by {
                if holds_run(c, top) {
                    assert(c[top - 4] > 0 && c[top - 3] > 0 && c[top - 2] > 0 && c[top - 1] > 0
                        && c[top] > 0);
                }
            }
        }
    }
}

/// The best straight in the counts `c` (indexed by rank 0 for the two up to 12
/// for the ace): the highest `h` from 4 (a six-high straight) up to 12 whose
/// five ranks `h - 4 ..= h` all occur; failing that a five-high straight (3)
/// exactly when the ace, two, three, four and five occur; else none.
pub proof fn lemma_best_straight_characterized(c: Seq<u8>)
    requires
        c.len() == 13,
    ensures
        forall|h: int| 4 <= h <= 12 && holds_run(c, h) ==> (best_straight(c) matches Some(r) && r
            >= h),
        best_straight(c) matches Some(r) ==> (4 <= r <= 12 && holds_run(c, r as int) && forall|
            h: int,
        |
            r < h <= 12 ==> !holds_run(c, h)) || (r == 3 && c[12] > 0 && c[0] > 0 && c[1] > 0 && c[2]
            > 0 && c[3] > 0 && forall|h: int| 4 <= h <= 12 ==> !holds_run(c, h)),
        best_straight(c) is None ==> !(c[12] > 0 && c[0] > 0 && c[1] > 0 && c[2] > 0 && c[3] > 0)
            && forall|h: int| 4 <= h <= 12 ==> !holds_run(c, h),
{
    lemma_straight_at_most_characterized(c, 12);
}

/// Of two hands, exactly one holds: the first is worse, they are the same, or the
/// first is better.
pub proof fn lemma_hand_order_trichotomy(a: HandRank, b: HandRank)
    ensures
        hand_lt(a, b) || a == b || hand_lt(b, a),
        !(hand_lt(a, b) && hand_lt(b, a)),
        !(hand_lt(a, b) && a == b),
{
}

/// The order on hands is transitive.
pub proof fn lemma_hand_order_transitive(a: HandRank, b: HandRank, c: HandRank)
    requires
        hand_lt(a, b),
        hand_lt(b, c),
    ensures
        hand_lt(a, c),
{
}

/// Comparing `a` with `b` gives the reverse of comparing `b` with `a`.
pub proof fn lemma_hand_order_antisymmetric(a: HandRank, b: HandRank)
    ensures
        hand_lt(a, b) ==> !hand_lt(b, a),
        !hand_lt(a, b) && !hand_lt(b, a) ==> a == b,
{
}

/// The value of a hand does not depend on the order in which its cards are given.
pub proof fn lemma_evaluation_ignores_card_order(a: Seq<u8>, b: Seq<u8>)
    requires
        a.to_multiset() == b.to_multiset(),
    ensures
        five_card_rank(a.to_multiset()) == five_card_rank(b.to_multiset()),
        seven_card_rank(a.to_multiset()) == seven_card_rank(b.to_multiset()),
{
}

proof fn lemma_sorted_ranks_below_descending(c: Seq<u8>, n: int)
    requires
        n <= 13,
    ensures
        forall|i: int|
            0 <= i < sorted_ranks_below(c, n).len() ==> #[trigger] sorted_ranks_below(c, n)[i] < n,
        forall|i: int, j: int|
            0 <= i < j < sorted_ranks_below(c, n).len() ==> sorted_ranks_below(c, n)[i]
                >= sorted_ranks_below(c, n)[j],
    decreases n,
{
    if n > 0 {
        lemma_sorted_ranks_below_descending(c, n - 1);
        let head = Seq::new(c[n - 1] as nat, |_i: int| (n - 1) as u8);
        let tail = sorted_ranks_below(c, n - 1);
        let s = sorted_ranks_below(c, n);
        assert(s == head + tail);
        assert forall|i: int| 0 <= i < s.len() implies #[trigger] s[i] < n by {
            if i >= head.len() {
                assert(s[i] == tail[i - head.len()]);
            }
        }
        assert forall|i: int, j: int| 0 <= i < j < s.len() implies s[i] >= s[j] by {
            if j < head.len() {
            } else if i < head.len() {
                assert(s[j] == tail[j - head.len()]);
            } else {
                assert(s[i] == tail[i - head.len()]);
                assert(s[j] == tail[j - head.len()]);
            }
        }
    }
}

proof fn lemma_repeat_rank_count(rank: u8, copies: nat, r: u8)
    ensures
        Seq::new(copies, |_i: int| rank).to_multiset().count(r) == if rank == r {
            copies
        } else {
            0
        },
    decreases copies,
{
    if copies > 0 {
        lemma_repeat_rank_count(rank, (copies - 1) as nat, r);
        assert(Seq::new(copies, |_i: int| rank) =~= Seq::new((copies - 1) as nat, |_i: int| rank).push(
            rank,
        ));
    } else {
        assert(Seq::new(copies, |_i: int| rank) =~= Seq::<u8>::empty());
    }
}

proof fn lemma_sorted_ranks_below_counts(c: Seq<u8>, n: int, r: int)
    requires
        n <= 13,
        0 <= r < 13,
    ensures
        sorted_ranks_below(c, n).to_multiset().count(r as u8) == if r < n {
            c[r] as nat
        } else {
            0
        },
    decreases n,
{
    if n > 0 {
        lemma_sorted_ranks_below_counts(c, n - 1, r);
        let head = Seq::new(c[n - 1] as nat, |_i: int| (n - 1) as u8);
        let tail = sorted_ranks_below(c, n - 1);
        vstd::seq_lib::lemma_multiset_commutative(head, tail);
        lemma_repeat_rank_count((n - 1) as u8, c[n - 1] as nat, r as u8);
    } else {
        assert(sorted_ranks_below(c, n) =~= Seq::<u8>::empty());
    }
}

/// The ranks that value a flush or a high card are the ranks of the hand's cards,
/// each as often as the count table holds it, from the highest down.
pub proof fn lemma_sorted_ranks_are_the_hand_ranks(m: Multiset<u8>)
    ensures
        forall|r: int|
            0 <= r < 13 ==> #[trigger] sorted_ranks(rank_counts(m)).to_multiset().count(r as u8)
                == rank_counts(m)[r],
        forall|i: int|
            0 <= i < sorted_ranks(rank_counts(m)).len() ==> #[trigger] sorted_ranks(
                rank_counts(m),
            )[i] < 13,
        forall|i: int, j: int|
            0 <= i < j < sorted_ranks(rank_counts(m)).len() ==> sorted_ranks(rank_counts(m))[i]
                >= sorted_ranks(rank_counts(m))[j],
{
    let c = rank_counts(m);
    lemma_sorted_ranks_below_descending(c, 13);
    assert forall|r: int|
        0 <= r < 13 implies #[trigger] sorted_ranks(c).to_multiset().count(r as u8) == c[r] by {
        lemma_sorted_ranks_below_counts(c, 13, r);
    }
}
} // verus!
