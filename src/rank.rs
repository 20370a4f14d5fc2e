//! Hand categories and the ranking of a five-to-seven card set.

use vstd::prelude::*;

use crate::card::{
    Card, all_valid, count_from, has_rank, lemma_count_from_len, lemma_rank_count_positive,
    rank_count, ranks_fit_deck, suit_count,
};
use crate::detect::{
    cards_of, check_flush, check_multiples, check_straight, flush_cards, flush_suit,
    has_rank_low, lemma_flush_suit_from, lemma_straight_found, lemma_straight_highs_skip,
    lemma_first_high, quad_of, ranks_with, straight_at, straight_highs, straight_highs_from,
    suited_from,
};

verus! {

/// A poker hand category with the ranks that break ties inside it.
#[derive(PartialEq, Eq, Structural, PartialOrd, Ord, Debug, Clone, Copy)]
pub enum HandRank {
    HighCard(u8, u8, u8, u8, u8),
    OnePair(u8, u8, u8, u8),
    TwoPair(u8, u8, u8),
    ThreeOfAKind(u8, u8, u8),
    Straight(u8),
    Flush(u8, u8, u8, u8, u8),
    FullHouse(u8, u8),
    FourOfAKind(u8, u8),
    StraightFlush(u8),
    RoyalFlush,
}

/// The first rank of `s`, or 0 where `s` is empty.
pub open spec fn first_or_zero(s: Seq<u8>) -> u8 {
    if s.len() > 0 {
        s[0]
    } else {
        0
    }
}

pub open spec fn max_rank(a: u8, b: u8) -> u8 {
    if a >= b {
        a
    } else {
        b
    }
}

pub open spec fn min_rank(a: u8, b: u8) -> u8 {
    if a <= b {
        a
    } else {
        b
    }
}

/// The rank of a set whose flush suit holds the cards `fc`, highest rank first.
pub open spec fn flush_rank(fc: Seq<Card>) -> HandRank {
    let highs = straight_highs(fc);
    if highs.len() > 0 {
        if highs[0] == 14 {
            HandRank::RoyalFlush
        } else {
            HandRank::StraightFlush(highs[0])
        }
    } else {
        HandRank::Flush(fc[0].value, fc[1].value, fc[2].value, fc[3].value, fc[4].value)
    }
}

/// The rank of a set without a flush.
pub open spec fn plain_rank(cs: Seq<Card>) -> HandRank {
    let threes = ranks_with(cs, 3, 2);
    let pairs = ranks_with(cs, 2, 2);
    let singles = ranks_with(cs, 1, 2);
    let highs = straight_highs(cs);
    match quad_of(cs) {
        Some(q) => HandRank::FourOfAKind(
            q,
            max_rank(first_or_zero(threes), max_rank(first_or_zero(pairs), first_or_zero(singles))),
        ),
        None => if threes.len() >= 2 {
            HandRank::FullHouse(threes[0], threes[1])
        } else if threes.len() == 1 && pairs.len() >= 1 {
            HandRank::FullHouse(max_rank(threes[0], pairs[0]), min_rank(threes[0], pairs[0]))
        } else if highs.len() > 0 {
            HandRank::Straight(highs[0])
        } else if threes.len() == 1 {
            HandRank::ThreeOfAKind(threes[0], singles[0], singles[1])
        } else if pairs.len() >= 2 {
            HandRank::TwoPair(
                pairs[0],
                pairs[1],
                max_rank(first_or_zero(pairs.skip(2)), first_or_zero(singles)),
            )
        } else if pairs.len() == 1 {
            HandRank::OnePair(pairs[0], singles[0], singles[1], singles[2])
        } else {
            HandRank::HighCard(singles[0], singles[1], singles[2], singles[3], singles[4])
        },
    }
}

/// The best hand category of the set `cs`, with its tie-break ranks.
pub open spec fn rank_of(cs: Seq<Card>) -> HandRank {
    match flush_cards(cs) {
        Some(fc) => flush_rank(fc),
        None => plain_rank(cs),
    }
}

/// The rank counts from `lo` on add up by multiplicity.
pub proof fn lemma_count_by_multiplicity(cs: Seq<Card>, lo: int)
    requires
        ranks_fit_deck(cs),
    ensures
        count_from(cs, lo) == 4 * ranks_with(cs, 4, lo).len() + 3 * ranks_with(cs, 3, lo).len() + 2
            * ranks_with(cs, 2, lo).len() + ranks_with(cs, 1, lo).len(),
    decreases 15 - lo,
{
    if lo <= 14 {
        lemma_count_by_multiplicity(cs, lo + 1);
        assert(rank_count(cs, lo) <= 4);
    }
}

/// A card is among those of suit `s` and rank `v` exactly when it is in `cs` with them.
pub proof fn lemma_cards_of_contains(cs: Seq<Card>, s: int, v: int, c: Card)
    ensures
        cards_of(cs, s, v).contains(c) <==> (cs.contains(c) && c.suit == s && c.value == v),
    decreases cs.len(),
{
    if cs.len() > 0 {
        let d = cs.drop_last();
        lemma_cards_of_contains(d, s, v, c);
        assert(cs =~= d.push(cs.last()));
        if cs.contains(c) && c != cs.last() {
            let i = choose|i: int| 0 <= i < cs.len() && cs[i] == c;
            assert(d[i] == c);
        }
        if d.contains(c) {
            let i = choose|i: int| 0 <= i < d.len() && d[i] == c;
            assert(cs[i] == c);
        }
        let e = cards_of(d, s, v);
        if e.contains(c) {
            let i = choose|i: int| 0 <= i < e.len() && e[i] == c;
            assert(e.push(cs.last())[i] == c);
        }
        if cs.last().suit == s && cs.last().value == v {
            assert(e.push(cs.last())[e.len() as int] == cs.last());
        }
    }
}

/// A card is among the suited cards from rank `lo` on exactly when it is in `cs`
/// with suit `s` and a rank in `lo..=14`.
pub proof fn lemma_suited_contains(cs: Seq<Card>, s: int, lo: int, c: Card)
    ensures
        suited_from(cs, s, lo).contains(c) <==> (cs.contains(c) && c.suit == s && lo <= c.value
            <= 14),
    decreases 15 - lo,
{
    if lo <= 14 {
        lemma_suited_contains(cs, s, lo + 1, c);
        lemma_cards_of_contains(cs, s, lo, c);
        let a = suited_from(cs, s, lo + 1);
        let b = cards_of(cs, s, lo);
        if a.contains(c) {
            let i = choose|i: int| 0 <= i < a.len() && a[i] == c;
            assert((a + b)[i] == c);
        }
        if b.contains(c) {
            let i = choose|i: int| 0 <= i < b.len() && b[i] == c;
            assert((a + b)[a.len() + i] == c);
        }
        if (a + b).contains(c) {
            let i = choose|i: int| 0 <= i < (a + b).len() && (a + b)[i] == c;
            if i < a.len() {
                assert(a[i] == c);
            } else {
                assert(b[i - a.len()] == c);
            }
        }
    }
}

/// The flush cards of a set of real cards are real cards.
pub proof fn lemma_flush_cards_valid(cs: Seq<Card>)
    requires
        all_valid(cs),
    ensures
        flush_cards(cs) matches Some(fc) ==> all_valid(fc),
{
    if let Some(fc) = flush_cards(cs) {
        let s = crate::detect::flush_suit(cs)->Some_0;
        assert forall|i: int| 0 <= i < fc.len() implies (#[trigger] fc[i]).is_valid() by {
            lemma_suited_contains(cs, s, 2, fc[i]);
            assert(fc.contains(fc[i]));
            let j = choose|j: int| 0 <= j < cs.len() && cs[j] == fc[i];
            assert(cs[j].is_valid());
        }
    }
}

/// Ranks the best hand that the cards of `hand` and `board` make together.
pub fn evaluate_hand(hand: &[Card], board: &[Card]) -> (r: HandRank)
    requires
        all_valid(hand@ + board@),
        hand@.len() + board@.len() >= 5,
        ranks_fit_deck(hand@ + board@),
    ensures
        r == rank_of(hand@ + board@),
{
    let ghost cs = hand@ + board@;
    let mut all_cards: Vec<Card> = Vec::new();
    let mut i: usize = 0;
    while i < hand.len()
        invariant
            i <= hand@.len(),
            all_cards@ == hand@.take(i as int),
        decreases hand@.len() - i,
    {
        all_cards.push(hand[i]);
        i += 1;
        assert(all_cards@ =~= hand@.take(i as int));
    }
    assert(hand@.take(hand@.len() as int) =~= hand@);
    let mut j: usize = 0;
    while j < board.len()
        invariant
            j <= board@.len(),
            all_cards@ == hand@ + board@.take(j as int),
        decreases board@.len() - j,
    {
        all_cards.push(board[j]);
        j += 1;
        assert(all_cards@ =~= hand@ + board@.take(j as int));
    }
    assert(board@.take(board@.len() as int) =~= board@);
    assert(all_cards@ == cs);
    let cards = all_cards.as_slice();
    if let Some(fc) = check_flush(cards) {
        proof {
            lemma_flush_cards_valid(cs);
        }
        return match check_straight(fc.as_slice()) {
            Some(highs) => {
                if highs[0] == 14 {
                    HandRank::RoyalFlush
                } else {
                    HandRank::StraightFlush(highs[0])
                }
            },
            None => HandRank::Flush(
                fc[0].value,
                fc[1].value,
                fc[2].value,
                fc[3].value,
                fc[4].value,
            ),
        };
    }
    let (four, threes, pairs, singles) = check_multiples(cards);
    proof {
        lemma_count_from_len(cs);
        lemma_count_by_multiplicity(cs, 2);
    }
    let first_three: u8 = if threes.len() > 0 { threes[0] } else { 0 };
    let first_pair: u8 = if pairs.len() > 0 { pairs[0] } else { 0 };
    let first_single: u8 = if singles.len() > 0 { singles[0] } else { 0 };
    if let Some(four_value) = four {
        let kicker = if first_pair >= first_single { first_pair } else { first_single };
        let kicker = if first_three >= kicker { first_three } else { kicker };
        return HandRank::FourOfAKind(four_value, kicker);
    }
    assert(ranks_with(cs, 4, 2).len() == 0);
    if threes.len() >= 2 {
        return HandRank::FullHouse(threes[0], threes[1]);
    }
    if threes.len() == 1 && pairs.len() >= 1 {
        let (high, low) = if threes[0] >= pairs[0] {
            (threes[0], pairs[0])
        } else {
            (pairs[0], threes[0])
        };
        return HandRank::FullHouse(high, low);
    }
    if let Some(highs) = check_straight(cards) {
        return HandRank::Straight(highs[0]);
    }
    if threes.len() == 1 {
        return HandRank::ThreeOfAKind(threes[0], singles[0], singles[1]);
    }
    if pairs.len() >= 2 {
        let third_pair: u8 = if pairs.len() > 2 { pairs[2] } else { 0 };
        assert(first_or_zero(pairs@.skip(2)) == third_pair);
        let kicker = if third_pair >= first_single { third_pair } else { first_single };
        return HandRank::TwoPair(pairs[0], pairs[1], kicker);
    }
    if pairs.len() == 1 {
        return HandRank::OnePair(pairs[0], singles[0], singles[1], singles[2]);
    }
    HandRank::HighCard(singles[0], singles[1], singles[2], singles[3], singles[4])
}

/// Some card of suit `s` has rank `r`, an ace also counting as rank 1.
pub open spec fn has_suited_rank(cs: Seq<Card>, s: int, r: int) -> bool {
    exists|i: int|
        0 <= i < cs.len() && cs[i].suit == s && (cs[i].value == r || (r == 1 && cs[i].value
            == 14))
}

/// Where the flush suit of a set also holds five consecutive ranks, the set
/// ranks as a straight flush or a royal flush, never as a plain flush.
pub proof fn lemma_suited_run_beats_flush(cs: Seq<Card>, s: int, v: int)
    requires
        all_valid(cs),
        flush_suit(cs) == Some(s),
        5 <= v <= 14,
        forall|r: int| v - 4 <= r <= v ==> #[trigger] has_suited_rank(cs, s, r),
    ensures
        rank_of(cs) is StraightFlush || rank_of(cs) is RoyalFlush,
{
    let fc = suited_from(cs, s, 2);
    assert forall|r: int| v - 4 <= r <= v implies #[trigger] has_rank_low(fc, r) by {
        assert(has_suited_rank(cs, s, r));
        let i = choose|i: int|
            0 <= i < cs.len() && cs[i].suit == s && (cs[i].value == r || (r == 1 && cs[i].value
                == 14));
        let c = cs[i];
        assert(c.is_valid());
        assert(cs.contains(c));
        lemma_suited_contains(cs, s, 2, c);
        let j = choose|j: int| 0 <= j < fc.len() && fc[j] == c;
        assert(has_rank(fc, c.value as int));
    }
    assert(straight_at(fc, v));
    lemma_straight_found(fc, 5, v);
}

/// Suit `s` holds the five consecutive ranks `v - 4 ..= v` (the ace low where `v == 5`).
pub open spec fn suited_run_at(cs: Seq<Card>, s: int, v: int) -> bool {
    forall|r: int| v - 4 <= r <= v ==> #[trigger] has_suited_rank(cs, s, r)
}

/// Among the flush cards, a rank is present exactly when a card of the flush
/// suit has it.
proof fn lemma_flush_ranks(cs: Seq<Card>, s: int, r: int)
    requires
        all_valid(cs),
        0 <= r,
    ensures
        has_rank_low(suited_from(cs, s, 2), r) <==> has_suited_rank(cs, s, r),
{
    let fc = suited_from(cs, s, 2);
    if has_suited_rank(cs, s, r) {
        let i = choose|i: int|
            0 <= i < cs.len() && cs[i].suit == s && (cs[i].value == r || (r == 1 && cs[i].value
                == 14));
        let c = cs[i];
        assert(c.is_valid());
        assert(cs.contains(c));
        lemma_suited_contains(cs, s, 2, c);
        let j = choose|j: int| 0 <= j < fc.len() && fc[j] == c;
        assert(has_rank(fc, c.value as int));
    }
    if has_rank(fc, r) {
        let j = choose|j: int| 0 <= j < fc.len() && fc[j].value == r;
        assert(fc.contains(fc[j]));
        lemma_suited_contains(cs, s, 2, fc[j]);
        let i = choose|i: int| 0 <= i < cs.len() && cs[i] == fc[j];
    }
    if r == 1 && has_rank(fc, 14) {
        let j = choose|j: int| 0 <= j < fc.len() && fc[j].value == 14;
        assert(fc.contains(fc[j]));
        lemma_suited_contains(cs, s, 2, fc[j]);
        let i = choose|i: int| 0 <= i < cs.len() && cs[i] == fc[j];
    }
}

/// A set with a flush ranks as a royal flush exactly when the flush suit holds
/// 10, J, Q, K and A; it ranks as a straight flush exactly when the flush suit
/// holds five consecutive ranks otherwise, its high card then being the top of
/// the highest such run (5 for A-2-3-4-5).
pub proof fn lemma_flush_ranking(cs: Seq<Card>, s: int)
    requires
        all_valid(cs),
        flush_suit(cs) == Some(s),
    ensures
        rank_of(cs) == HandRank::RoyalFlush <==> suited_run_at(cs, s, 14),
        (rank_of(cs) is StraightFlush || rank_of(cs) is RoyalFlush) <==> exists|v: int|
            5 <= v <= 14 && #[trigger] suited_run_at(cs, s, v),
        rank_of(cs) matches HandRank::StraightFlush(h) ==> 5 <= h <= 13 && suited_run_at(
            cs,
            s,
            h as int,
        ) && forall|w: int| h < w <= 14 ==> !#[trigger] suited_run_at(cs, s, w),
{
    let fc = suited_from(cs, s, 2);
    assert forall|v: int| 5 <= v <= 14 implies straight_at(fc, v) == #[trigger] suited_run_at(
        cs,
        s,
        v,
    ) by {
        lemma_flush_ranks(cs, s, v);
        lemma_flush_ranks(cs, s, v - 1);
        lemma_flush_ranks(cs, s, v - 2);
        lemma_flush_ranks(cs, s, v - 3);
        lemma_flush_ranks(cs, s, v - 4);
        if straight_at(fc, v) {
            assert forall|r: int| v - 4 <= r <= v implies #[trigger] has_suited_rank(cs, s, r) by {
                assert(r == v || r == v - 1 || r == v - 2 || r == v - 3 || r == v - 4);
            }
        }
        if suited_run_at(cs, s, v) {
            assert(has_suited_rank(cs, s, v) && has_suited_rank(cs, s, v - 1) && has_suited_rank(
                cs,
                s,
                v - 2,
            ) && has_suited_rank(cs, s, v - 3) && has_suited_rank(cs, s, v - 4));
        }
    }
    let highs = straight_highs(fc);
    if highs.len() > 0 {
        lemma_first_high(fc, 5);
        let h = highs[0] as int;
        assert(suited_run_at(cs, s, h));
    } else {
        assert forall|v: int| 5 <= v <= 14 implies !#[trigger] suited_run_at(cs, s, v) by {
            if straight_at(fc, v) {
                lemma_straight_found(fc, 5, v);
            }
        }
    }
}

/// The ranks occurring `k` times from `lo` on are strictly descending, each
/// occurs `k` times, and each rank in `lo..=14` that occurs `k` times is listed.
pub proof fn lemma_ranks_with(cs: Seq<Card>, k: nat, lo: int)
    requires
        lo >= 0,
    ensures
        forall|i: int, j: int|
            0 <= i < j < ranks_with(cs, k, lo).len() ==> ranks_with(cs, k, lo)[i] > ranks_with(
                cs,
                k,
                lo,
            )[j],
        forall|i: int|
            0 <= i < ranks_with(cs, k, lo).len() ==> lo <= #[trigger] ranks_with(cs, k, lo)[i]
                <= 14 && rank_count(cs, ranks_with(cs, k, lo)[i] as int) == k,
        forall|x: int|
            lo <= x <= 14 && rank_count(cs, x) == k ==> #[trigger] ranks_with(cs, k, lo).contains(
                x as u8,
            ),
    decreases 15 - lo,
{
    if lo <= 14 {
        lemma_ranks_with(cs, k, lo + 1);
        let h = ranks_with(cs, k, lo + 1);
        if rank_count(cs, lo) == k {
            let r = h.push(lo as u8);
            assert(r[h.len() as int] == lo as u8);
            assert forall|x: int| lo <= x <= 14 && rank_count(cs, x) == k implies r.contains(
                x as u8,
            ) by {
                if x > lo {
                    assert(h.contains(x as u8));
                    let i = choose|i: int| 0 <= i < h.len() && h[i] == x as u8;
                    assert(r[i] == x as u8);
                }
            }
        }
    }
}

/// In a set where each rank occurs at most once, a rank occurs exactly when some card has it.
proof fn lemma_distinct_rank_counts(cs: Seq<Card>)
    requires
        forall|i: int, j: int| 0 <= i < j < cs.len() ==> cs[i].value != cs[j].value,
    ensures
        forall|v: int| #[trigger] rank_count(cs, v) <= 1,
    decreases cs.len(),
{
    if cs.len() > 0 {
        let d = cs.drop_last();
        assert forall|i: int, j: int| 0 <= i < j < d.len() implies d[i].value != d[j].value by {
            assert(d[i] == cs[i] && d[j] == cs[j]);
        }
        lemma_distinct_rank_counts(d);
        assert forall|v: int| #[trigger] rank_count(cs, v) <= 1 by {
            assert(rank_count(cs, v) == rank_count(d, v) + if cs.last().value == v {
                1nat
            } else {
                0nat
            });
            if cs.last().value == v {
                lemma_rank_count_positive(d, v);
                if has_rank(d, v) {
                    let i = choose|i: int| 0 <= i < d.len() && d[i].value == v;
                    assert(cs[i] == d[i]);
                    assert(cs[cs.len() - 1] == cs.last());
                }
            } else {
                assert(rank_count(d, v) <= 1);
            }
        }
    }
}

proof fn lemma_suit_count_le(cs: Seq<Card>, s: int)
    ensures
        suit_count(cs, s) <= cs.len(),
        suit_count(cs, s) == cs.len() ==> forall|i: int| 0 <= i < cs.len() ==> cs[i].suit == s,
    decreases cs.len(),
{
    if cs.len() > 0 {
        let d = cs.drop_last();
        lemma_suit_count_le(d, s);
        if suit_count(cs, s) == cs.len() {
            assert forall|i: int| 0 <= i < cs.len() implies cs[i].suit == s by {
                if i < d.len() {
                    assert(d[i] == cs[i]);
                }
            }
        }
    }
}

/// Five cards of five different ranks, not all of one suit and without a
/// straight, rank as a high card hand listing their ranks from the highest down.
pub proof fn lemma_distinct_ranks_high_card(cs: Seq<Card>)
    requires
        all_valid(cs),
        cs.len() == 5,
        forall|i: int, j: int| 0 <= i < j < 5 ==> cs[i].value != cs[j].value,
        exists|i: int| 0 <= i < 5 && (#[trigger] cs[i]).suit != cs[0].suit,
        forall|v: int| 5 <= v <= 14 ==> !straight_at(cs, v),
    ensures
        rank_of(cs) matches HandRank::HighCard(a, b, c, d, e) && a > b > c > d > e && (forall|
            i: int,
        |
            0 <= i < 5 ==> (cs[i].value == a || cs[i].value == b || cs[i].value == c
                || cs[i].value == d || cs[i].value == e)) && has_rank(cs, a as int) && has_rank(
            cs,
            b as int,
        ) && has_rank(cs, c as int) && has_rank(cs, d as int) && has_rank(cs, e as int),
{
    lemma_flush_suit_from(cs, 0);
    if let Some(f) = flush_suit(cs) {
        lemma_suit_count_le(cs, f);
        let i = choose|i: int| 0 <= i < 5 && (#[trigger] cs[i]).suit != cs[0].suit;
        assert(cs[0].suit == f && cs[i].suit == f);
    }
    assert(flush_cards(cs) is None);
    lemma_straight_highs_skip(cs, 5, 15);
    assert(straight_highs_from(cs, 15) =~= seq![]);
    lemma_distinct_rank_counts(cs);
    lemma_ranks_with(cs, 4, 2);
    lemma_ranks_with(cs, 3, 2);
    lemma_ranks_with(cs, 2, 2);
    lemma_ranks_with(cs, 1, 2);
    if ranks_with(cs, 4, 2).len() > 0 {
        assert(rank_count(cs, ranks_with(cs, 4, 2)[0] as int) == 4);
    }
    if ranks_with(cs, 3, 2).len() > 0 {
        assert(rank_count(cs, ranks_with(cs, 3, 2)[0] as int) == 3);
    }
    if ranks_with(cs, 2, 2).len() > 0 {
        assert(rank_count(cs, ranks_with(cs, 2, 2)[0] as int) == 2);
    }
    lemma_count_from_len(cs);
    lemma_count_by_multiplicity(cs, 2);
    let singles = ranks_with(cs, 1, 2);
    assert(singles.len() == 5);
    assert forall|i: int| 0 <= i < 5 implies singles.contains(cs[i].value) by {
        assert(cs[i].is_valid());
        let x = cs[i].value as int;
        assert(has_rank(cs, x));
        lemma_rank_count_positive(cs, x);
        assert(rank_count(cs, x) <= 1);
        assert(ranks_with(cs, 1, 2).contains(x as u8));
    }
    assert forall|i: int| 0 <= i < 5 implies has_rank(cs, singles[i] as int) by {
        lemma_rank_count_positive(cs, singles[i] as int);
    }
}

} // verus!
