//! Detection of straights, flushes and rank multiplicities in a set of cards.

use vstd::prelude::*;

use crate::card::{Card, all_valid, has_rank, rank_count, ranks_fit_deck, suit_count};

verus! {

/// Rank `r` is present, an ace (14) also counting as the low rank 1.
pub open spec fn has_rank_low(cs: Seq<Card>, r: int) -> bool {
    has_rank(cs, r) || (r == 1 && has_rank(cs, 14))
}

/// The five ranks `v - 4 ..= v` are all present (with the ace low where `v == 5`).
pub open spec fn straight_at(cs: Seq<Card>, v: int) -> bool {
    &&& has_rank_low(cs, v)
    &&& has_rank_low(cs, v - 1)
    &&& has_rank_low(cs, v - 2)
    &&& has_rank_low(cs, v - 3)
    &&& has_rank_low(cs, v - 4)
}

/// The high ranks in `lo..=14` that end a straight, in descending order.
pub open spec fn straight_highs_from(cs: Seq<Card>, lo: int) -> Seq<u8>
    decreases 15 - lo,
{
    if lo > 14 {
        seq![]
    } else {
        let higher = straight_highs_from(cs, lo + 1);
        if straight_at(cs, lo) {
            higher.push(lo as u8)
        } else {
            higher
        }
    }
}

/// The high card of every straight in the set, in descending order; the wheel
/// A-2-3-4-5 has high card 5.
pub open spec fn straight_highs(cs: Seq<Card>) -> Seq<u8> {
    straight_highs_from(cs, 5)
}

/// For each rank `0..15`, whether some card has it.
fn rank_presence(cards: &[Card]) -> (present: Vec<bool>)
    requires
        all_valid(cards@),
    ensures
        present@.len() == 15,
        forall|r: int| 0 <= r < 15 ==> present@[r] == has_rank(cards@, r),
{
    let mut present: Vec<bool> = Vec::new();
    let mut r: usize = 0;
    while r < 15
        invariant
            r <= 15,
            present@.len() == r,
            forall|q: int| 0 <= q < r ==> !present@[q],
        decreases 15 - r,
    {
        present.push(false);
        r += 1;
    }
    let mut i: usize = 0;
    while i < cards.len()
        invariant
            i <= cards@.len(),
            all_valid(cards@),
            present@.len() == 15,
            forall|q: int|
                0 <= q < 15 ==> (present@[q] <==> exists|j: int|
                    0 <= j < i && (#[trigger] cards@[j]).value == q),
        decreases cards@.len() - i,
    {
        let c = cards[i];
        assert(cards@[i as int].is_valid());
        present.set(c.value as usize, true);
        assert forall|q: int| 0 <= q < 15 implies (present@[q] <==> exists|j: int|
            0 <= j < i + 1 && (#[trigger] cards@[j]).value == q) by {
            if q == c.value {
                assert(cards@[i as int].value == q);
            }
        }
        i += 1;
    }
    present
}

/// The high card of every straight among `cards`, in descending order, or
/// `None` where there is none.
pub fn check_straight(cards: &[Card]) -> (r: Option<Vec<u8>>)
    requires
        all_valid(cards@),
    ensures
        match r {
            Some(highs) => highs@ == straight_highs(cards@) && highs@.len() > 0,
            None => straight_highs(cards@).len() == 0,
        },
{
    let mut present = rank_presence(cards);
    let ace = present[14];
    present.set(1, ace);
    let ghost cs = cards@;
    assert(!has_rank(cs, 1)) by {
        if has_rank(cs, 1) {
            let j = choose|j: int| 0 <= j < cs.len() && cs[j].value == 1;
            assert(cs[j].is_valid());
        }
    }
    let mut highs: Vec<u8> = Vec::new();
    let mut v: usize = 14;
    while v >= 5
        invariant
            4 <= v <= 14,
            present@.len() == 15,
            forall|q: int| 1 <= q < 15 ==> present@[q] == has_rank_low(cs, q),
            highs@ == straight_highs_from(cs, v + 1),
        decreases v,
    {
        if present[v] && present[v - 1] && present[v - 2] && present[v - 3] && present[v - 4] {
            highs.push(v as u8);
        }
        v -= 1;
    }
    if highs.len() > 0 {
        Some(highs)
    } else {
        None
    }
}

/// The ranks in `lo..=14` that occur exactly `k` times, in descending order.
pub open spec fn ranks_with(cs: Seq<Card>, k: nat, lo: int) -> Seq<u8>
    decreases 15 - lo,
{
    if lo > 14 {
        seq![]
    } else {
        let higher = ranks_with(cs, k, lo + 1);
        if rank_count(cs, lo) == k {
            higher.push(lo as u8)
        } else {
            higher
        }
    }
}

/// The rank held four times, if any (the highest one, should there be two).
pub open spec fn quad_of(cs: Seq<Card>) -> Option<u8> {
    let q = ranks_with(cs, 4, 2);
    if q.len() > 0 {
        Some(q[0])
    } else {
        None
    }
}

/// How many times each rank `0..15` occurs among `cards`.
fn rank_counts(cards: &[Card]) -> (counts: Vec<usize>)
    requires
        all_valid(cards@),
    ensures
        counts@.len() == 15,
        forall|q: int| 0 <= q < 15 ==> counts@[q] == rank_count(cards@, q),
{
    let mut counts: Vec<usize> = Vec::new();
    let mut r: usize = 0;
    while r < 15
        invariant
            r <= 15,
            counts@.len() == r,
            forall|q: int| 0 <= q < r ==> counts@[q] == 0,
        decreases 15 - r,
    {
        counts.push(0);
        r += 1;
    }
    let ghost cs = cards@;
    assert(cs.take(0).len() == 0);
    let mut i: usize = 0;
    while i < cards.len()
        invariant
            i <= cs.len(),
            cs == cards@,
            all_valid(cs),
            counts@.len() == 15,
            forall|q: int| 0 <= q < 15 ==> counts@[q] == rank_count(cs.take(i as int), q),
            forall|q: int| 0 <= q < 15 ==> counts@[q] <= i,
        decreases cs.len() - i,
    {
        let c = cards[i];
        assert(cs[i as int].is_valid());
        assert(cs.take(i + 1).drop_last() =~= cs.take(i as int));
        assert(cs.take(i + 1).last() == c);
        let k = c.value as usize;
        counts.set(k, counts[k] + 1);
        i += 1;
    }
    assert(cs.take(cs.len() as int) =~= cs);
    counts
}

/// Partitions the ranks of `cards` by multiplicity: the rank held four times,
/// then the ranks held three times, twice and once, each in descending order.
pub fn check_multiples(cards: &[Card]) -> (r: (Option<u8>, Vec<u8>, Vec<u8>, Vec<u8>))
    requires
        all_valid(cards@),
        ranks_fit_deck(cards@),
    ensures
        r.0 == quad_of(cards@),
        r.1@ == ranks_with(cards@, 3, 2),
        r.2@ == ranks_with(cards@, 2, 2),
        r.3@ == ranks_with(cards@, 1, 2),
{
    let counts = rank_counts(cards);
    let ghost cs = cards@;
    let mut fours: Vec<u8> = Vec::new();
    let mut threes: Vec<u8> = Vec::new();
    let mut pairs: Vec<u8> = Vec::new();
    let mut singles: Vec<u8> = Vec::new();
    let mut v: usize = 14;
    while v >= 2
        invariant
            1 <= v <= 14,
            counts@.len() == 15,
            forall|q: int| 0 <= q < 15 ==> counts@[q] == rank_count(cs, q),
            fours@ == ranks_with(cs, 4, v + 1),
            threes@ == ranks_with(cs, 3, v + 1),
            pairs@ == ranks_with(cs, 2, v + 1),
            singles@ == ranks_with(cs, 1, v + 1),
        decreases v,
    {
        let n = counts[v];
        if n == 4 {
            fours.push(v as u8);
        } else if n == 3 {
            threes.push(v as u8);
        } else if n == 2 {
            pairs.push(v as u8);
        } else if n == 1 {
            singles.push(v as u8);
        }
        v -= 1;
    }
    let four = if fours.len() > 0 {
        Some(fours[0])
    } else {
        None
    };
    (four, threes, pairs, singles)
}

/// The cards of suit `s` and rank `v`, in their order in `cs`.
pub open spec fn cards_of(cs: Seq<Card>, s: int, v: int) -> Seq<Card>
    decreases cs.len(),
{
    if cs.len() == 0 {
        seq![]
    } else {
        let earlier = cards_of(cs.drop_last(), s, v);
        if cs.last().suit == s && cs.last().value == v {
            earlier.push(cs.last())
        } else {
            earlier
        }
    }
}

/// The cards of suit `s` with rank in `lo..=14`, highest rank first.
pub open spec fn suited_from(cs: Seq<Card>, s: int, lo: int) -> Seq<Card>
    decreases 15 - lo,
{
    if lo > 14 {
        seq![]
    } else {
        suited_from(cs, s, lo + 1) + cards_of(cs, s, lo)
    }
}

/// The first suit from `s` on that at least five cards have.
pub open spec fn flush_suit_from(cs: Seq<Card>, s: int) -> Option<int>
    decreases 4 - s,
{
    if s > 3 {
        None
    } else if suit_count(cs, s) >= 5 {
        Some(s)
    } else {
        flush_suit_from(cs, s + 1)
    }
}

/// The suit of the flush, if any suit has at least five cards.
pub open spec fn flush_suit(cs: Seq<Card>) -> Option<int> {
    flush_suit_from(cs, 0)
}

/// All cards of the flush suit, highest rank first, if there is a flush.
pub open spec fn flush_cards(cs: Seq<Card>) -> Option<Seq<Card>> {
    match flush_suit(cs) {
        Some(s) => Some(suited_from(cs, s, 2)),
        None => None,
    }
}

proof fn lemma_suited_from_empty(cs: Seq<Card>, s: int, lo: int)
    requires
        cs.len() == 0,
    ensures
        suited_from(cs, s, lo).len() == 0,
    decreases 15 - lo,
{
    if lo <= 14 {
        lemma_suited_from_empty(cs, s, lo + 1);
    }
}

proof fn lemma_suited_from_last(cs: Seq<Card>, s: int, lo: int)
    requires
        cs.len() > 0,
    ensures
        suited_from(cs, s, lo).len() == suited_from(cs.drop_last(), s, lo).len() + if cs.last().suit
            == s && lo <= cs.last().value <= 14 {
            1nat
        } else {
            0nat
        },
    decreases 15 - lo,
{
    if lo <= 14 {
        lemma_suited_from_last(cs, s, lo + 1);
    }
}

/// Among real cards, those of suit `s` sorted by rank are as many as the cards of suit `s`.
pub proof fn lemma_suited_len(cs: Seq<Card>, s: int)
    requires
        all_valid(cs),
    ensures
        suited_from(cs, s, 2).len() == suit_count(cs, s),
    decreases cs.len(),
{
    if cs.len() == 0 {
        lemma_suited_from_empty(cs, s, 2);
    } else {
        let d = cs.drop_last();
        assert(all_valid(d)) by {
            assert forall|i: int| 0 <= i < d.len() implies (#[trigger] d[i]).is_valid() by {
                assert(d[i] == cs[i]);
            }
        }
        assert(cs[cs.len() - 1].is_valid());
        lemma_suited_len(d, s);
        lemma_suited_from_last(cs, s, 2);
    }
}

/// The flush suit is the first suit from `s` on with at least five cards.
pub proof fn lemma_flush_suit_from(cs: Seq<Card>, s: int)
    ensures
        match flush_suit_from(cs, s) {
            Some(f) => s <= f <= 3 && suit_count(cs, f) >= 5,
            None => forall|t: int| s <= t <= 3 ==> suit_count(cs, t) < 5,
        },
    decreases 4 - s,
{
    if s <= 3 {
        lemma_flush_suit_from(cs, s + 1);
    }
}

/// How many cards of each suit `0..4` are among `cards`.
fn suit_counts(cards: &[Card]) -> (counts: Vec<usize>)
    requires
        all_valid(cards@),
    ensures
        counts@.len() == 4,
        forall|q: int| 0 <= q < 4 ==> counts@[q] == suit_count(cards@, q),
{
    let mut counts: Vec<usize> = vec![0, 0, 0, 0];
    let ghost cs = cards@;
    assert(cs.take(0).len() == 0);
    let mut i: usize = 0;
    while i < cards.len()
        invariant
            i <= cs.len(),
            cs == cards@,
            all_valid(cs),
            counts@.len() == 4,
            forall|q: int| 0 <= q < 4 ==> counts@[q] == suit_count(cs.take(i as int), q),
            forall|q: int| 0 <= q < 4 ==> counts@[q] <= i,
        decreases cs.len() - i,
    {
        let c = cards[i];
        assert(cs[i as int].is_valid());
        assert(cs.take(i + 1).drop_last() =~= cs.take(i as int));
        assert(cs.take(i + 1).last() == c);
        let k = c.suit as usize;
        counts.set(k, counts[k] + 1);
        i += 1;
    }
    assert(cs.take(cs.len() as int) =~= cs);
    counts
}

/// All cards of the suit that at least five of `cards` share, highest rank
/// first, or `None` where no suit has five.
pub fn check_flush(cards: &[Card]) -> (r: Option<Vec<Card>>)
    requires
        all_valid(cards@),
    ensures
        match r {
            Some(f) => flush_cards(cards@) == Some(f@) && f@.len() >= 5,
            None => flush_cards(cards@) is None,
        },
{
    let ghost cs = cards@;
    let counts = suit_counts(cards);
    let mut s: usize = 0;
    while s < 4 && counts[s] < 5
        invariant
            s <= 4,
            counts@.len() == 4,
            forall|q: int| 0 <= q < 4 ==> counts@[q] == suit_count(cs, q),
            flush_suit_from(cs, 0) == flush_suit_from(cs, s as int),
        decreases 4 - s,
    {
        s += 1;
    }
    if s == 4 {
        return None;
    }
    let mut flush: Vec<Card> = Vec::new();
    let mut v: u8 = 14;
    while v >= 2
        invariant
            1 <= v <= 14,
            s < 4,
            cs == cards@,
            flush@ == suited_from(cs, s as int, v + 1),
        decreases v,
    {
        let mut j: usize = 0;
        assert(cs.take(0) =~= seq![]);
        assert(flush@ =~= suited_from(cs, s as int, v + 1) + cards_of(cs.take(0), s as int, v as int));
        while j < cards.len()
            invariant
                j <= cs.len(),
                1 < v <= 14,
                s < 4,
                cs == cards@,
                flush@ == suited_from(cs, s as int, v + 1) + cards_of(cs.take(j as int), s as int, v as int),
            decreases cs.len() - j,
        {
            let c = cards[j];
            assert(cs.take(j + 1).drop_last() =~= cs.take(j as int));
            assert(cs.take(j + 1).last() == c);
            if c.suit as usize == s && c.value == v {
                flush.push(c);
            }
            j += 1;
        }
        assert(cs.take(cs.len() as int) =~= cs);
        v -= 1;
    }
    proof {
        lemma_suited_len(cs, s as int);
    }
    Some(flush)
}

/// Where no rank in `lo..hi` ends a straight, the highs from `lo` on are those from `hi` on.
pub proof fn lemma_straight_highs_skip(cs: Seq<Card>, lo: int, hi: int)
    requires
        lo <= hi <= 15,
        forall|v: int| lo <= v < hi ==> !straight_at(cs, v),
    ensures
        straight_highs_from(cs, lo) == straight_highs_from(cs, hi),
    decreases hi - lo,
{
    if lo < hi {
        lemma_straight_highs_skip(cs, lo + 1, hi);
    }
}

/// A straight ending at a rank in `lo..=14` is reported.
pub proof fn lemma_straight_found(cs: Seq<Card>, lo: int, v: int)
    requires
        lo <= v <= 14,
        straight_at(cs, v),
    ensures
        straight_highs_from(cs, lo).len() > 0,
    decreases v - lo,
{
    if lo < v {
        lemma_straight_found(cs, lo + 1, v);
    }
}

/// Where no card has a rank outside `keep`, the ranks outside it are absent.
proof fn lemma_ranks_absent(cs: Seq<Card>, keep: Set<int>)
    requires
        forall|i: int| 0 <= i < cs.len() ==> keep.contains(#[trigger] cs[i].value as int),
    ensures
        forall|r: int| !keep.contains(r) ==> !has_rank(cs, r),
{
    assert forall|r: int| !keep.contains(r) implies !has_rank(cs, r) by {
        if has_rank(cs, r) {
            let i = choose|i: int| 0 <= i < cs.len() && cs[i].value == r;
            assert(keep.contains(cs[i].value as int));
        }
    }
}

/// Cards whose ranks are exactly A, 2, 3, 4 and 5, in any suits, make one
/// straight: the wheel, with high card 5.
pub proof fn lemma_wheel(cs: Seq<Card>)
    requires
        forall|i: int|
            0 <= i < cs.len() ==> set![14int, 2, 3, 4, 5].contains(#[trigger] cs[i].value as int),
        has_rank(cs, 14),
        has_rank(cs, 2),
        has_rank(cs, 3),
        has_rank(cs, 4),
        has_rank(cs, 5),
    ensures
        straight_highs(cs) == seq![5u8],
{
    lemma_ranks_absent(cs, set![14int, 2, 3, 4, 5]);
    assert forall|v: int| 6 <= v < 15 implies !straight_at(cs, v) by {
        if v <= 13 {
            assert(!set![14int, 2, 3, 4, 5].contains(v));
        } else {
            assert(!set![14int, 2, 3, 4, 5].contains(10));
        }
    }
    lemma_straight_highs_skip(cs, 6, 15);
    assert(straight_at(cs, 5));
    assert(straight_highs_from(cs, 5) =~= seq![5u8]);
}

/// Cards whose ranks are exactly 10, J, Q, K and A, in any suits, make one
/// straight, with high card 14.
pub proof fn lemma_broadway(cs: Seq<Card>)
    requires
        forall|i: int|
            0 <= i < cs.len() ==> set![10int, 11, 12, 13, 14].contains(#[trigger] cs[i].value as int),
        has_rank(cs, 10),
        has_rank(cs, 11),
        has_rank(cs, 12),
        has_rank(cs, 13),
        has_rank(cs, 14),
    ensures
        straight_highs(cs) == seq![14u8],
{
    let keep = set![10int, 11, 12, 13, 14];
    lemma_ranks_absent(cs, keep);
    assert forall|v: int| 5 <= v < 14 implies !straight_at(cs, v) by {
        if v == 5 {
            assert(!keep.contains(2));
        } else {
            assert(!keep.contains(v - 4));
        }
    }
    lemma_straight_highs_skip(cs, 5, 14);
    assert(straight_at(cs, 14));
    assert(straight_highs_from(cs, 15) =~= seq![]);
    assert(straight_highs_from(cs, 14) =~= seq![14u8]);
}

/// The first reported high is the highest rank in `lo..=14` that ends a straight.
pub proof fn lemma_first_high(cs: Seq<Card>, lo: int)
    requires
        straight_highs_from(cs, lo).len() > 0,
    ensures
        lo <= straight_highs_from(cs, lo)[0] <= 14,
        straight_at(cs, straight_highs_from(cs, lo)[0] as int),
        forall|w: int| straight_highs_from(cs, lo)[0] < w <= 14 ==> !straight_at(cs, w),
    decreases 15 - lo,
{
    if lo <= 14 {
        let higher = straight_highs_from(cs, lo + 1);
        if higher.len() > 0 {
            lemma_first_high(cs, lo + 1);
            if straight_at(cs, lo) {
                assert(higher.push(lo as u8)[0] == higher[0]);
            }
        } else {
            assert forall|w: int| lo < w <= 14 implies !straight_at(cs, w) by {
                if straight_at(cs, w) {
                    lemma_straight_found(cs, lo + 1, w);
                }
            }
            assert(higher.push(lo as u8)[0] == lo as u8);
        }
    }
}

} // verus!
