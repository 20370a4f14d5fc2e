//! Playing cards and the counting functions that the detectors are specified with.

use vstd::prelude::*;

verus! {

/// A playing card: `value` is the rank (2..=14, where 11 = J, 12 = Q, 13 = K, 14 = A)
/// and `suit` is one of 0..=3, with no order between suits.
#[derive(Clone, Copy, Debug, PartialEq, Eq, Structural)]
pub struct Card {
    pub value: u8,
    pub suit: u8,
}

impl Card {
    /// The card has a real rank and suit.
    pub open spec fn is_valid(self) -> bool {
        2 <= self.value <= 14 && self.suit <= 3
    }
}

/// Every card of the sequence is a real card.
pub open spec fn all_valid(cs: Seq<Card>) -> bool {
    forall|i: int| 0 <= i < cs.len() ==> (#[trigger] cs[i]).is_valid()
}

/// How many cards of the sequence have rank `v`.
pub open spec fn rank_count(cs: Seq<Card>, v: int) -> nat
    decreases cs.len(),
{
    if cs.len() == 0 {
        0
    } else {
        rank_count(cs.drop_last(), v) + if cs.last().value == v {
            1nat
        } else {
            0nat
        }
    }
}

/// How many cards of the sequence have suit `s`.
pub open spec fn suit_count(cs: Seq<Card>, s: int) -> nat
    decreases cs.len(),
{
    if cs.len() == 0 {
        0
    } else {
        suit_count(cs.drop_last(), s) + if cs.last().suit == s {
            1nat
        } else {
            0nat
        }
    }
}

/// No rank occurs more than four times, as in any set drawn from one deck.
pub open spec fn ranks_fit_deck(cs: Seq<Card>) -> bool {
    forall|v: int| #[trigger] rank_count(cs, v) <= 4
}

/// Some card of the sequence has rank `v`.
pub open spec fn has_rank(cs: Seq<Card>, v: int) -> bool {
    exists|i: int| 0 <= i < cs.len() && cs[i].value == v
}

/// Sum of `rank_count(cs, v)` over the ranks `lo..=14`.
pub open spec fn count_from(cs: Seq<Card>, lo: int) -> nat
    decreases 15 - lo,
{
    if lo > 14 {
        0
    } else {
        count_from(cs, lo + 1) + rank_count(cs, lo)
    }
}

pub proof fn lemma_rank_count_positive(cs: Seq<Card>, v: int)
    ensures
        rank_count(cs, v) > 0 <==> has_rank(cs, v),
    decreases cs.len(),
{
    if cs.len() > 0 {
        let d = cs.drop_last();
        lemma_rank_count_positive(d, v);
        if has_rank(d, v) {
            let i = choose|i: int| 0 <= i < d.len() && d[i].value == v;
            assert(cs[i] == d[i]);
        }
        if has_rank(cs, v) {
            let i = choose|i: int| 0 <= i < cs.len() && cs[i].value == v;
            if i < d.len() {
                assert(d[i] == cs[i]);
            }
        }
        if cs.last().value == v {
            assert(cs[cs.len() - 1].value == v);
        }
    }
}

proof fn lemma_count_from_empty(cs: Seq<Card>, lo: int)
    requires
        cs.len() == 0,
    ensures
        count_from(cs, lo) == 0,
    decreases 15 - lo,
{
    if lo <= 14 {
        lemma_count_from_empty(cs, lo + 1);
    }
}

proof fn lemma_count_from_last(cs: Seq<Card>, lo: int)
    requires
        cs.len() > 0,
    ensures
        count_from(cs, lo) == count_from(cs.drop_last(), lo) + if lo <= cs.last().value
            <= 14 {
            1nat
        } else {
            0nat
        },
    decreases 15 - lo,
{
    if lo <= 14 {
        lemma_count_from_last(cs, lo + 1);
    }
}

/// The ranks of a sequence of real cards add up to its length.
pub proof fn lemma_count_from_len(cs: Seq<Card>)
    requires
        all_valid(cs),
    ensures
        count_from(cs, 2) == cs.len(),
    decreases cs.len(),
{
    if cs.len() > 0 {
        let d = cs.drop_last();
        assert(all_valid(d)) by {
            assert forall|i: int| 0 <= i < d.len() implies (#[trigger] d[i]).is_valid() by {
                assert(d[i] == cs[i]);
            }
        }
        assert(cs[cs.len() - 1].is_valid());
        lemma_count_from_len(d);
        lemma_count_from_last(cs, 2);
    } else {
        lemma_count_from_empty(cs, 2);
    }
}

/// Filtering keeps a sequence free of duplicates, and keeps exactly the
/// elements that pass.
pub proof fn lemma_filter_no_dup<A>(s: Seq<A>, pred: spec_fn(A) -> bool)
    requires
        s.no_duplicates(),
    ensures
        s.filter(pred).no_duplicates(),
        forall|x: A| #[trigger] s.filter(pred).contains(x) <==> s.contains(x) && pred(x),
    decreases s.len(),
{
    if s.len() > 0 {
        let d = s.drop_last();
        assert(d.no_duplicates()) by {
            assert forall|i: int, j: int|
                0 <= i < d.len() && 0 <= j < d.len() && i != j implies d[i] != d[j] by {
                assert(d[i] == s[i] && d[j] == s[j]);
            }
        }
        lemma_filter_no_dup(d, pred);
        assert(s =~= d.push(s.last()));
        d.lemma_filter_push(s.last(), pred);
        assert(!d.contains(s.last())) by {
            if d.contains(s.last()) {
                let i = choose|i: int| 0 <= i < d.len() && d[i] == s.last();
                assert(s[i] == s[s.len() - 1]);
            }
        }
        let fd = d.filter(pred);
        assert forall|x: A| #[trigger] s.filter(pred).contains(x) <==> s.contains(x) && pred(x) by {
            if s.contains(x) && x != s.last() {
                let i = choose|i: int| 0 <= i < s.len() && s[i] == x;
                assert(d[i] == x);
            }
            if d.contains(x) {
                let i = choose|i: int| 0 <= i < d.len() && d[i] == x;
                assert(s[i] == x);
            }
            if pred(s.last()) {
                assert(fd.push(s.last())[fd.len() as int] == s.last());
                if fd.contains(x) {
                    let i = choose|i: int| 0 <= i < fd.len() && fd[i] == x;
                    assert(fd.push(s.last())[i] == x);
                }
                if fd.push(s.last()).contains(x) && x != s.last() {
                    let i = choose|i: int| 0 <= i < fd.len() + 1 && fd.push(s.last())[i] == x;
                    assert(fd[i] == x);
                }
            }
        }
        if pred(s.last()) {
            assert(!fd.contains(s.last()));
        }
    }
}

proof fn lemma_rank_count_filter(cs: Seq<Card>, v: int, p: spec_fn(Card) -> bool)
    requires
        forall|c: Card| #[trigger] p(c) == (c.value == v),
    ensures
        rank_count(cs, v) == cs.filter(p).len(),
    decreases cs.len(),
{
    if cs.len() > 0 {
        let d = cs.drop_last();
        lemma_rank_count_filter(d, v, p);
        assert(cs =~= d.push(cs.last()));
        d.lemma_filter_push(cs.last(), p);
    }
}

/// Different real cards hold no rank more than four times, one per suit.
pub proof fn lemma_distinct_cards_fit_deck(cs: Seq<Card>)
    requires
        all_valid(cs),
        cs.no_duplicates(),
    ensures
        ranks_fit_deck(cs),
{
    broadcast use vstd::seq_lib::seq_to_set_is_finite;

    assert forall|v: int| #[trigger] rank_count(cs, v) <= 4 by {
        let p = |c: Card| c.value == v;
        lemma_rank_count_filter(cs, v, p);
        lemma_filter_no_dup(cs, p);
        let f = cs.filter(p);
        let four = seq![
            Card { value: v as u8, suit: 0 },
            Card { value: v as u8, suit: 1 },
            Card { value: v as u8, suit: 2 },
            Card { value: v as u8, suit: 3 },
        ];
        assert(f.to_set().subset_of(four.to_set())) by {
            assert forall|x: Card| f.to_set().contains(x) implies four.to_set().contains(x) by {
                assert(f.contains(x));
                let i = choose|i: int| 0 <= i < cs.len() && cs[i] == x;
                assert(cs[i].is_valid());
                assert(four[x.suit as int] == x);
            }
        }
        f.unique_seq_to_set();
        four.lemma_cardinality_of_set();
        vstd::set_lib::lemma_len_subset(f.to_set(), four.to_set());
    }
}

} // verus!
