//! The 52-card deck: building it, removing the known cards, shuffling.

use rand::rngs::StdRng;
use rand::seq::SliceRandom;
use rand::SeedableRng;
use vstd::prelude::*;

use crate::card::{Card, all_valid, lemma_filter_no_dup};

verus! {

#[verifier::external_type_specification]
#[verifier::external_body]
pub struct ExStdRng(rand::rngs::StdRng);

/// The card at position `i` of a fresh deck: the suits in order, ranks 2..=14 in each.
pub open spec fn deck_card(i: int) -> Card {
    Card { value: (i % 13 + 2) as u8, suit: (i / 13) as u8 }
}

/// A fresh deck, in its generation order.
pub open spec fn full_deck() -> Seq<Card> {
    Seq::new(52, |i: int| deck_card(i))
}

/// The cards of `deck` that are neither in `hand` nor on `board`, in their order.
pub open spec fn without_known(deck: Seq<Card>, hand: Seq<Card>, board: Seq<Card>) -> Seq<Card> {
    deck.filter(|c: Card| !hand.contains(c) && !board.contains(c))
}

proof fn lemma_deck_card(s: int, v: int)
    requires
        0 <= s < 4,
        0 <= v < 13,
    ensures
        deck_card(13 * s + v) == (Card { value: (v + 2) as u8, suit: s as u8 }),
{
    vstd::arithmetic::div_mod::lemma_fundamental_div_mod_converse(13 * s + v, 13, s, v);
}

/// A fresh deck of the 52 cards, suit by suit, ranks ascending within a suit.
pub fn create_deck() -> (deck: Vec<Card>)
    ensures
        deck@ == full_deck(),
{
    let mut deck: Vec<Card> = Vec::new();
    let mut suit: u8 = 0;
    while suit < 4
        invariant
            suit <= 4,
            deck@.len() == 13 * suit,
            forall|i: int| 0 <= i < deck@.len() ==> deck@[i] == deck_card(i),
        decreases 4 - suit,
    {
        let mut value: u8 = 2;
        while value <= 14
            invariant
                suit < 4,
                2 <= value <= 15,
                deck@.len() == 13 * suit + value - 2,
                forall|i: int| 0 <= i < deck@.len() ==> deck@[i] == deck_card(i),
            decreases 15 - value,
        {
            proof {
                lemma_deck_card(suit as int, value - 2);
            }
            deck.push(Card { value, suit });
            value += 1;
        }
        suit += 1;
    }
    assert(deck@ =~= full_deck());
    deck
}

/// The fresh deck holds 52 different real cards.
pub proof fn lemma_full_deck()
    ensures
        full_deck().no_duplicates(),
        all_valid(full_deck()),
        full_deck().len() == 52,
{
    assert forall|i: int| 0 <= i < 52 implies (#[trigger] full_deck()[i]).is_valid() by {
        vstd::arithmetic::div_mod::lemma_fundamental_div_mod(i, 13);
    }
    assert forall|i: int, j: int| 0 <= i < 52 && 0 <= j < 52 && i != j implies full_deck()[i]
        != full_deck()[j] by {
        vstd::arithmetic::div_mod::lemma_fundamental_div_mod(i, 13);
        vstd::arithmetic::div_mod::lemma_fundamental_div_mod(j, 13);
    }
}

/// Removes from `deck` every card that is in `hand` or on `board`, keeping the
/// order of the others.
pub fn remove_known_cards(deck: &mut Vec<Card>, hand: &[Card; 2], board: &Vec<Card>)
    ensures
        final(deck)@ == without_known(old(deck)@, hand@, board@),
{
    let ghost d = old(deck)@;
    let ghost pred = |c: Card| !hand@.contains(c) && !board@.contains(c);
    let mut kept: Vec<Card> = Vec::new();
    let mut i: usize = 0;
    assert(d.take(0) =~= seq![]);
    while i < deck.len()
        invariant
            i <= d.len(),
            deck@ == d,
            kept@ == d.take(i as int).filter(pred),
            pred == (|c: Card| !hand@.contains(c) && !board@.contains(c)),
        decreases d.len() - i,
    {
        let c = deck[i];
        let mut known = hand[0] == c || hand[1] == c;
        let mut j: usize = 0;
        while j < board.len() && !known
            invariant
                j <= board@.len(),
                known <==> (hand@.contains(c) || exists|k: int| 0 <= k < j && board@[k] == c),
            decreases board@.len() - j,
        {
            if board[j] == c {
                known = true;
            }
            j += 1;
        }
        assert(hand@.contains(c) <==> (hand@[0] == c || hand@[1] == c)) by {
            if hand@.contains(c) {
                let k = choose|k: int| 0 <= k < hand@.len() && hand@[k] == c;
            }
            if hand@[0] == c {
                assert(hand@.contains(c));
            }
            if hand@[1] == c {
                assert(hand@.contains(c));
            }
        }
        assert(known <==> !pred(c));
        proof {
            d.take(i as int).lemma_filter_push(c, pred);
            assert(d.take(i as int).push(c) =~= d.take(i + 1));
        }
        if !known {
            kept.push(c);
        }
        i += 1;
    }
    assert(d.take(d.len() as int) =~= d);
    *deck = kept;
}

/// Removes the last card of the deck and returns it.
pub fn deal(deck: &mut Vec<Card>) -> (c: Card)
    requires
        old(deck)@.len() > 0,
    ensures
        c == old(deck)@.last(),
        final(deck)@ == old(deck)@.drop_last(),
{
    deck.pop().unwrap()
}

/// Relies on rand's `SeedableRng::seed_from_u64` for `StdRng`: a generator
/// whose output is fixed by the seed.
#[verifier::external_body]
pub(crate) fn seeded_rng(seed: u64) -> (rng: StdRng) {
    StdRng::seed_from_u64(seed)
}

/// Relies on rand's `SliceRandom::shuffle`: it only swaps cards of the deck, so
/// the shuffled deck holds the same cards.
#[verifier::external_body]
pub(crate) fn shuffle_deck(deck: &mut Vec<Card>, rng: &mut StdRng)
    ensures
        final(deck)@.to_multiset() == old(deck)@.to_multiset(),
        final(deck)@.len() == old(deck)@.len(),
{
    deck.shuffle(rng);
}

/// The fresh deck without the known cards: different real cards, none of them
/// known, and at least 52 less the number of known cards.
pub proof fn lemma_unknown_cards(hand: Seq<Card>, board: Seq<Card>)
    ensures
        without_known(full_deck(), hand, board).no_duplicates(),
        all_valid(without_known(full_deck(), hand, board)),
        forall|c: Card| #[trigger]
            without_known(full_deck(), hand, board).contains(c) ==> !hand.contains(c)
                && !board.contains(c),
        without_known(full_deck(), hand, board).len() + hand.len() + board.len() >= 52,
{
    broadcast use vstd::seq_lib::seq_to_set_is_finite;

    let pred = |c: Card| !hand.contains(c) && !board.contains(c);
    let d = full_deck();
    let f = without_known(d, hand, board);
    lemma_full_deck();
    lemma_filter_no_dup(d, pred);
    assert(f == d.filter(pred));
    assert forall|i: int| 0 <= i < f.len() implies (#[trigger] f[i]).is_valid() by {
        assert(f.contains(f[i]));
        let j = choose|j: int| 0 <= j < d.len() && d[j] == f[i];
    }
    let a = d.to_set();
    let k = hand.to_set() + board.to_set();
    assert(f.to_set() =~= a.difference(k));
    f.unique_seq_to_set();
    d.unique_seq_to_set();
    hand.lemma_cardinality_of_set();
    board.lemma_cardinality_of_set();
    vstd::set_lib::lemma_len_union(hand.to_set(), board.to_set());
    vstd::set_lib::lemma_set_difference_len(a, k);
    vstd::set_lib::lemma_len_subset(a.intersect(k), k);
}

/// A deck holding the same cards as a deck without duplicates has none either,
/// and holds exactly its cards.
pub proof fn lemma_same_cards(before: Seq<Card>, after: Seq<Card>)
    requires
        before.no_duplicates(),
        after.to_multiset() == before.to_multiset(),
    ensures
        after.no_duplicates(),
        forall|c: Card| #[trigger] after.contains(c) <==> before.contains(c),
{
    before.lemma_multiset_has_no_duplicates();
    after.lemma_multiset_has_no_duplicates_conv();
    assert forall|c: Card| #[trigger] after.contains(c) <==> before.contains(c) by {
        vstd::seq_lib::to_multiset_contains(after, c);
        vstd::seq_lib::to_multiset_contains(before, c);
    }
}

} // verus!
