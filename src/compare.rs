//! The total order on hand ranks: category first, then tie-break ranks.

use vstd::prelude::*;

use crate::card::Card;
use crate::rank::{HandRank, rank_of};

verus! {

/// Lexicographic comparison of two rank sequences: -1, 0 or 1; a proper
/// prefix comes first.
pub open spec fn lex_cmp(a: Seq<u8>, b: Seq<u8>) -> int
    decreases a.len(),
{
    if a.len() == 0 {
        if b.len() == 0 {
            0
        } else {
            -1
        }
    } else if b.len() == 0 {
        1
    } else if a[0] < b[0] {
        -1
    } else if a[0] > b[0] {
        1
    } else {
        lex_cmp(a.drop_first(), b.drop_first())
    }
}

/// The position of a hand's category, from high card (0) to royal flush (9).
pub open spec fn category_of(h: HandRank) -> int {
    match h {
        HandRank::HighCard(..) => 0,
        HandRank::OnePair(..) => 1,
        HandRank::TwoPair(..) => 2,
        HandRank::ThreeOfAKind(..) => 3,
        HandRank::Straight(..) => 4,
        HandRank::Flush(..) => 5,
        HandRank::FullHouse(..) => 6,
        HandRank::FourOfAKind(..) => 7,
        HandRank::StraightFlush(..) => 8,
        HandRank::RoyalFlush => 9,
    }
}

/// The tie-break ranks that a hand carries, in the order they are compared.
pub open spec fn tiebreak_of(h: HandRank) -> Seq<u8> {
    match h {
        HandRank::HighCard(a, b, c, d, e) => seq![a, b, c, d, e],
        HandRank::OnePair(a, b, c, d) => seq![a, b, c, d],
        HandRank::TwoPair(a, b, c) => seq![a, b, c],
        HandRank::ThreeOfAKind(a, b, c) => seq![a, b, c],
        HandRank::Straight(a) => seq![a],
        HandRank::Flush(a, b, c, d, e) => seq![a, b, c, d, e],
        HandRank::FullHouse(a, b) => seq![a, b],
        HandRank::FourOfAKind(a, b) => seq![a, b],
        HandRank::StraightFlush(a) => seq![a],
        HandRank::RoyalFlush => seq![],
    }
}

/// How hand `a` compares with hand `b`: 1 when `a` is better, -1 when it is
/// worse, 0 on a tie.
pub open spec fn hand_cmp(a: HandRank, b: HandRank) -> int {
    if category_of(a) < category_of(b) {
        -1
    } else if category_of(a) > category_of(b) {
        1
    } else {
        lex_cmp(tiebreak_of(a), tiebreak_of(b))
    }
}

impl HandRank {
    /// The position of the category, from high card (0) to royal flush (9).
    pub fn category(&self) -> (r: u8)
        ensures
            r as int == category_of(*self),
    {
        match self {
            HandRank::HighCard(..) => 0,
            HandRank::OnePair(..) => 1,
            HandRank::TwoPair(..) => 2,
            HandRank::ThreeOfAKind(..) => 3,
            HandRank::Straight(..) => 4,
            HandRank::Flush(..) => 5,
            HandRank::FullHouse(..) => 6,
            HandRank::FourOfAKind(..) => 7,
            HandRank::StraightFlush(..) => 8,
            HandRank::RoyalFlush => 9,
        }
    }

    /// The tie-break ranks, in the order they are compared.
    pub fn tiebreak(&self) -> (r: Vec<u8>)
        ensures
            r@ == tiebreak_of(*self),
    {
        let r = match *self {
            HandRank::HighCard(a, b, c, d, e) => vec![a, b, c, d, e],
            HandRank::OnePair(a, b, c, d) => vec![a, b, c, d],
            HandRank::TwoPair(a, b, c) => vec![a, b, c],
            HandRank::ThreeOfAKind(a, b, c) => vec![a, b, c],
            HandRank::Straight(a) => vec![a],
            HandRank::Flush(a, b, c, d, e) => vec![a, b, c, d, e],
            HandRank::FullHouse(a, b) => vec![a, b],
            HandRank::FourOfAKind(a, b) => vec![a, b],
            HandRank::StraightFlush(a) => vec![a],
            HandRank::RoyalFlush => Vec::new(),
        };
        assert(r@ =~= tiebreak_of(*self));
        r
    }
}

/// Compares two rank sequences lexicographically: -1, 0 or 1, a proper prefix
/// coming first.
pub fn compare_cards(cards1: &[u8], cards2: &[u8]) -> (r: i32)
    ensures
        r as int == lex_cmp(cards1@, cards2@),
{
    let ghost a = cards1@;
    let ghost b = cards2@;
    let mut i: usize = 0;
    assert(a.skip(0) =~= a);
    assert(b.skip(0) =~= b);
    loop
        invariant
            i <= a.len(),
            i <= b.len(),
            a == cards1@,
            b == cards2@,
            lex_cmp(a, b) == lex_cmp(a.skip(i as int), b.skip(i as int)),
        decreases a.len() - i,
    {
        if i == cards1.len() {
            if i == cards2.len() {
                return 0;
            }
            return -1;
        }
        if i == cards2.len() {
            return 1;
        }
        assert(a.skip(i as int)[0] == a[i as int]);
        assert(b.skip(i as int)[0] == b[i as int]);
        if cards1[i] < cards2[i] {
            return -1;
        }
        if cards1[i] > cards2[i] {
            return 1;
        }
        assert(a.skip(i as int).drop_first() =~= a.skip(i + 1));
        assert(b.skip(i as int).drop_first() =~= b.skip(i + 1));
        i += 1;
    }
}

/// Compares two hands: 1 when `hand1` is better, -1 when it is worse, 0 on a tie.
pub fn compare_hands(hand1: HandRank, hand2: HandRank) -> (r: i32)
    ensures
        r as int == hand_cmp(hand1, hand2),
{
    let c1 = hand1.category();
    let c2 = hand2.category();
    if c1 < c2 {
        -1
    } else if c1 > c2 {
        1
    } else {
        let cards1 = hand1.tiebreak();
        let cards2 = hand2.tiebreak();
        compare_cards(cards1.as_slice(), cards2.as_slice())
    }
}

proof fn lemma_lex_cmp_antisymmetric(a: Seq<u8>, b: Seq<u8>)
    ensures
        lex_cmp(a, b) == -lex_cmp(b, a),
        -1 <= lex_cmp(a, b) <= 1,
        lex_cmp(a, b) == 0 <==> a == b,
    decreases a.len(),
{
    if a.len() > 0 && b.len() > 0 && a[0] == b[0] {
        lemma_lex_cmp_antisymmetric(a.drop_first(), b.drop_first());
        if a.drop_first() == b.drop_first() {
            assert(a =~= seq![a[0]] + a.drop_first());
            assert(b =~= seq![b[0]] + b.drop_first());
        }
    }
    if a.len() == 0 && b.len() == 0 {
        assert(a =~= b);
    }
    if a == b && a.len() > 0 {
        assert(a.drop_first() == b.drop_first());
    }
}

proof fn lemma_lex_cmp_transitive(a: Seq<u8>, b: Seq<u8>, c: Seq<u8>)
    requires
        lex_cmp(a, b) == 1,
        lex_cmp(b, c) == 1,
    ensures
        lex_cmp(a, c) == 1,
    decreases a.len(),
{
    if a.len() > 0 && b.len() > 0 && c.len() > 0 && a[0] == b[0] && b[0] == c[0] {
        lemma_lex_cmp_transitive(a.drop_first(), b.drop_first(), c.drop_first());
    }
}

proof fn lemma_tiebreak_determines(a: HandRank, b: HandRank)
    requires
        category_of(a) == category_of(b),
        tiebreak_of(a) == tiebreak_of(b),
    ensures
        a == b,
{
    let s = tiebreak_of(a);
    let t = tiebreak_of(b);
    assert(s.len() == t.len());
    assert(forall|i: int| 0 <= i < s.len() ==> s[i] == t[i]);
    match (a, b) {
        (HandRank::HighCard(x0, x1, x2, x3, x4), HandRank::HighCard(y0, y1, y2, y3, y4)) => {
            assert(s[0] == x0 && t[0] == y0);
            assert(s[1] == x1 && t[1] == y1);
            assert(s[2] == x2 && t[2] == y2);
            assert(s[3] == x3 && t[3] == y3);
            assert(s[4] == x4 && t[4] == y4);
        },
        (HandRank::OnePair(x0, x1, x2, x3), HandRank::OnePair(y0, y1, y2, y3)) => {
            assert(s[0] == x0 && t[0] == y0);
            assert(s[1] == x1 && t[1] == y1);
            assert(s[2] == x2 && t[2] == y2);
            assert(s[3] == x3 && t[3] == y3);
        },
        (HandRank::TwoPair(x0, x1, x2), HandRank::TwoPair(y0, y1, y2)) => {
            assert(s[0] == x0 && t[0] == y0);
            assert(s[1] == x1 && t[1] == y1);
            assert(s[2] == x2 && t[2] == y2);
        },
        (HandRank::ThreeOfAKind(x0, x1, x2), HandRank::ThreeOfAKind(y0, y1, y2)) => {
            assert(s[0] == x0 && t[0] == y0);
            assert(s[1] == x1 && t[1] == y1);
            assert(s[2] == x2 && t[2] == y2);
        },
        (HandRank::Straight(x0), HandRank::Straight(y0)) => {
            assert(s[0] == x0 && t[0] == y0);
        },
        (HandRank::Flush(x0, x1, x2, x3, x4), HandRank::Flush(y0, y1, y2, y3, y4)) => {
            assert(s[0] == x0 && t[0] == y0);
            assert(s[1] == x1 && t[1] == y1);
            assert(s[2] == x2 && t[2] == y2);
            assert(s[3] == x3 && t[3] == y3);
            assert(s[4] == x4 && t[4] == y4);
        },
        (HandRank::FullHouse(x0, x1), HandRank::FullHouse(y0, y1)) => {
            assert(s[0] == x0 && t[0] == y0);
            assert(s[1] == x1 && t[1] == y1);
        },
        (HandRank::FourOfAKind(x0, x1), HandRank::FourOfAKind(y0, y1)) => {
            assert(s[0] == x0 && t[0] == y0);
            assert(s[1] == x1 && t[1] == y1);
        },
        (HandRank::StraightFlush(x0), HandRank::StraightFlush(y0)) => {
            assert(s[0] == x0 && t[0] == y0);
        },
        (HandRank::RoyalFlush, HandRank::RoyalFlush) => {},
        _ => {},
    }
}

/// Two hands tie exactly when they are the same rank value, category and
/// every tie-break rank alike.
pub proof fn lemma_compare_zero_iff_equal(a: HandRank, b: HandRank)
    ensures
        hand_cmp(a, b) == 0 <==> a == b,
{
    lemma_lex_cmp_antisymmetric(tiebreak_of(a), tiebreak_of(b));
    if hand_cmp(a, b) == 0 {
        lemma_tiebreak_determines(a, b);
    }
}

/// Swapping the hands negates the comparison, which is always -1, 0 or 1.
pub proof fn lemma_compare_antisymmetric(a: HandRank, b: HandRank)
    ensures
        hand_cmp(a, b) == -hand_cmp(b, a),
        -1 <= hand_cmp(a, b) <= 1,
{
    lemma_lex_cmp_antisymmetric(tiebreak_of(a), tiebreak_of(b));
}

/// Beating is transitive.
pub proof fn lemma_compare_transitive(a: HandRank, b: HandRank, c: HandRank)
    requires
        hand_cmp(a, b) == 1,
        hand_cmp(b, c) == 1,
    ensures
        hand_cmp(a, c) == 1,
{
    if category_of(a) == category_of(b) && category_of(b) == category_of(c) {
        lemma_lex_cmp_transitive(tiebreak_of(a), tiebreak_of(b), tiebreak_of(c));
    }
}

/// Two full houses with the same two ranks tie, whatever cards made them.
pub proof fn lemma_full_house_ties(cs1: Seq<Card>, cs2: Seq<Card>, x: u8, y: u8)
    requires
        rank_of(cs1) == HandRank::FullHouse(x, y),
        rank_of(cs2) == HandRank::FullHouse(x, y),
    ensures
        hand_cmp(rank_of(cs1), rank_of(cs2)) == 0,
{
    lemma_compare_zero_iff_equal(rank_of(cs1), rank_of(cs2));
}

} // verus!
