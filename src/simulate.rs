//! One simulated deal, and the tally of outcomes over many of them.

use vstd::prelude::*;

use crate::card::{
    Card, all_valid, lemma_distinct_cards_fit_deck, rank_count, ranks_fit_deck, suit_count,
};
use crate::detect::{flush_cards, flush_suit_from, quad_of, ranks_with};
use crate::compare::{compare_hands, hand_cmp};
use crate::deck::{
    create_deck, deal, full_deck, lemma_same_cards, lemma_unknown_cards, remove_known_cards,
    seeded_rng, shuffle_deck, without_known,
};
use crate::rank::{HandRank, evaluate_hand, lemma_ranks_with, rank_of};

verus! {

/// How the tracked player fares in one simulated deal.
#[derive(Clone, Copy, Debug, PartialEq, Eq, Structural)]
pub enum TrialOutcome {
    Win,
    Tie,
    Loss,
}

/// The `t`-th card dealt, counting from 0: cards are dealt from the end of the deck.
pub open spec fn dealt(deck: Seq<Card>, t: int) -> Card {
    deck[deck.len() - 1 - t]
}

/// The two hole cards of opponent `j`, dealt before the board.
pub open spec fn opponent_hand(deck: Seq<Card>, j: int) -> Seq<Card> {
    seq![dealt(deck, 2 * j), dealt(deck, 2 * j + 1)]
}

/// The board filled up to five cards with those dealt after the opponents' hole cards.
pub open spec fn completed_board(board: Seq<Card>, deck: Seq<Card>, opponents: int) -> Seq<Card> {
    board + Seq::new((5 - board.len()) as nat, |t: int| dealt(deck, 2 * opponents + t))
}

/// Win when the tracked hand beats every opponent, Tie when it ties with every
/// opponent, Loss otherwise.
pub open spec fn outcome_of(mine: HandRank, others: Seq<HandRank>) -> TrialOutcome {
    if forall|j: int| 0 <= j < others.len() ==> hand_cmp(mine, #[trigger] others[j]) == 1 {
        TrialOutcome::Win
    } else if forall|j: int| 0 <= j < others.len() ==> hand_cmp(mine, #[trigger] others[j]) == 0 {
        TrialOutcome::Tie
    } else {
        TrialOutcome::Loss
    }
}

/// The ranks of the opponents' hands on the completed board.
pub open spec fn opponent_ranks(board: Seq<Card>, deck: Seq<Card>, opponents: int) -> Seq<
    HandRank,
> {
    Seq::new(
        opponents as nat,
        |j: int| rank_of(opponent_hand(deck, j) + completed_board(board, deck, opponents)),
    )
}

/// The outcome of a deal from `deck` to `num_players` players, the tracked one holding `hand`.
pub open spec fn trial_outcome(
    hand: Seq<Card>,
    board: Seq<Card>,
    num_players: int,
    deck: Seq<Card>,
) -> TrialOutcome {
    let opponents = num_players - 1;
    outcome_of(
        rank_of(hand + completed_board(board, deck, opponents)),
        opponent_ranks(board, deck, opponents),
    )
}

/// A deal to `num_players` players on a board of `board_len` cards fits in a
/// deck of `deck_len` cards.
pub open spec fn deal_fits(board_len: int, num_players: int, deck_len: int) -> bool {
    1 <= num_players && board_len <= 5 && 2 * (num_players - 1) + 5 - board_len <= deck_len
}

/// Cards picked from different places of a set of different real cards are
/// different real cards.
proof fn lemma_picks(all: Seq<Card>, sub: Seq<Card>, pos: spec_fn(int) -> int)
    requires
        all.no_duplicates(),
        all_valid(all),
        forall|k: int| 0 <= k < sub.len() ==> 0 <= #[trigger] pos(k) < all.len(),
        forall|k: int| 0 <= k < sub.len() ==> sub[k] == all[#[trigger] pos(k)],
        forall|k1: int, k2: int|
            0 <= k1 < sub.len() && 0 <= k2 < sub.len() && k1 != k2 ==> #[trigger] pos(k1)
                != #[trigger] pos(k2),
    ensures
        all_valid(sub),
        ranks_fit_deck(sub),
{
    assert forall|k: int| 0 <= k < sub.len() implies (#[trigger] sub[k]).is_valid() by {
        assert(all[pos(k)].is_valid());
    }
    assert(sub.no_duplicates()) by {
        assert forall|k1: int, k2: int|
            0 <= k1 < sub.len() && 0 <= k2 < sub.len() && k1 != k2 implies sub[k1] != sub[k2] by {
            assert(pos(k1) != pos(k2));
        }
    }
    lemma_distinct_cards_fit_deck(sub);
}

/// The tracked player's seven cards are different real cards.
proof fn lemma_tracked_cards(h: Seq<Card>, b: Seq<Card>, d: Seq<Card>, o: int)
    requires
        h.len() == 2,
        0 <= o,
        b.len() <= 5,
        2 * o + 5 - b.len() <= d.len(),
        all_valid(h + b + d),
        (h + b + d).no_duplicates(),
    ensures
        all_valid(h + completed_board(b, d, o)),
        ranks_fit_deck(h + completed_board(b, d, o)),
{
    let all = h + b + d;
    let fb = completed_board(b, d, o);
    let bl = b.len() as int;
    let n = d.len() as int;
    let pos = |k: int|
        if k < 2 + bl {
            k
        } else {
            2 + bl + n - 1 - (2 * o + (k - 2 - bl))
        };
    assert forall|k: int| 0 <= k < (h + fb).len() implies (h + fb)[k] == all[#[trigger] pos(k)] by {
        if k >= 2 + bl {
            assert(fb[k - 2] == dealt(d, 2 * o + (k - 2 - bl)));
        }
    }
    lemma_picks(all, h + fb, pos);
}

/// Opponent `j`'s seven cards are different real cards.
proof fn lemma_opponent_cards(h: Seq<Card>, b: Seq<Card>, d: Seq<Card>, o: int, j: int)
    requires
        h.len() == 2,
        0 <= j < o,
        b.len() <= 5,
        2 * o + 5 - b.len() <= d.len(),
        all_valid(h + b + d),
        (h + b + d).no_duplicates(),
    ensures
        all_valid(opponent_hand(d, j) + completed_board(b, d, o)),
        ranks_fit_deck(opponent_hand(d, j) + completed_board(b, d, o)),
{
    let all = h + b + d;
    let fb = completed_board(b, d, o);
    let opp = opponent_hand(d, j);
    let bl = b.len() as int;
    let n = d.len() as int;
    let pos = |k: int|
        if k == 0 {
            2 + bl + n - 1 - 2 * j
        } else if k == 1 {
            2 + bl + n - 1 - (2 * j + 1)
        } else if k < 2 + bl {
            k
        } else {
            2 + bl + n - 1 - (2 * o + (k - 2 - bl))
        };
    assert forall|k: int| 0 <= k < (opp + fb).len() implies (opp + fb)[k] == all[#[trigger] pos(
        k,
    )] by {
        if k == 0 {
            assert(all[pos(k)] == d[n - 1 - 2 * j]);
        } else if k == 1 {
            assert(all[pos(k)] == d[n - 1 - (2 * j + 1)]);
        } else if k < 2 + bl {
            assert(fb[k - 2] == b[k - 2]);
            assert(all[k] == b[k - 2]);
        } else {
            assert(fb[k - 2] == dealt(d, 2 * o + (k - 2 - bl)));
        }
    }
    lemma_picks(all, opp + fb, pos);
}

/// Plays one deal from `deck`: two hole cards to each opponent, then the board
/// up to five cards, all dealt from the end of the deck; then ranks every hand.
pub fn run_trial(hand: &[Card; 2], board: &Vec<Card>, num_players: usize, deck: Vec<Card>) -> (r:
    TrialOutcome)
    requires
        deal_fits(board@.len() as int, num_players as int, deck@.len() as int),
        all_valid(hand@ + board@ + deck@),
        (hand@ + board@ + deck@).no_duplicates(),
    ensures
        r == trial_outcome(hand@, board@, num_players as int, deck@),
{
    let ghost h = hand@;
    let ghost b = board@;
    let ghost d = deck@;
    let ghost all = h + b + d;
    let ghost n = d.len() as int;
    let n_cards = deck.len();
    let mut rest = deck;
    let opponents = num_players - 1;
    let to_opponents = 2 * opponents;
    let ghost o = opponents as int;
    let ghost fb = completed_board(b, d, o);
    let mut full_board: Vec<Card> = Vec::new();
    let mut i: usize = 0;
    while i < board.len()
        invariant
            i <= b.len(),
            b == board@,
            full_board@ == b.take(i as int),
        decreases b.len() - i,
    {
        full_board.push(board[i]);
        i += 1;
        assert(full_board@ =~= b.take(i as int));
    }
    assert(b.take(b.len() as int) =~= b);
    assert(rest@.take(n) =~= d);
    let mut hole_cards: Vec<Card> = Vec::new();
    let mut k: usize = 0;
    while k < to_opponents
        invariant
            o == opponents,
            to_opponents == 2 * o,
            k <= 2 * o,
            2 * o + 5 - b.len() <= n,
            b.len() <= 5,
            n == d.len(),
            rest@ == d.take(n - k),
            hole_cards@ == Seq::new(k as nat, |t: int| dealt(d, t)),
        decreases 2 * o - k,
    {
        let c = deal(&mut rest);
        hole_cards.push(c);
        k += 1;
        assert(d.take(n - (k - 1)).drop_last() =~= d.take(n - k));
        assert(hole_cards@ =~= Seq::new(k as nat, |t: int| dealt(d, t)));
    }
    while full_board.len() < 5
        invariant
            b.len() <= 5,
            b.len() <= full_board@.len() <= 5,
            full_board@ == fb.take(full_board@.len() as int),
            rest@ == d.take(n - 2 * o - (full_board@.len() - b.len())),
            0 <= o,
            n == d.len(),
            fb == completed_board(b, d, o),
            2 * o + 5 - b.len() <= n,
        decreases 5 - full_board@.len(),
    {
        let ghost t = full_board@.len() - b.len();
        let c = deal(&mut rest);
        full_board.push(c);
        assert(d.take(n - 2 * o - t).drop_last() =~= d.take(n - 2 * o - (t + 1)));
        assert(full_board@ =~= fb.take(full_board@.len() as int));
    }
    assert(full_board@ =~= fb);
    let mine_cards = vec![hand[0], hand[1]];
    assert(mine_cards@ =~= h);
    proof {
        lemma_tracked_cards(h, b, d, o);
    }
    let mine = evaluate_hand(mine_cards.as_slice(), full_board.as_slice());
    let ghost others = opponent_ranks(b, d, o);
    let mut all_beaten = true;
    let mut all_tied = true;
    let mut j: usize = 0;
    while j < opponents
        invariant
            j <= o,
            o == opponents,
            o == num_players - 1,
            n == d.len(),
            n == n_cards,
            d == deck@,
            hole_cards@ == Seq::new(2 * o as nat, |t: int| dealt(d, t)),
            fb == completed_board(b, d, o),
            full_board@ == fb,
            b.len() <= 5,
            2 * o + 5 - b.len() <= n,
            all == h + b + d,
            all.no_duplicates(),
            all_valid(all),
            h == hand@,
            b == board@,
            mine == rank_of(h + fb),
            others == opponent_ranks(b, d, o),
            all_beaten <==> forall|k: int| 0 <= k < j ==> hand_cmp(mine, #[trigger] others[k]) == 1,
            all_tied <==> forall|k: int| 0 <= k < j ==> hand_cmp(mine, #[trigger] others[k]) == 0,
        decreases o - j,
    {
        let hole = vec![hole_cards[2 * j], hole_cards[2 * j + 1]];
        let ghost opp = opponent_hand(d, j as int);
        assert(hole@ =~= opp);
        proof {
            lemma_opponent_cards(h, b, d, o, j as int);
        }
        let theirs = evaluate_hand(hole.as_slice(), full_board.as_slice());
        assert(others[j as int] == theirs);
        let c = compare_hands(mine, theirs);
        if c == -1 {
            assert(hand_cmp(mine, others[j as int]) == -1);
            return TrialOutcome::Loss;
        }
        if c != 1 {
            all_beaten = false;
        }
        if c != 0 {
            all_tied = false;
        }
        j += 1;
    }
    if all_beaten {
        TrialOutcome::Win
    } else if all_tied {
        TrialOutcome::Tie
    } else {
        TrialOutcome::Loss
    }
}

/// Counts of trial outcomes.
#[derive(Clone, Copy, Debug, PartialEq, Eq, Structural)]
pub struct Tally {
    pub wins: u64,
    pub ties: u64,
    pub losses: u64,
}

/// `t` with one more trial of outcome `o`.
pub open spec fn counted(t: Tally, o: TrialOutcome) -> Tally {
    match o {
        TrialOutcome::Win => Tally { wins: (t.wins + 1) as u64, ..t },
        TrialOutcome::Tie => Tally { ties: (t.ties + 1) as u64, ..t },
        TrialOutcome::Loss => Tally { losses: (t.losses + 1) as u64, ..t },
    }
}

/// The counts of `a` and `b` added field by field.
pub open spec fn sum_tallies(a: Tally, b: Tally) -> Tally {
    Tally {
        wins: (a.wins + b.wins) as u64,
        ties: (a.ties + b.ties) as u64,
        losses: (a.losses + b.losses) as u64,
    }
}

/// The counts of `a` and `b` can be added without overflow.
pub open spec fn tallies_fit(a: Tally, b: Tally) -> bool {
    a.wins + b.wins <= u64::MAX && a.ties + b.ties <= u64::MAX && a.losses + b.losses <= u64::MAX
}

impl Tally {
    /// The number of trials counted.
    pub open spec fn total(self) -> int {
        self.wins + self.ties + self.losses
    }

    /// No trial counted yet.
    pub fn new() -> (r: Tally)
        ensures
            r == (Tally { wins: 0, ties: 0, losses: 0 }),
    {
        Tally { wins: 0, ties: 0, losses: 0 }
    }

    /// Counts one more trial of outcome `outcome`.
    pub fn record(&mut self, outcome: TrialOutcome)
        requires
            old(self).total() < u64::MAX,
        ensures
            *final(self) == counted(*old(self), outcome),
            final(self).total() == old(self).total() + 1,
    {
        match outcome {
            TrialOutcome::Win => self.wins = self.wins + 1,
            TrialOutcome::Tie => self.ties = self.ties + 1,
            TrialOutcome::Loss => self.losses = self.losses + 1,
        }
    }

    /// Adds the counts of two tallies, as when joining the work of two workers.
    pub fn combine(self, other: Tally) -> (r: Tally)
        requires
            tallies_fit(self, other),
        ensures
            r == sum_tallies(self, other),
            r.total() == self.total() + other.total(),
    {
        Tally {
            wins: self.wins + other.wins,
            ties: self.ties + other.ties,
            losses: self.losses + other.losses,
        }
    }
}

/// Joining tallies does not depend on their order.
pub proof fn lemma_combine_commutative(a: Tally, b: Tally)
    ensures
        sum_tallies(a, b) == sum_tallies(b, a),
{
}

/// Joining tallies does not depend on their grouping.
pub proof fn lemma_combine_associative(a: Tally, b: Tally, c: Tally)
    requires
        a.wins + b.wins + c.wins <= u64::MAX,
        a.ties + b.ties + c.ties <= u64::MAX,
        a.losses + b.losses + c.losses <= u64::MAX,
    ensures
        sum_tallies(sum_tallies(a, b), c) == sum_tallies(a, sum_tallies(b, c)),
{
}

/// The empty tally changes nothing when joined.
pub proof fn lemma_combine_identity(a: Tally)
    ensures
        sum_tallies(a, Tally { wins: 0, ties: 0, losses: 0 }) == a,
{
}

/// The tally of the deals from `decks`, one deal per deck, counted in order.
pub open spec fn tally_of(
    hand: Seq<Card>,
    board: Seq<Card>,
    num_players: int,
    decks: Seq<Seq<Card>>,
) -> Tally
    decreases decks.len(),
{
    if decks.len() == 0 {
        Tally { wins: 0, ties: 0, losses: 0 }
    } else {
        counted(
            tally_of(hand, board, num_players, decks.drop_last()),
            trial_outcome(hand, board, num_players, decks.last()),
        )
    }
}

/// The tally of `n` deals counts each of them once.
pub proof fn lemma_tally_total(
    hand: Seq<Card>,
    board: Seq<Card>,
    num_players: int,
    decks: Seq<Seq<Card>>,
)
    requires
        decks.len() <= u64::MAX,
    ensures
        tally_of(hand, board, num_players, decks).total() == decks.len(),
    decreases decks.len(),
{
    if decks.len() > 0 {
        lemma_tally_total(hand, board, num_players, decks.drop_last());
    }
}

/// Splitting the deals into two runs and joining the two tallies gives the
/// tally of all the deals counted in order, however the deals are split.
pub proof fn lemma_tally_split(
    hand: Seq<Card>,
    board: Seq<Card>,
    num_players: int,
    first: Seq<Seq<Card>>,
    second: Seq<Seq<Card>>,
)
    requires
        first.len() + second.len() <= u64::MAX,
    ensures
        tally_of(hand, board, num_players, first + second) == sum_tallies(
            tally_of(hand, board, num_players, first),
            tally_of(hand, board, num_players, second),
        ),
    decreases second.len(),
{
    if second.len() == 0 {
        assert(first + second =~= first);
    } else {
        let rest = second.drop_last();
        assert((first + second).drop_last() =~= first + rest);
        assert((first + second).last() == second.last());
        lemma_tally_split(hand, board, num_players, first, rest);
        lemma_tally_total(hand, board, num_players, first);
        lemma_tally_total(hand, board, num_players, rest);
    }
}

/// Every deck of `decks` holds exactly the cards that are neither in `hand`
/// nor on `board`, in some order.
pub open spec fn shuffles_of_unknown(
    hand: Seq<Card>,
    board: Seq<Card>,
    decks: Seq<Seq<Card>>,
) -> bool {
    forall|k: int|
        0 <= k < decks.len() ==> (#[trigger] decks[k]).to_multiset() == without_known(
            full_deck(),
            hand,
            board,
        ).to_multiset()
}

/// Runs `trials` deals, each from a fresh deck without the known cards,
/// shuffled by a generator seeded with `seed`, and counts the outcomes.
pub fn simulate_trials(
    hand: &[Card; 2],
    board: &Vec<Card>,
    num_players: usize,
    trials: u64,
    seed: u64,
) -> (r: Tally)
    requires
        all_valid(hand@ + board@),
        (hand@ + board@).no_duplicates(),
        board@.len() <= 5,
        1 <= num_players <= 23,
    ensures
        r.total() == trials,
        exists|decks: Seq<Seq<Card>>|
            decks.len() == trials && shuffles_of_unknown(hand@, board@, decks) && r == tally_of(
                hand@,
                board@,
                num_players as int,
                decks,
            ),
{
    let ghost h = hand@;
    let ghost b = board@;
    let ghost mut decks: Seq<Seq<Card>> = seq![];
    let mut rng = seeded_rng(seed);
    let mut tally = Tally::new();
    let mut i: u64 = 0;
    while i < trials
        invariant
            i <= trials,
            tally.total() == i,
            decks.len() == i,
            shuffles_of_unknown(h, b, decks),
            tally == tally_of(h, b, num_players as int, decks),
            h == hand@,
            b == board@,
            all_valid(h + b),
            (h + b).no_duplicates(),
            b.len() <= 5,
            1 <= num_players <= 23,
        decreases trials - i,
    {
        let mut deck = create_deck();
        remove_known_cards(&mut deck, hand, board);
        let ghost before = deck@;
        shuffle_deck(&mut deck, &mut rng);
        proof {
            lemma_unknown_cards(h, b);
            lemma_same_cards(before, deck@);
            let known = h + b;
            let d = deck@;
            assert forall|x: int, y: int| 0 <= x < known.len() && 0 <= y < d.len() implies known[x]
                != d[y] by {
                assert(d.contains(d[y]));
                assert(before.contains(d[y]));
                if x < 2 {
                    assert(h.contains(known[x]));
                } else {
                    assert(known[x] == b[x - 2]);
                    assert(b.contains(known[x]));
                }
            }
            vstd::seq_lib::lemma_no_dup_in_concat(known, d);
            assert forall|k: int| 0 <= k < (known + d).len() implies (#[trigger] (known
                + d)[k]).is_valid() by {
                if k < known.len() {
                    assert(known[k].is_valid());
                } else {
                    assert(d.contains(d[k - known.len()]));
                    assert(before.contains(d[k - known.len()]));
                    let m = choose|m: int| 0 <= m < before.len() && before[m] == d[k - known.len()];
                    assert(before[m].is_valid());
                }
            }
        }
        let ghost dealt_from = deck@;
        let outcome = run_trial(hand, board, num_players, deck);
        tally.record(outcome);
        proof {
            let next = decks.push(dealt_from);
            assert(next.drop_last() =~= decks);
            assert forall|k: int| 0 <= k < next.len() implies (#[trigger] next[k]).to_multiset()
                == without_known(full_deck(), h, b).to_multiset() by {
                if k < decks.len() {
                    assert(next[k] == decks[k]);
                }
            }
            decks = next;
        }
        i += 1;
    }
    tally
}

/// The tracked hand of the four-aces deal: the aces of spades and diamonds.
pub open spec fn aces_hand() -> Seq<Card> {
    seq![Card { value: 14, suit: 3 }, Card { value: 14, suit: 1 }]
}

/// The board of the four-aces deal: the other two aces and three deuces.
pub open spec fn aces_board() -> Seq<Card> {
    seq![
        Card { value: 14, suit: 0 },
        Card { value: 14, suit: 2 },
        Card { value: 2, suit: 3 },
        Card { value: 2, suit: 1 },
        Card { value: 2, suit: 0 },
    ]
}

proof fn lemma_aces_rank()
    ensures
        rank_of(aces_hand() + aces_board()) == HandRank::FourOfAKind(14, 2),
{
    let cs = aces_hand() + aces_board();
    reveal_with_fuel(suit_count, 8);
    reveal_with_fuel(rank_count, 8);
    reveal_with_fuel(flush_suit_from, 5);
    assert(cs.len() == 7);
    assert(cs[0] == Card { value: 14, suit: 3 } && cs[1] == Card { value: 14, suit: 1 } && cs[2]
        == Card { value: 14, suit: 0 } && cs[3] == Card { value: 14, suit: 2 } && cs[4] == Card {
        value: 2,
        suit: 3,
    } && cs[5] == Card { value: 2, suit: 1 } && cs[6] == Card { value: 2, suit: 0 });
    assert(flush_cards(cs) is None);
    assert(forall|v: int| #[trigger] rank_count(cs, v) == (if v == 14 {
        4nat
    } else if v == 2 {
        3nat
    } else {
        0nat
    }));
    lemma_ranks_with(cs, 4, 2);
    lemma_ranks_with(cs, 3, 2);
    lemma_ranks_with(cs, 2, 2);
    lemma_ranks_with(cs, 1, 2);
    let q = ranks_with(cs, 4, 2);
    let t = ranks_with(cs, 3, 2);
    assert(rank_count(cs, 14) == 4 && rank_count(cs, 2) == 3);
    assert(q.contains((14int) as u8));
    assert(t.contains((2int) as u8));
    let i = choose|i: int| 0 <= i < q.len() && q[i] == 14u8;
    assert(q[0] == 14) by {
        if i > 0 {
            assert(q[0] > q[i]);
        }
    }
    let k = choose|k: int| 0 <= k < t.len() && t[k] == 2u8;
    assert(t[0] == 2) by {
        if k > 0 {
            assert(t[0] > t[k]);
            assert(rank_count(cs, t[0] as int) == 3);
        }
    }
    if ranks_with(cs, 2, 2).len() > 0 {
        assert(rank_count(cs, ranks_with(cs, 2, 2)[0] as int) == 2);
    }
    if ranks_with(cs, 1, 2).len() > 0 {
        assert(rank_count(cs, ranks_with(cs, 1, 2)[0] as int) == 1);
    }
}

proof fn lemma_aces_beat_opponent(c1: Card, c2: Card)
    requires
        c1.is_valid(),
        c2.is_valid(),
        c1.value != 14,
        c2.value != 14,
    ensures
        hand_cmp(HandRank::FourOfAKind(14, 2), rank_of(seq![c1, c2] + aces_board())) == 1,
{
    let cs = seq![c1, c2] + aces_board();
    reveal_with_fuel(suit_count, 8);
    reveal_with_fuel(rank_count, 8);
    reveal_with_fuel(flush_suit_from, 5);
    assert(cs.len() == 7);
    assert(cs[0] == c1 && cs[1] == c2 && cs[2] == Card { value: 14, suit: 0 } && cs[3] == Card {
        value: 14,
        suit: 2,
    } && cs[4] == Card { value: 2, suit: 3 } && cs[5] == Card { value: 2, suit: 1 } && cs[6]
        == Card { value: 2, suit: 0 });
    assert(flush_cards(cs) is None);
    assert(rank_count(cs, 14) == 2);
    lemma_ranks_with(cs, 4, 2);
    if let Some(q) = quad_of(cs) {
        assert(rank_count(cs, ranks_with(cs, 4, 2)[0] as int) == 4);
        assert(q < 14);
    }
}

/// Holding A-spades and A-diamonds on the board A-hearts, A-clubs, 2-spades,
/// 2-diamonds, 2-hearts, the tracked player wins every deal from a deck of the
/// unknown cards, whatever their order and however many players there are.
pub proof fn lemma_four_aces_always_win(deck: Seq<Card>, num_players: int)
    requires
        deal_fits(5, num_players, deck.len() as int),
        deck.to_multiset() == without_known(full_deck(), aces_hand(), aces_board()).to_multiset(),
    ensures
        trial_outcome(aces_hand(), aces_board(), num_players, deck) == TrialOutcome::Win,
{
    let h = aces_hand();
    let b = aces_board();
    let o = num_players - 1;
    let unknown = without_known(full_deck(), h, b);
    lemma_unknown_cards(h, b);
    lemma_same_cards(unknown, deck);
    assert(completed_board(b, deck, o) =~= b);
    lemma_aces_rank();
    let others = opponent_ranks(b, deck, o);
    assert forall|j: int| 0 <= j < others.len() implies hand_cmp(
        HandRank::FourOfAKind(14, 2),
        #[trigger] others[j],
    ) == 1 by {
        let opp = opponent_hand(deck, j);
        assert forall|t: int| 0 <= t < 2 implies (#[trigger] opp[t]).is_valid() && opp[t].value
            != 14 by {
            let c = opp[t];
            let idx = deck.len() - 1 - (2 * j + t);
            assert(c == deck[idx]);
            assert(deck.contains(c));
            assert(unknown.contains(c));
            let m = choose|m: int| 0 <= m < unknown.len() && unknown[m] == c;
            assert(unknown[m].is_valid());
            if c.value == 14 {
                if c.suit == 3 {
                    assert(h[0] == c);
                } else if c.suit == 1 {
                    assert(h[1] == c);
                } else if c.suit == 0 {
                    assert(b[0] == c);
                } else {
                    assert(b[1] == c);
                }
            }
        }
        lemma_aces_beat_opponent(opp[0], opp[1]);
        assert(opp =~= seq![opp[0], opp[1]]);
    }
}

} // verus!
