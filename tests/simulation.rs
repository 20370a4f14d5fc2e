use poker_sim::{
    Card, Tally, TrialOutcome, create_deck, deal, remove_known_cards, run_trial, simulate_trials,
};

fn card(value: u8, suit: u8) -> Card {
    Card { value, suit }
}

#[test]
fn fresh_deck_holds_every_card_once() {
    let deck = create_deck();
    assert_eq!(deck.len(), 52);
    assert_eq!(deck[0], card(2, 0));
    assert_eq!(deck[12], card(14, 0));
    assert_eq!(deck[13], card(2, 1));
    assert_eq!(deck[51], card(14, 3));
    for i in 0..52 {
        for j in (i + 1)..52 {
            assert_ne!(deck[i], deck[j]);
        }
    }
}

#[test]
fn known_cards_leave_the_deck_in_order() {
    let mut deck = create_deck();
    let hand = [card(14, 3), card(2, 0)];
    let board = vec![card(3, 0), card(13, 1)];
    remove_known_cards(&mut deck, &hand, &board);
    assert_eq!(deck.len(), 48);
    assert_eq!(deck[0], card(4, 0));
    assert!(!deck.contains(&card(14, 3)));
    assert!(!deck.contains(&card(13, 1)));
    assert_eq!(deck[47], card(13, 3));
}

#[test]
fn four_aces_beat_every_opponent() {
    let hand = [card(14, 3), card(14, 1)];
    let board = vec![card(14, 0), card(14, 2), card(2, 3), card(2, 1), card(2, 0)];
    let mut deck = create_deck();
    remove_known_cards(&mut deck, &hand, &board);
    // Opponents take the cards from the end: K and Q of spades, then J and 10 of spades.
    assert_eq!(run_trial(&hand, &board, 3, deck.clone()), TrialOutcome::Win);
    // An opponent holding the last deuce makes four deuces, which four aces still beat.
    let mut deck2 = deck.clone();
    deck2.retain(|c| *c != card(2, 2));
    deck2.push(card(2, 2));
    assert_eq!(run_trial(&hand, &board, 2, deck2), TrialOutcome::Win);
}

#[test]
fn shared_board_royal_flush_ties() {
    let hand = [card(2, 0), card(3, 1)];
    let board = vec![card(10, 2), card(11, 2), card(12, 2), card(13, 2), card(14, 2)];
    let mut deck = create_deck();
    remove_known_cards(&mut deck, &hand, &board);
    assert_eq!(run_trial(&hand, &board, 4, deck.clone()), TrialOutcome::Tie);
}

#[test]
fn one_better_opponent_means_loss() {
    // Board completed from the end of the deck; opponent one holds two kings.
    let hand = [card(2, 0), card(7, 1)];
    let board = vec![card(9, 2), card(4, 3), card(11, 0), card(3, 1), card(6, 2)];
    let deck = vec![card(5, 0), card(13, 0), card(13, 1)];
    assert_eq!(run_trial(&hand, &board, 2, deck.clone()), TrialOutcome::Loss);
}

#[test]
fn tie_with_one_and_beating_another_is_loss() {
    let hand = [card(2, 0), card(3, 1)];
    let board = vec![card(10, 2), card(11, 2), card(12, 2), card(13, 2), card(9, 2)];
    // Both opponents share the board's straight flush; the tracked player too.
    let deck = vec![card(4, 0), card(5, 1), card(6, 0), card(7, 3)];
    assert_eq!(run_trial(&hand, &board, 3, deck.clone()), TrialOutcome::Tie);
    // Here opponent one holds the ace of the flush suit and wins outright.
    let deck = vec![card(4, 0), card(5, 1), card(6, 0), card(14, 2)];
    assert_eq!(run_trial(&hand, &board, 3, deck.clone()), TrialOutcome::Loss);
    // Tracked pair of kings beats one opponent and ties the other: not a tie.
    let hand = [card(13, 0), card(4, 1)];
    let board = vec![card(13, 1), card(9, 2), card(7, 3), card(2, 0), card(3, 1)];
    let deck = vec![card(5, 2), card(4, 2), card(13, 3), card(10, 0), card(8, 0)];
    assert_eq!(run_trial(&hand, &board, 3, deck.clone()), TrialOutcome::Loss);
}

#[test]
fn trials_are_counted_once_each() {
    let hand = [card(2, 0), card(2, 1)];
    let board = vec![card(2, 2), card(5, 0), card(7, 1)];
    let tally = simulate_trials(&hand, &board, 2, 2000, 7);
    assert_eq!(tally.wins + tally.ties + tally.losses, 2000);
    assert!(tally.wins > 0);
}

#[test]
fn same_seed_gives_same_counts() {
    let hand = [card(14, 0), card(13, 0)];
    let board = vec![];
    let a = simulate_trials(&hand, &board, 4, 500, 42);
    let b = simulate_trials(&hand, &board, 4, 500, 42);
    assert_eq!(a, b);
}

#[test]
fn shuffled_decks_give_varied_outcomes() {
    let hand = [card(7, 0), card(2, 1)];
    let board = vec![];
    let tally = simulate_trials(&hand, &board, 2, 400, 3);
    assert!(tally.wins > 0);
    assert!(tally.losses > 0);
}

#[test]
fn tallies_join_in_any_order() {
    let a = Tally { wins: 3, ties: 1, losses: 5 };
    let b = Tally { wins: 2, ties: 0, losses: 7 };
    let c = Tally { wins: 10, ties: 4, losses: 1 };
    assert_eq!(a.combine(b), b.combine(a));
    assert_eq!(a.combine(b).combine(c), a.combine(b.combine(c)));
    assert_eq!(a.combine(b), Tally { wins: 5, ties: 1, losses: 12 });
    assert_eq!(a.combine(Tally::new()), a);
}

#[test]
fn recording_outcomes() {
    let mut t = Tally::new();
    t.record(TrialOutcome::Win);
    t.record(TrialOutcome::Loss);
    t.record(TrialOutcome::Loss);
    t.record(TrialOutcome::Tie);
    assert_eq!(t, Tally { wins: 1, ties: 1, losses: 2 });
}

#[test]
fn dealing_takes_the_last_card() {
    let mut deck = vec![card(2, 0), card(9, 1), card(14, 3)];
    assert_eq!(deal(&mut deck), card(14, 3));
    assert_eq!(deal(&mut deck), card(9, 1));
    assert_eq!(deck, vec![card(2, 0)]);
}

#[test]
fn four_aces_win_every_simulated_deal() {
    let hand = [card(14, 3), card(14, 1)];
    let board = vec![card(14, 0), card(14, 2), card(2, 3), card(2, 1), card(2, 0)];
    for players in [2, 5, 9, 23] {
        let tally = simulate_trials(&hand, &board, players, 300, 11);
        assert_eq!(tally, Tally { wins: 300, ties: 0, losses: 0 });
    }
}
