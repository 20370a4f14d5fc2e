//! Poker hand ranking and Monte Carlo equity simulation.

pub mod card;
pub mod detect;
pub mod rank;
pub mod compare;
pub mod deck;
pub mod simulate;
pub mod notation;

pub use card::Card;
pub use compare::{compare_cards, compare_hands};
pub use deck::{create_deck, deal, remove_known_cards};
pub use detect::{check_flush, check_multiples, check_straight};
pub use notation::{cards_well_formed, parse_card, parse_cards};
pub use rank::{HandRank, evaluate_hand};
pub use simulate::{Tally, TrialOutcome, run_trial, simulate_trials};
