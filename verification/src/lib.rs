//! A domain model and rule-validation toolbox for a collectible-card game:
//! cards, decks, and the legality rules a deck must satisfy to be
//! tournament-valid.

pub mod cards;
pub mod decks;
pub mod display;
pub mod engine;
pub mod test_utils;
