//! Five-card poker: a deck of cards, dealing, classification of a hand
//! into its poker category, a total order over classified hands, and the
//! choice of a winning hand.

pub mod card;
pub mod error;
pub mod hand_rank;
pub mod evaluate;
pub mod winner;
pub mod deck;
