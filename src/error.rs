use vstd::prelude::*;

verus! {

/// The ways in which an operation of this library can refuse its input.
#[derive(Clone, Copy, Debug, PartialEq, Eq, Structural)]
pub enum PokerError {
    /// A deal asked for `cards_per_hand * num_hands` cards, more than the
    /// `available` cards left in the deck.
    InsufficientCards { cards_per_hand: usize, num_hands: usize, available: usize },
    /// A winner was asked for among no hands at all.
    EmptyInput,
    /// A numbered rank outside `2..=10` was asked for.
    InvalidRank { value: u8 },
}

} // verus!
