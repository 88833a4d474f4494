use vstd::prelude::*;

use crate::error::PokerError;

verus! {

/// The four suits. They carry no order.
#[derive(Clone, Copy, Debug, PartialEq, Eq, Structural, Hash)]
pub enum Suit {
    Spades,
    Hearts,
    Diamonds,
    Clubs,
}

/// A card's rank: a number from 2 to 10, or a face card, or the Ace.
#[derive(Clone, Copy, Debug, PartialEq, Eq, Structural, Hash)]
pub enum Rank {
    Number(u8),
    Jack,
    Queen,
    King,
    Ace,
}

/// A card: a suit and a rank.
#[derive(Clone, Copy, Debug, PartialEq, Eq, Structural, Hash)]
pub struct Card {
    pub suit: Suit,
    pub rank: Rank,
}

impl Rank {
    /// A numbered rank holds a number from 2 to 10.
    pub open spec fn wf(self) -> bool {
        match self {
            Rank::Number(n) => 2 <= n <= 10,
            _ => true,
        }
    }

    /// The rank's place in the order 2 < 3 < ... < 10 < Jack < Queen < King < Ace.
    pub open spec fn spec_value(self) -> int {
        match self {
            Rank::Number(n) => n as int,
            Rank::Jack => 11,
            Rank::Queen => 12,
            Rank::King => 13,
            Rank::Ace => 14,
        }
    }

    /// The numbered rank `n`, refused unless `2 <= n <= 10`.
    pub fn number(n: u8) -> (r: Result<Rank, PokerError>)
        ensures
            2 <= n <= 10 ==> r == Ok::<Rank, PokerError>(Rank::Number(n)),
            !(2 <= n <= 10) ==> r == Err::<Rank, PokerError>(PokerError::InvalidRank { value: n }),
    {
        if 2 <= n && n <= 10 {
            Ok(Rank::Number(n))
        } else {
            Err(PokerError::InvalidRank { value: n })
        }
    }

    /// The well-formed rank whose value is `v`, for `2 <= v <= 14`.
    pub open spec fn spec_from_value(v: int) -> Rank {
        if v <= 10 {
            Rank::Number(v as u8)
        } else if v == 11 {
            Rank::Jack
        } else if v == 12 {
            Rank::Queen
        } else if v == 13 {
            Rank::King
        } else {
            Rank::Ace
        }
    }

    /// The well-formed rank whose value is `v`.
    pub fn from_value(v: u8) -> (r: Rank)
        requires
            2 <= v <= 14,
        ensures
            r.wf(),
            r.spec_value() == v,
            r == Rank::spec_from_value(v as int),
    {
        if v <= 10 {
            Rank::Number(v)
        } else if v == 11 {
            Rank::Jack
        } else if v == 12 {
            Rank::Queen
        } else if v == 13 {
            Rank::King
        } else {
            Rank::Ace
        }
    }
}

impl Card {
    /// The card's rank is well formed.
    pub open spec fn wf(self) -> bool {
        self.rank.wf()
    }

    /// The card of the given suit and rank.
    pub fn new(suit: Suit, rank: Rank) -> (c: Card)
        ensures
            c.suit == suit,
            c.rank == rank,
    {
        Card { suit, rank }
    }
}

/// The numeric value of a rank: its number, or 11 to 14 for Jack, Queen,
/// King and Ace.
pub fn rank_value(rank: &Rank) -> (v: u8)
    ensures
        v as int == rank.spec_value(),
        rank.wf() ==> 2 <= v <= 14,
{
    match rank {
        Rank::Number(n) => *n,
        Rank::Jack => 11,
        Rank::Queen => 12,
        Rank::King => 13,
        Rank::Ace => 14,
    }
}

/// The symbol a rank is printed with: its number, or J, Q, K, A.
pub open spec fn spec_rank_symbol(rank: Rank) -> Seq<char> {
    match rank {
        Rank::Number(2) => "2"@,
        Rank::Number(3) => "3"@,
        Rank::Number(4) => "4"@,
        Rank::Number(5) => "5"@,
        Rank::Number(6) => "6"@,
        Rank::Number(7) => "7"@,
        Rank::Number(8) => "8"@,
        Rank::Number(9) => "9"@,
        Rank::Number(10) => "10"@,
        Rank::Number(_) => "?"@,
        Rank::Jack => "J"@,
        Rank::Queen => "Q"@,
        Rank::King => "K"@,
        Rank::Ace => "A"@,
    }
}

/// The symbol a rank is printed with: its number, or J, Q, K, A.
pub fn rank_symbol(rank: &Rank) -> (s: &'static str)
    ensures
        s@ == spec_rank_symbol(*rank),
{
    match rank {
        Rank::Number(2) => "2",
        Rank::Number(3) => "3",
        Rank::Number(4) => "4",
        Rank::Number(5) => "5",
        Rank::Number(6) => "6",
        Rank::Number(7) => "7",
        Rank::Number(8) => "8",
        Rank::Number(9) => "9",
        Rank::Number(10) => "10",
        Rank::Number(_) => "?",
        Rank::Jack => "J",
        Rank::Queen => "Q",
        Rank::King => "K",
        Rank::Ace => "A",
    }
}

/// Hearts and Diamonds are the red suits.
pub fn is_red(suit: &Suit) -> (r: bool)
    ensures
        r <==> (*suit == Suit::Hearts || *suit == Suit::Diamonds),
{
    match suit {
        Suit::Hearts | Suit::Diamonds => true,
        Suit::Spades | Suit::Clubs => false,
    }
}

} // verus!
