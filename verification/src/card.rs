//! Suits, ranks and cards: the alphabet of the game.

use vstd::prelude::*;

verus! {

/// One of the four suits. Suits carry no strength; they only group cards for
/// flush detection.
#[derive(Debug, Clone, Copy, PartialEq, Eq, PartialOrd, Ord, Hash, Structural)]
pub enum Suit {
    Clubs,
    Diamonds,
    Hearts,
    Spades,
}

/// One of the thirteen ranks, in ascending strength. The ace is high.
#[derive(Debug, Clone, Copy, PartialEq, Eq, PartialOrd, Ord, Hash, Structural)]
pub enum Rank {
    Two,
    Three,
    Four,
    Five,
    Six,
    Seven,
    Eight,
    Nine,
    Ten,
    Jack,
    Queen,
    King,
    Ace,
}

/// A playing card: a rank and a suit. Two cards are the same card exactly when
/// both agree.
#[derive(Debug, Clone, Copy, PartialEq, Eq, Hash, Structural)]
pub struct Card {
    pub rank: Rank,
    pub suit: Suit,
}

impl Suit {
    /// Position of the suit in the canonical deck order, `0..4`.
    pub open spec fn spec_index(self) -> int {
        match self {
            Suit::Clubs => 0,
            Suit::Diamonds => 1,
            Suit::Hearts => 2,
            Suit::Spades => 3,
        }
    }

    /// The suit at a canonical position; positions past the last give spades.
    pub open spec fn spec_from_index(i: int) -> Suit {
        if i == 0 {
            Suit::Clubs
        } else if i == 1 {
            Suit::Diamonds
        } else if i == 2 {
            Suit::Hearts
        } else {
            Suit::Spades
        }
    }

    /// Position of the suit in the canonical deck order.
    pub fn index(self) -> (i: u8)
        ensures
            i == self.spec_index(),
            i < 4,
    {
        match self {
            Suit::Clubs => 0,
            Suit::Diamonds => 1,
            Suit::Hearts => 2,
            Suit::Spades => 3,
        }
    }

    /// The suit at canonical position `i`, or `None` when `i` is not below 4.
    pub fn from_index(i: u8) -> (s: Option<Suit>)
        ensures
            i < 4 <==> s is Some,
            s matches Some(suit) ==> suit == Suit::spec_from_index(i as int) && suit.spec_index()
                == i,
    {
        match i {
            0 => Some(Suit::Clubs),
            1 => Some(Suit::Diamonds),
            2 => Some(Suit::Hearts),
            3 => Some(Suit::Spades),
            _ => None,
        }
    }
}

impl Rank {
    /// The numeric value used for straight arithmetic: 2 for the two up to 14
    /// for the ace.
    pub open spec fn spec_value(self) -> int {
        match self {
            Rank::Two => 2,
            Rank::Three => 3,
            Rank::Four => 4,
            Rank::Five => 5,
            Rank::Six => 6,
            Rank::Seven => 7,
            Rank::Eight => 8,
            Rank::Nine => 9,
            Rank::Ten => 10,
            Rank::Jack => 11,
            Rank::Queen => 12,
            Rank::King => 13,
            Rank::Ace => 14,
        }
    }

    /// The rank with a given value; values outside `2..=14` give the ace.
    pub open spec fn spec_from_value(v: int) -> Rank {
        if v == 2 {
            Rank::Two
        } else if v == 3 {
            Rank::Three
        } else if v == 4 {
            Rank::Four
        } else if v == 5 {
            Rank::Five
        } else if v == 6 {
            Rank::Six
        } else if v == 7 {
            Rank::Seven
        } else if v == 8 {
            Rank::Eight
        } else if v == 9 {
            Rank::Nine
        } else if v == 10 {
            Rank::Ten
        } else if v == 11 {
            Rank::Jack
        } else if v == 12 {
            Rank::Queen
        } else if v == 13 {
            Rank::King
        } else {
            Rank::Ace
        }
    }

    /// The numeric value of the rank, 2 to 14.
    pub fn value(self) -> (v: u8)
        ensures
            v == self.spec_value(),
            2 <= v <= 14,
    {
        match self {
            Rank::Two => 2,
            Rank::Three => 3,
            Rank::Four => 4,
            Rank::Five => 5,
            Rank::Six => 6,
            Rank::Seven => 7,
            Rank::Eight => 8,
            Rank::Nine => 9,
            Rank::Ten => 10,
            Rank::Jack => 11,
            Rank::Queen => 12,
            Rank::King => 13,
            Rank::Ace => 14,
        }
    }

    /// The rank whose value is `v`, or `None` when `v` is not in `2..=14`.
    pub fn from_value(v: u8) -> (r: Option<Rank>)
        ensures
            2 <= v <= 14 <==> r is Some,
            r matches Some(rank) ==> rank == Rank::spec_from_value(v as int) && rank.spec_value()
                == v,
    {
        match v {
            2 => Some(Rank::Two),
            3 => Some(Rank::Three),
            4 => Some(Rank::Four),
            5 => Some(Rank::Five),
            6 => Some(Rank::Six),
            7 => Some(Rank::Seven),
            8 => Some(Rank::Eight),
            9 => Some(Rank::Nine),
            10 => Some(Rank::Ten),
            11 => Some(Rank::Jack),
            12 => Some(Rank::Queen),
            13 => Some(Rank::King),
            14 => Some(Rank::Ace),
            _ => None,
        }
    }
}

/// Every rank has a value between 2 and 14, and is recovered from that value.
pub proof fn lemma_rank_value_roundtrip(r: Rank)
    ensures
        2 <= r.spec_value() <= 14,
        Rank::spec_from_value(r.spec_value()) == r,
{
}

/// Two ranks of the same value are the same rank.
pub proof fn lemma_same_value_same_rank(r: Rank, q: Rank)
    requires
        r.spec_value() == q.spec_value(),
    ensures
        r == q,
{
    lemma_rank_value_roundtrip(r);
    lemma_rank_value_roundtrip(q);
}

/// Every value between 2 and 14 names a rank with that value.
pub proof fn lemma_value_rank_roundtrip(v: int)
    requires
        2 <= v <= 14,
    ensures
        Rank::spec_from_value(v).spec_value() == v,
{
}

/// Every suit has a position below 4, and is recovered from that position.
pub proof fn lemma_suit_index_roundtrip(s: Suit)
    ensures
        0 <= s.spec_index() < 4,
        Suit::spec_from_index(s.spec_index()) == s,
{
}

impl Card {
    /// The card of the given rank and suit.
    pub fn new(rank: Rank, suit: Suit) -> (card: Card)
        ensures
            card.rank == rank,
            card.suit == suit,
    {
        Card { rank, suit }
    }
}

} // verus!
