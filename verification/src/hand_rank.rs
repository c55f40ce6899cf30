//! Hand strength: ten categories, each carrying the ranks that decide between
//! two hands of the same category, under one total order.

use crate::card::{lemma_same_value_same_rank, Rank};
use std::cmp::Ordering;
use vstd::prelude::*;
use vstd::std_specs::cmp::PartialOrdSpecImpl;

verus! {

/// The strength of a poker hand.
///
/// Variants are listed from weakest to strongest. Within one category the
/// carried ranks decide, the first before the second. Ranks that are not
/// carried (kickers) do not take part: two hands that agree on category and
/// carried ranks are equal.
#[derive(Debug, Clone, Copy, PartialEq, Eq, Hash, Structural)]
pub enum HandRank {
    /// No combination; carries the highest rank.
    HighCard(Rank),
    /// One pair; carries the rank of the pair.
    OnePair(Rank),
    /// Two pairs; carries the higher pair's rank, then the lower pair's.
    TwoPair(Rank, Rank),
    /// Three of a kind; carries the rank of the triple.
    ThreeOfAKind(Rank),
    /// Five consecutive ranks; carries the rank the straight runs up to.
    Straight(Rank),
    /// Five cards of one suit; carries the highest rank.
    Flush(Rank),
    /// A triple and a pair; carries the triple's rank, then the pair's.
    FullHouse(Rank, Rank),
    /// Four of a kind; carries the rank of the four.
    FourOfAKind(Rank),
    /// A straight in one suit; carries the rank the straight runs up to.
    StraightFlush(Rank),
    /// Ten to ace in one suit.
    RoyalFlush,
}

/// Number of hand categories.
pub const CATEGORY_COUNT: usize = 10;

impl HandRank {
    /// Position of the category in ascending order of strength, `0..10`.
    pub open spec fn spec_category_index(self) -> int {
        match self {
            HandRank::HighCard(_) => 0,
            HandRank::OnePair(_) => 1,
            HandRank::TwoPair(_, _) => 2,
            HandRank::ThreeOfAKind(_) => 3,
            HandRank::Straight(_) => 4,
            HandRank::Flush(_) => 5,
            HandRank::FullHouse(_, _) => 6,
            HandRank::FourOfAKind(_) => 7,
            HandRank::StraightFlush(_) => 8,
            HandRank::RoyalFlush => 9,
        }
    }

    /// Value of the first carried rank, or 0 where none is carried.
    pub open spec fn spec_primary(self) -> int {
        match self {
            HandRank::HighCard(r) => r.spec_value(),
            HandRank::OnePair(r) => r.spec_value(),
            HandRank::TwoPair(r, _) => r.spec_value(),
            HandRank::ThreeOfAKind(r) => r.spec_value(),
            HandRank::Straight(r) => r.spec_value(),
            HandRank::Flush(r) => r.spec_value(),
            HandRank::FullHouse(r, _) => r.spec_value(),
            HandRank::FourOfAKind(r) => r.spec_value(),
            HandRank::StraightFlush(r) => r.spec_value(),
            HandRank::RoyalFlush => 0,
        }
    }

    /// Value of the second carried rank, or 0 where none is carried.
    pub open spec fn spec_secondary(self) -> int {
        match self {
            HandRank::TwoPair(_, r) => r.spec_value(),
            HandRank::FullHouse(_, r) => r.spec_value(),
            _ => 0,
        }
    }

    /// The place of the hand in the total order, as one number: category
    /// first, then the first carried rank, then the second. A hand is
    /// stronger than another exactly when its number is larger.
    pub open spec fn spec_strength(self) -> int {
        self.spec_category_index() * 225 + self.spec_primary() * 15 + self.spec_secondary()
    }

    /// `self` is strictly stronger than `other`.
    pub open spec fn spec_beats(self, other: HandRank) -> bool {
        self.spec_strength() > other.spec_strength()
    }

    /// Position of the category in ascending order of strength.
    pub fn category_index(&self) -> (i: usize)
        ensures
            i == self.spec_category_index(),
            i < CATEGORY_COUNT,
    {
        match self {
            HandRank::HighCard(_) => 0,
            HandRank::OnePair(_) => 1,
            HandRank::TwoPair(_, _) => 2,
            HandRank::ThreeOfAKind(_) => 3,
            HandRank::Straight(_) => 4,
            HandRank::Flush(_) => 5,
            HandRank::FullHouse(_, _) => 6,
            HandRank::FourOfAKind(_) => 7,
            HandRank::StraightFlush(_) => 8,
            HandRank::RoyalFlush => 9,
        }
    }

    /// The place of the hand in the total order, as one number.
    pub fn strength(&self) -> (s: u16)
        ensures
            s == self.spec_strength(),
    {
        let (primary, secondary): (u8, u8) = match self {
            HandRank::HighCard(r) => (r.value(), 0),
            HandRank::OnePair(r) => (r.value(), 0),
            HandRank::TwoPair(r, q) => (r.value(), q.value()),
            HandRank::ThreeOfAKind(r) => (r.value(), 0),
            HandRank::Straight(r) => (r.value(), 0),
            HandRank::Flush(r) => (r.value(), 0),
            HandRank::FullHouse(r, q) => (r.value(), q.value()),
            HandRank::FourOfAKind(r) => (r.value(), 0),
            HandRank::StraightFlush(r) => (r.value(), 0),
            HandRank::RoyalFlush => (0, 0),
        };
        let category: u16 = match self {
            HandRank::HighCard(_) => 0,
            HandRank::OnePair(_) => 1,
            HandRank::TwoPair(_, _) => 2,
            HandRank::ThreeOfAKind(_) => 3,
            HandRank::Straight(_) => 4,
            HandRank::Flush(_) => 5,
            HandRank::FullHouse(_, _) => 6,
            HandRank::FourOfAKind(_) => 7,
            HandRank::StraightFlush(_) => 8,
            HandRank::RoyalFlush => 9,
        };
        let p: u16 = primary.into();
        let q: u16 = secondary.into();
        category * 225 + p * 15 + q
    }

    /// Whether `self` is strictly stronger than `other`.
    pub fn beats(&self, other: &HandRank) -> (b: bool)
        ensures
            b == self.spec_beats(*other),
    {
        self.strength() > other.strength()
    }
}

impl PartialOrd for HandRank {
    fn partial_cmp(&self, other: &HandRank) -> (r: Option<Ordering>) {
        let a = self.strength();
        let b = other.strength();
        if a < b {
            Some(Ordering::Less)
        } else if a > b {
            Some(Ordering::Greater)
        } else {
            Some(Ordering::Equal)
        }
    }
}

impl PartialOrdSpecImpl for HandRank {
    open spec fn obeys_partial_cmp_spec() -> bool {
        true
    }

    open spec fn partial_cmp_spec(&self, other: &HandRank) -> Option<Ordering> {
        if self.spec_strength() < other.spec_strength() {
            Some(Ordering::Less)
        } else if self.spec_strength() > other.spec_strength() {
            Some(Ordering::Greater)
        } else {
            Some(Ordering::Equal)
        }
    }
}

/// The label of a category, by its position in ascending order of strength.
/// Positions past the last give the label of the strongest category.
pub open spec fn spec_category_name(index: int) -> Seq<char> {
    if index == 0 {
        "HighCard"@
    } else if index == 1 {
        "OnePair"@
    } else if index == 2 {
        "TwoPair"@
    } else if index == 3 {
        "ThreeOfAKind"@
    } else if index == 4 {
        "Straight"@
    } else if index == 5 {
        "Flush"@
    } else if index == 6 {
        "FullHouse"@
    } else if index == 7 {
        "FourOfAKind"@
    } else if index == 8 {
        "StraightFlush"@
    } else {
        "RoyalFlush"@
    }
}

/// The label of the category at position `index` (`index < 10`).
pub fn category_name(index: usize) -> (name: &'static str)
    requires
        index < CATEGORY_COUNT,
    ensures
        name@ == spec_category_name(index as int),
{
    if index == 0 {
        "HighCard"
    } else if index == 1 {
        "OnePair"
    } else if index == 2 {
        "TwoPair"
    } else if index == 3 {
        "ThreeOfAKind"
    } else if index == 4 {
        "Straight"
    } else if index == 5 {
        "Flush"
    } else if index == 6 {
        "FullHouse"
    } else if index == 7 {
        "FourOfAKind"
    } else if index == 8 {
        "StraightFlush"
    } else {
        "RoyalFlush"
    }
}

/// The label of the category of a hand.
pub fn hand_rank_category(hand_rank: &HandRank) -> (name: &'static str)
    ensures
        name@ == spec_category_name(hand_rank.spec_category_index()),
{
    match hand_rank {
        HandRank::HighCard(_) => "HighCard",
        HandRank::OnePair(_) => "OnePair",
        HandRank::TwoPair(_, _) => "TwoPair",
        HandRank::ThreeOfAKind(_) => "ThreeOfAKind",
        HandRank::Straight(_) => "Straight",
        HandRank::Flush(_) => "Flush",
        HandRank::FullHouse(_, _) => "FullHouse",
        HandRank::FourOfAKind(_) => "FourOfAKind",
        HandRank::StraightFlush(_) => "StraightFlush",
        HandRank::RoyalFlush => "RoyalFlush",
    }
}

/// The order on hands is total and strict: of two hands exactly one of
/// "weaker", "equal", "stronger" holds, and "equal" means the same value.
pub proof fn lemma_order_total(a: HandRank, b: HandRank)
    ensures
        a.spec_beats(b) || b.spec_beats(a) || a == b,
        !(a.spec_beats(b) && b.spec_beats(a)),
        a == b ==> !a.spec_beats(b),
        a.spec_strength() == b.spec_strength() <==> a == b,
{
    lemma_strength_injective(a, b);
}

/// The order on hands is transitive.
pub proof fn lemma_order_transitive(a: HandRank, b: HandRank, c: HandRank)
    requires
        a.spec_beats(b),
        b.spec_beats(c),
    ensures
        a.spec_beats(c),
{
}

/// A hand of a higher category beats every hand of a lower one, whatever
/// ranks either carries.
pub proof fn lemma_category_decides(a: HandRank, b: HandRank)
    requires
        a.spec_category_index() > b.spec_category_index(),
    ensures
        a.spec_beats(b),
{
}

/// A royal flush beats every other hand, every straight flush among them.
pub proof fn lemma_royal_flush_is_top(h: HandRank)
    ensures
        h != HandRank::RoyalFlush ==> HandRank::RoyalFlush.spec_beats(h),
        forall|r: Rank| #[trigger] HandRank::RoyalFlush.spec_beats(HandRank::StraightFlush(r)),
{
}

/// No hand is weaker than a high card of rank two.
pub proof fn lemma_high_card_two_is_bottom(h: HandRank)
    ensures
        !HandRank::HighCard(Rank::Two).spec_beats(h),
{
}

/// Within one category the first carried rank decides, then the second.
pub proof fn lemma_carried_ranks_decide(a: HandRank, b: HandRank)
    requires
        a.spec_category_index() == b.spec_category_index(),
    ensures
        a.spec_primary() > b.spec_primary() ==> a.spec_beats(b),
        a.spec_primary() == b.spec_primary() && a.spec_secondary() > b.spec_secondary()
            ==> a.spec_beats(b),
{
}

proof fn lemma_strength_injective(a: HandRank, b: HandRank)
    ensures
        a.spec_strength() == b.spec_strength() <==> a == b,
{
    if a.spec_strength() == b.spec_strength() {
        assert(0 <= a.spec_secondary() < 15 && 0 <= b.spec_secondary() < 15);
        assert(0 <= a.spec_primary() < 15 && 0 <= b.spec_primary() < 15);
        assert(a.spec_category_index() == b.spec_category_index());
        assert(a.spec_primary() == b.spec_primary());
        assert(a.spec_secondary() == b.spec_secondary());
        match (a, b) {
            (HandRank::HighCard(r), HandRank::HighCard(q)) => lemma_same_value_same_rank(r, q),
            (HandRank::OnePair(r), HandRank::OnePair(q)) => lemma_same_value_same_rank(r, q),
            (HandRank::TwoPair(r, r2), HandRank::TwoPair(q, q2)) => {
                lemma_same_value_same_rank(r, q);
                lemma_same_value_same_rank(r2, q2);
            },
            (HandRank::ThreeOfAKind(r), HandRank::ThreeOfAKind(q)) => lemma_same_value_same_rank(
                r,
                q,
            ),
            (HandRank::Straight(r), HandRank::Straight(q)) => lemma_same_value_same_rank(r, q),
            (HandRank::Flush(r), HandRank::Flush(q)) => lemma_same_value_same_rank(r, q),
            (HandRank::FullHouse(r, r2), HandRank::FullHouse(q, q2)) => {
                lemma_same_value_same_rank(r, q);
                lemma_same_value_same_rank(r2, q2);
            },
            (HandRank::FourOfAKind(r), HandRank::FourOfAKind(q)) => lemma_same_value_same_rank(
                r,
                q,
            ),
            (HandRank::StraightFlush(r), HandRank::StraightFlush(q)) => lemma_same_value_same_rank(
                r,
                q,
            ),
            _ => {},
        }
    }
}

} // verus!
