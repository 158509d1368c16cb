//! The card model: ranks, suits, cards and the hand categories.
//!
//! Ranks carry two numeric projections: the aces-high value (Two = 2 up to
//! Ace = 14) used for comparison and straight detection, and the aces-low
//! value (Ace = 1) used only inside a five-high straight. Cards compare by
//! rank alone; suits never affect ordering.

use vstd::prelude::*;

verus! {

pub use crate::deck::Deck;
pub use crate::deck::RandomSource;
pub use crate::hand::Hand;
pub use crate::hand::HandView;
pub use crate::hand::sort_cards;

/// The thirteen card ranks, from Two up to Ace.
#[derive(Clone, Copy, Debug, PartialEq, Eq, Structural)]
pub enum Rank {
    Two,
    Three,
    Four,
    Five,
    Six,
    Seven,
    Eight,
    Nine,
    Ten,
    Jack,
    Queen,
    King,
    Ace,
}

/// The aces-high numeric value of a rank: Two = 2, ..., King = 13, Ace = 14.
pub open spec fn rank_value(r: Rank) -> int {
    match r {
        Rank::Two => 2,
        Rank::Three => 3,
        Rank::Four => 4,
        Rank::Five => 5,
        Rank::Six => 6,
        Rank::Seven => 7,
        Rank::Eight => 8,
        Rank::Nine => 9,
        Rank::Ten => 10,
        Rank::Jack => 11,
        Rank::Queen => 12,
        Rank::King => 13,
        Rank::Ace => 14,
    }
}

/// The aces-low numeric value of a rank: Ace = 1, all others as aces-high.
pub open spec fn rank_value_low(r: Rank) -> int {
    if r == Rank::Ace {
        1
    } else {
        rank_value(r)
    }
}

impl Rank {
    /// The aces-low numeric projection (Ace counts as 1).
    pub fn to_int(&self) -> (v: usize)
        ensures
            v == rank_value_low(*self),
    {
        match self {
            Rank::Ace => 1,
            _ => self.to_int_aces_high(),
        }
    }

    /// The aces-high numeric projection (Ace counts as 14).
    pub fn to_int_aces_high(&self) -> (v: usize)
        ensures
            v == rank_value(*self),
    {
        match self {
            Rank::Two => 2,
            Rank::Three => 3,
            Rank::Four => 4,
            Rank::Five => 5,
            Rank::Six => 6,
            Rank::Seven => 7,
            Rank::Eight => 8,
            Rank::Nine => 9,
            Rank::Ten => 10,
            Rank::Jack => 11,
            Rank::Queen => 12,
            Rank::King => 13,
            Rank::Ace => 14,
        }
    }
}

/// The four suits. Suits have no ordering semantics: they never affect
/// ranking or scoring, only rendering.
#[derive(Clone, Copy, Debug, PartialEq, Eq, Structural)]
pub enum Suit {
    Spade,
    Heart,
    Club,
    Diamond,
}

/// A playing card: a (rank, suit) pair. Equality and ordering are by rank
/// only; two cards of equal rank and different suit are equal.
#[derive(Clone, Copy, Debug, Eq)]
pub struct Card {
    pub rank: Rank,
    pub suit: Suit,
}

/// The aces-high value of a card's rank.
pub open spec fn card_value(c: Card) -> int {
    rank_value(c.rank)
}

impl PartialEq for Card {
    fn eq(&self, other: &Self) -> (r: bool) {
        self.rank == other.rank
    }
}

impl vstd::std_specs::cmp::PartialEqSpecImpl for Card {
    open spec fn obeys_eq_spec() -> bool {
        true
    }

    open spec fn eq_spec(&self, other: &Self) -> bool {
        self.rank == other.rank
    }
}

impl PartialOrd for Card {
    fn partial_cmp(&self, other: &Self) -> (r: Option<core::cmp::Ordering>) {
        let a = self.rank.to_int_aces_high();
        let b = other.rank.to_int_aces_high();
        if a < b {
            Some(core::cmp::Ordering::Less)
        } else if a == b {
            Some(core::cmp::Ordering::Equal)
        } else {
            Some(core::cmp::Ordering::Greater)
        }
    }
}

impl vstd::std_specs::cmp::PartialOrdSpecImpl for Card {
    open spec fn obeys_partial_cmp_spec() -> bool {
        true
    }

    open spec fn partial_cmp_spec(&self, other: &Self) -> Option<core::cmp::Ordering> {
        if card_value(*self) < card_value(*other) {
            Some(core::cmp::Ordering::Less)
        } else if card_value(*self) == card_value(*other) {
            Some(core::cmp::Ordering::Equal)
        } else {
            Some(core::cmp::Ordering::Greater)
        }
    }
}

/// The eleven hand categories, in increasing order of strength.
/// FiveOfAKind is unreachable with a single 52-card deck; it is kept for
/// forward compatibility with multi-deck or wild-card play.
#[derive(Clone, Copy, Debug, PartialEq, Eq, Structural)]
pub enum HandRanking {
    HighCard,
    Pair,
    TwoPair,
    ThreeOfAKind,
    Straight,
    Flush,
    FullHouse,
    FourOfAKind,
    StraightFlush,
    RoyalFlush,
    FiveOfAKind,
}

/// The strength ordinal of a category: HighCard = 0 up to FiveOfAKind = 10.
/// Categories compare by this ordinal.
pub open spec fn ranking_value(r: HandRanking) -> int {
    match r {
        HandRanking::HighCard => 0,
        HandRanking::Pair => 1,
        HandRanking::TwoPair => 2,
        HandRanking::ThreeOfAKind => 3,
        HandRanking::Straight => 4,
        HandRanking::Flush => 5,
        HandRanking::FullHouse => 6,
        HandRanking::FourOfAKind => 7,
        HandRanking::StraightFlush => 8,
        HandRanking::RoyalFlush => 9,
        HandRanking::FiveOfAKind => 10,
    }
}

impl HandRanking {
    /// The strength ordinal as an executable value.
    pub fn ordinal(&self) -> (v: usize)
        ensures
            v == ranking_value(*self),
    {
        match self {
            HandRanking::HighCard => 0,
            HandRanking::Pair => 1,
            HandRanking::TwoPair => 2,
            HandRanking::ThreeOfAKind => 3,
            HandRanking::Straight => 4,
            HandRanking::Flush => 5,
            HandRanking::FullHouse => 6,
            HandRanking::FourOfAKind => 7,
            HandRanking::StraightFlush => 8,
            HandRanking::RoyalFlush => 9,
            HandRanking::FiveOfAKind => 10,
        }
    }
}

} // verus!
