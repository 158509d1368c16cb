//! Display support: the bitmap of label cells that light up for a category.
//!
//! The rendering itself (styles, layout) belongs to the caller; the core
//! only decides which of the ten label cells -- TWO, PAIR, FOUR, FULL HOUSE,
//! ROYAL, THREE, of a KIND, STRAIGHT, FLUSH and the blank cell -- a category
//! lights, one bit per cell in that order.

use vstd::prelude::*;

use crate::card::HandRanking;

verus! {

/// A category to be rendered, or none for the blank frame shown before a
/// deal.
pub struct HandRankingDisplay(pub Option<HandRanking>);

/// The label cells lit for each category, one bit per cell: bit 0 TWO,
/// bit 1 PAIR, bit 2 FOUR, bit 3 FULL HOUSE, bit 4 ROYAL, bit 5 THREE,
/// bit 6 of-a-KIND, bit 7 STRAIGHT, bit 8 FLUSH. A high card lights
/// nothing, and five of a kind has no cells of its own.
pub open spec fn spec_display_bitmap(r: HandRanking) -> u16 {
    match r {
        HandRanking::HighCard => 0,
        HandRanking::Pair => 2,
        HandRanking::TwoPair => 3,
        HandRanking::ThreeOfAKind => 96,
        HandRanking::Straight => 128,
        HandRanking::Flush => 256,
        HandRanking::FullHouse => 8,
        HandRanking::FourOfAKind => 68,
        HandRanking::StraightFlush => 384,
        HandRanking::RoyalFlush => 272,
        HandRanking::FiveOfAKind => 0,
    }
}

/// The bitmap of label cells that light up for a category.
pub fn hand_ranking_to_display_bitmap(ranking: &HandRanking) -> (r: u16)
    ensures
        r == spec_display_bitmap(*ranking),
{
    match ranking {
        HandRanking::HighCard => 0,
        HandRanking::Pair => 2,
        HandRanking::TwoPair => 3,
        HandRanking::ThreeOfAKind => 96,
        HandRanking::Straight => 128,
        HandRanking::Flush => 256,
        HandRanking::FullHouse => 8,
        HandRanking::FourOfAKind => 68,
        HandRanking::StraightFlush => 384,
        HandRanking::RoyalFlush => 272,
        HandRanking::FiveOfAKind => 0,
    }
}

} // verus!
