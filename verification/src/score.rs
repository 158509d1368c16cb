//! The scorer: a pure mapping from a hand's category to its point value.
//!
//! Every category has a fixed score, except a pair, which scores only when
//! the paired rank is jacks or better.

use vstd::prelude::*;

use crate::card::HandRanking;
use crate::hand::Hand;
use crate::hand::HandView;
use crate::hand::run_rank;
use crate::hand::runs_ranking_of;
use crate::hand::ranking_of;
use crate::counting::rcount;

verus! {

/// The point value of a hand: high card 0; a pair 5, but only jacks or
/// better; two pair 10; three of a kind 15; straight 20; flush 25; full
/// house 40; four of a kind 125; straight flush 250; royal flush 3000; five
/// of a kind 8000 (unreachable with a single 52-card deck).
pub open spec fn spec_score(h: HandView) -> int {
    match h.ranking {
        HandRanking::HighCard => 0,
        HandRanking::Pair => if run_rank(h.runs[0]) >= 11 {
            5
        } else {
            0
        },
        HandRanking::TwoPair => 10,
        HandRanking::ThreeOfAKind => 15,
        HandRanking::Straight => 20,
        HandRanking::Flush => 25,
        HandRanking::FullHouse => 40,
        HandRanking::FourOfAKind => 125,
        HandRanking::StraightFlush => 250,
        HandRanking::RoyalFlush => 3000,
        HandRanking::FiveOfAKind => 8000,
    }
}

/// Scores a hand according to the fixed category table, with the
/// jacks-or-better rule for a pair.
pub fn score_hand(hand: &Hand) -> (r: usize)
    ensures
        r == spec_score(hand@),
{
    proof {
        use_type_invariant(hand);
    }
    match *hand.ranking() {
        HandRanking::HighCard => 0,
        HandRanking::Pair => {
            proof {
                let s = hand@.cards;
                assert(ranking_of(s) == HandRanking::Pair);
                assert(runs_ranking_of(s) == Some(HandRanking::Pair));
                let v = choose|v: int| #[trigger] rcount(s, v) == 2;
                let i = choose|i: int|
                    0 <= i < hand@.runs.len() && run_rank(#[trigger] hand@.runs[i]) == v;
                assert(hand@.runs.len() >= 1);
                assert(hand@.runs[0].len() >= 2);
            }
            let runs = hand.runs();
            if runs[0][0].rank.to_int_aces_high() >= 11 {
                5
            } else {
                0
            }
        },
        HandRanking::TwoPair => 10,
        HandRanking::ThreeOfAKind => 15,
        HandRanking::Straight => 20,
        HandRanking::Flush => 25,
        HandRanking::FullHouse => 40,
        HandRanking::FourOfAKind => 125,
        HandRanking::StraightFlush => 250,
        HandRanking::RoyalFlush => 3000,
        HandRanking::FiveOfAKind => 8000,
    }
}

} // verus!
