//! The decision core of a five-card draw-poker variant.
//!
//! The library models cards, the 52-card deck with a Fisher-Yates shuffle,
//! the five-card hand evaluator with its kicker-based total order, and the
//! category-to-score table. Terminal rendering and the interactive game loop
//! are left to callers; the deck draws its randomness through the
//! [`card::RandomSource`] trait, which callers implement with a generator of
//! their choice, seeded from the four words that [`get_prng_seed`] derives.

use vstd::prelude::*;

pub mod card;
pub mod counting;
pub mod deck;
pub mod hand;
pub mod score;
pub mod ui;

verus! {

use crate::card::Card;
use crate::deck::Deck;

/// The number of positions among the first `i` that are not held, which is
/// how many replacement cards a redraw takes from the deck.
pub open spec fn count_unheld(held: Seq<bool>, i: int) -> int
    decreases i,
{
    if i <= 0 {
        0
    } else {
        count_unheld(held, i - 1) + if held[i - 1] {
            0int
        } else {
            1int
        }
    }
}

/// The unheld count is between zero and the number of positions counted,
/// and grows with the number of positions.
proof fn lemma_count_unheld_bounds(held: Seq<bool>, i: int, j: int)
    requires
        0 <= i <= j,
    ensures
        0 <= count_unheld(held, i) <= count_unheld(held, j) <= j,
    decreases j,
{
    if j > 0 {
        if i == j {
            lemma_count_unheld_bounds(held, 0, j - 1);
        } else {
            lemma_count_unheld_bounds(held, i, j - 1);
        }
    }
}

/// Builds the redrawn hand: held positions keep their card, every other
/// position takes the next card from the deck, starting right after the
/// positions of the initial deal.
pub fn do_hold(deck: &Deck, initial_hand: &[Card], held: &[bool]) -> (r: Vec<Card>)
    requires
        initial_hand@.len() == held@.len(),
        deck@.len() >= initial_hand@.len() + count_unheld(held@, held@.len() as int),
    ensures
        r@.len() == initial_hand@.len(),
        forall|i: int|
            0 <= i < r@.len() ==> #[trigger] r@[i] == if held@[i] {
                initial_hand@[i]
            } else {
                deck@[initial_hand@.len() + count_unheld(held@, i)]
            },
{
    let n = initial_hand.len();
    let deck_len = deck.len();
    let mut index = n;
    let mut new_hand: Vec<Card> = Vec::new();
    let mut i: usize = 0;
    while i < n
        invariant
            n == initial_hand@.len() == held@.len(),
            deck_len == deck@.len(),
            deck@.len() >= n + count_unheld(held@, n as int),
            i <= n,
            new_hand@.len() == i,
            index == n + count_unheld(held@, i as int),
            forall|k: int|
                0 <= k < i ==> #[trigger] new_hand@[k] == if held@[k] {
                    initial_hand@[k]
                } else {
                    deck@[initial_hand@.len() + count_unheld(held@, k)]
                },
        decreases n - i,
    {
        proof {
            lemma_count_unheld_bounds(held@, i as int, held@.len() as int);
            lemma_count_unheld_bounds(held@, i + 1, held@.len() as int);
        }
        if held[i] {
            new_hand.push(initial_hand[i]);
        } else {
            new_hand.push(*deck.index(index));
            index = index + 1;
        }
        i = i + 1;
    }
    new_hand
}

/// Reads the wall clock as seconds and subsecond nanoseconds since the Unix
/// epoch.
///
/// Relies on std::time::SystemTime: `now` followed by `duration_since` the
/// Unix epoch yields the current time as a duration; a clock set before the
/// epoch is reported as (0, 0). Nothing is promised of the values: callers
/// treat them as arbitrary.
#[verifier::external_body]
fn unix_time_parts() -> (r: (u64, u64)) {
    match std::time::SystemTime::now().duration_since(std::time::SystemTime::UNIX_EPOCH) {
        Ok(d) => (d.as_secs(), d.subsec_nanos() as u64),
        Err(_) => (0, 0),
    }
}

/// Derives a four-word seed for a random source from the wall clock.
///
/// The first two words are the fixed pair (0, 1), so the seed is never
/// all-zero even when the clock words happen to be zero; the last two words
/// come from a wall-clock reading and carry the actual entropy.
pub fn get_prng_seed() -> (r: [u64; 4])
    ensures
        r@.len() == 4,
        r@[0] == 0,
        r@[1] == 1,
{
    let (secs, nanos) = unix_time_parts();
    [0, 1, secs, nanos]
}

} // verus!
