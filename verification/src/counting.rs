//! Counting cards by rank value.
//!
//! `rcount` gives, for a sequence of cards and an aces-high rank value, the
//! number of cards in the sequence carrying that rank. The hand categories
//! and the run/kicker structure of a hand are all stated over these counts,
//! and the lemmas here let the counts be read off a concrete five-card
//! sequence, or transported across a permutation.

use vstd::prelude::*;
use vstd::multiset::Multiset;

use crate::card::Card;
use crate::card::Rank;
use crate::card::Suit;
use crate::card::card_value;
use crate::card::rank_value;

verus! {

/// The number of cards in `s` whose aces-high rank value is `v`.
pub open spec fn rcount(s: Seq<Card>, v: int) -> int
    decreases s.len(),
{
    if s.len() <= 0 {
        0
    } else {
        rcount(s.drop_last(), v) + if card_value(s.last()) == v {
            1int
        } else {
            0int
        }
    }
}

/// Appending one card raises the count of its own rank value by one and
/// leaves every other count unchanged.
pub proof fn lemma_rcount_push(s: Seq<Card>, c: Card)
    ensures
        forall|v: int| #[trigger]
            rcount(s.push(c), v) == rcount(s, v) + if card_value(c) == v {
                1int
            } else {
                0int
            },
{
    assert forall|v: int| #[trigger]
        rcount(s.push(c), v) == rcount(s, v) + if card_value(c) == v {
            1int
        } else {
            0int
        } by {
        assert(s.push(c).drop_last() =~= s);
        assert(s.push(c).last() == c);
    }
}

/// Counts are between zero and the length of the sequence.
pub proof fn lemma_rcount_bounds(s: Seq<Card>, v: int)
    ensures
        0 <= rcount(s, v) <= s.len(),
    decreases s.len(),
{
    if s.len() > 0 {
        lemma_rcount_bounds(s.drop_last(), v);
    }
}

/// A positive count exhibits a position holding the rank value.
pub proof fn lemma_rcount_exists(s: Seq<Card>, v: int)
    requires
        rcount(s, v) > 0,
    ensures
        exists|k: int| 0 <= k < s.len() && card_value(#[trigger] s[k]) == v,
    decreases s.len(),
{
    if card_value(s.last()) == v {
        assert(card_value(s[s.len() - 1]) == v);
    } else {
        lemma_rcount_exists(s.drop_last(), v);
        let k = choose|k: int|
            0 <= k < s.drop_last().len() && card_value(#[trigger] s.drop_last()[k]) == v;
        assert(card_value(s[k]) == v);
    }
}

/// A rank value held at no position has count zero.
pub proof fn lemma_rcount_zero(s: Seq<Card>, v: int)
    requires
        forall|k: int| 0 <= k < s.len() ==> card_value(#[trigger] s[k]) != v,
    ensures
        rcount(s, v) == 0,
{
    lemma_rcount_bounds(s, v);
    if rcount(s, v) > 0 {
        lemma_rcount_exists(s, v);
    }
}

/// On a five-card sequence, a count is the sum of the five per-position
/// indicators, so concrete counts can be read off directly.
pub proof fn lemma_rcount_unfold5(s: Seq<Card>)
    requires
        s.len() == 5,
    ensures
        forall|v: int| #[trigger]
            rcount(s, v) == (if card_value(s[0]) == v {
                1int
            } else {
                0int
            }) + (if card_value(s[1]) == v {
                1int
            } else {
                0int
            }) + (if card_value(s[2]) == v {
                1int
            } else {
                0int
            }) + (if card_value(s[3]) == v {
                1int
            } else {
                0int
            }) + (if card_value(s[4]) == v {
                1int
            } else {
                0int
            }),
{
    let s4 = s.drop_last();
    let s3 = s4.drop_last();
    let s2 = s3.drop_last();
    let s1 = s2.drop_last();
    let s0 = s1.drop_last();
    assert forall|v: int| #[trigger]
        rcount(s, v) == (if card_value(s[0]) == v {
            1int
        } else {
            0int
        }) + (if card_value(s[1]) == v {
            1int
        } else {
            0int
        }) + (if card_value(s[2]) == v {
            1int
        } else {
            0int
        }) + (if card_value(s[3]) == v {
            1int
        } else {
            0int
        }) + (if card_value(s[4]) == v {
            1int
        } else {
            0int
        }) by {
        assert(s0.len() == 0);
        assert(rcount(s, v) == rcount(s4, v) + if card_value(s[4]) == v {
            1int
        } else {
            0int
        });
        assert(rcount(s4, v) == rcount(s3, v) + if card_value(s[3]) == v {
            1int
        } else {
            0int
        });
        assert(rcount(s3, v) == rcount(s2, v) + if card_value(s[2]) == v {
            1int
        } else {
            0int
        });
        assert(rcount(s2, v) == rcount(s1, v) + if card_value(s[1]) == v {
            1int
        } else {
            0int
        });
        assert(rcount(s1, v) == rcount(s0, v) + if card_value(s[0]) == v {
            1int
        } else {
            0int
        });
    }
}

/// The subsequence of cards carrying the rank value `v`, in their order of
/// appearance. A stable sort leaves each of these subsequences exactly as
/// it found them.
pub open spec fn rank_subseq(s: Seq<Card>, v: int) -> Seq<Card>
    decreases s.len(),
{
    if s.len() <= 0 {
        Seq::empty()
    } else if card_value(s.last()) == v {
        rank_subseq(s.drop_last(), v).push(s.last())
    } else {
        rank_subseq(s.drop_last(), v)
    }
}

/// Appending one card appends it to its own rank's subsequence and leaves
/// every other subsequence unchanged.
pub proof fn lemma_rank_subseq_push(s: Seq<Card>, c: Card)
    ensures
        forall|v: int| #[trigger]
            rank_subseq(s.push(c), v) == if card_value(c) == v {
                rank_subseq(s, v).push(c)
            } else {
                rank_subseq(s, v)
            },
{
    assert forall|v: int| #[trigger]
        rank_subseq(s.push(c), v) == if card_value(c) == v {
            rank_subseq(s, v).push(c)
        } else {
            rank_subseq(s, v)
        } by {
        assert(s.push(c).drop_last() =~= s);
        assert(s.push(c).last() == c);
    }
}

/// Inserting a card before every later card of its own rank appends it to
/// its rank's subsequence, and leaves every other rank's subsequence
/// unchanged.
pub proof fn lemma_rank_subseq_insert(s: Seq<Card>, k: int, c: Card)
    requires
        0 <= k <= s.len(),
    ensures
        forall|v: int|
            v != card_value(c) ==> #[trigger] rank_subseq(s.insert(k, c), v) == rank_subseq(s, v),
        (forall|t: int| k <= t < s.len() ==> card_value(#[trigger] s[t]) != card_value(c))
            ==> rank_subseq(s.insert(k, c), card_value(c)) == rank_subseq(
            s,
            card_value(c),
        ).push(c),
    decreases s.len(),
{
    if k == s.len() {
        assert(s.insert(k, c) =~= s.push(c));
        lemma_rank_subseq_push(s, c);
    } else {
        let s0 = s.drop_last();
        let last = s.last();
        s.insert_ensures(k, c);
        assert(s.insert(k, c) =~= s0.insert(k, c).push(last)) by {
            s0.insert_ensures(k, c);
        }
        lemma_rank_subseq_insert(s0, k, c);
        lemma_rank_subseq_push(s0.insert(k, c), last);
        assert(s0.push(last) =~= s);
        lemma_rank_subseq_push(s0, last);
        assert forall|v: int|
            v != card_value(c) implies #[trigger] rank_subseq(s.insert(k, c), v) == rank_subseq(
            s,
            v,
        ) by {
            assert(rank_subseq(s0.insert(k, c), v) == rank_subseq(s0, v));
        }
        if forall|t: int| k <= t < s.len() ==> card_value(#[trigger] s[t]) != card_value(c) {
            assert forall|t: int|
                k <= t < s0.len() implies card_value(#[trigger] s0[t]) != card_value(c) by {
                assert(s0[t] == s[t]);
            }
            assert(rank_subseq(s0.insert(k, c), card_value(c)) == rank_subseq(
                s0,
                card_value(c),
            ).push(c));
            assert(card_value(s[s.len() - 1]) != card_value(c));
            assert(card_value(last) != card_value(c));
        }
    }
}

/// The four cards (one per suit) carrying a given rank.
pub open spec fn suit_sum(m: Multiset<Card>, r: Rank) -> int {
    m.count(Card { rank: r, suit: Suit::Spade }) + m.count(Card { rank: r, suit: Suit::Heart })
        + m.count(Card { rank: r, suit: Suit::Club }) + m.count(
        Card { rank: r, suit: Suit::Diamond },
    ) as int
}

/// A rank's count in a sequence equals the summed multiplicities of the four
/// cards of that rank in the sequence's multiset; counts are therefore a
/// function of the multiset alone.
pub proof fn lemma_rcount_suit_sum(s: Seq<Card>, r: Rank)
    ensures
        rcount(s, rank_value(r)) == suit_sum(s.to_multiset(), r),
    decreases s.len(),
{
    broadcast use vstd::seq_lib::group_to_multiset_ensures;
    broadcast use vstd::multiset::group_multiset_axioms;

    if s.len() == 0 {
        assert(!s.contains(Card { rank: r, suit: Suit::Spade }));
        assert(!s.contains(Card { rank: r, suit: Suit::Heart }));
        assert(!s.contains(Card { rank: r, suit: Suit::Club }));
        assert(!s.contains(Card { rank: r, suit: Suit::Diamond }));
    } else {
        let s0 = s.drop_last();
        let c = s.last();
        lemma_rcount_suit_sum(s0, r);
        assert(s0.push(c) =~= s);
        assert(s.to_multiset() == s0.to_multiset().insert(c));
        if c.rank == r {
            assert(c == (Card { rank: r, suit: c.suit }));
            assert(card_value(c) == rank_value(r));
        } else {
            assert(card_value(c) != rank_value(r)) by {
                lemma_rank_value_injective();
            }
        }
    }
}

/// Distinct ranks have distinct aces-high values.
pub proof fn lemma_rank_value_injective()
    ensures
        forall|r1: Rank, r2: Rank| rank_value(r1) == rank_value(r2) ==> r1 == r2,
{
}

/// Sequences holding the same multiset of cards have the same rank counts.
pub proof fn lemma_equal_multiset_equal_rcount(s1: Seq<Card>, s2: Seq<Card>)
    requires
        s1.to_multiset() == s2.to_multiset(),
    ensures
        forall|v: int| #[trigger] rcount(s1, v) == rcount(s2, v),
{
    assert forall|v: int| #[trigger] rcount(s1, v) == rcount(s2, v) by {
        if exists|r: Rank| #[trigger] rank_value(r) == v {
            let r = choose|r: Rank| #[trigger] rank_value(r) == v;
            lemma_rcount_suit_sum(s1, r);
            lemma_rcount_suit_sum(s2, r);
        } else {
            assert forall|k: int| 0 <= k < s1.len() implies card_value(#[trigger] s1[k]) != v by {
                assert(rank_value(s1[k].rank) != v);
            }
            assert forall|k: int| 0 <= k < s2.len() implies card_value(#[trigger] s2[k]) != v by {
                assert(rank_value(s2[k].rank) != v);
            }
            lemma_rcount_zero(s1, v);
            lemma_rcount_zero(s2, v);
        }
    }
}

} // verus!
