//! The five-card hand evaluator.
//!
//! A hand is built from exactly five cards. Construction sorts the cards by
//! rank, partitions them into maximal equal-rank groups, splits the groups
//! into `runs` (size two or more) and `kickers` (singletons), and classifies
//! the hand into its category. Hands carry a total order: first by category
//! ordinal, then lexicographically by runs and kickers.

use vstd::prelude::*;
use vstd::multiset::Multiset;
use vstd::seq_lib::lemma_multiset_commutative;

use crate::card::Card;
use crate::card::HandRanking;
use crate::card::card_value;
use crate::card::rank_value;
use crate::card::ranking_value;
use crate::counting::rcount;
use crate::counting::rank_subseq;
use crate::counting::lemma_rank_subseq_insert;
use crate::counting::lemma_rank_subseq_push;
use crate::counting::lemma_rcount_push;
use crate::counting::lemma_rcount_zero;
use crate::counting::lemma_rcount_bounds;
use crate::counting::lemma_rcount_unfold5;
use crate::counting::lemma_equal_multiset_equal_rcount;

verus! {

/// Cards in non-decreasing order of aces-high rank value.
pub open spec fn sorted_by_rank(s: Seq<Card>) -> bool {
    forall|i: int, j: int|
        0 <= i < j < s.len() ==> card_value(#[trigger] s[i]) <= card_value(#[trigger] s[j])
}

/// Inserting an element anywhere in a sequence adds it to the sequence's
/// multiset.
proof fn lemma_to_multiset_insert(s: Seq<Card>, i: int, c: Card)
    requires
        0 <= i <= s.len(),
    ensures
        s.insert(i, c).to_multiset() == s.to_multiset().insert(c),
{
    broadcast use vstd::seq_lib::group_to_multiset_ensures;
    broadcast use vstd::multiset::group_multiset_axioms;

    let l = s.subrange(0, i);
    let r = s.subrange(i, s.len() as int);
    assert(s =~= l + r);
    assert(s.insert(i, c) =~= l.push(c) + r);
    lemma_multiset_commutative(l, r);
    lemma_multiset_commutative(l.push(c), r);
    assert(l.push(c).to_multiset() == l.to_multiset().insert(c));
    assert(l.to_multiset().insert(c).add(r.to_multiset()) =~= l.to_multiset().add(
        r.to_multiset(),
    ).insert(c));
}

/// Sorts five (or any number of) cards by rank, aces high, keeping cards of
/// equal rank in their input order. Returns a rearrangement: the multiset of
/// cards is exactly the input's.
pub fn sort_cards(cards: &[Card]) -> (r: Vec<Card>)
    ensures
        r@.len() == cards@.len(),
        r@.to_multiset() == cards@.to_multiset(),
        sorted_by_rank(r@),
        forall|v: int| #[trigger] rank_subseq(r@, v) == rank_subseq(cards@, v),
{
    let mut r: Vec<Card> = Vec::new();
    let mut idx: usize = 0;
    proof {
        broadcast use vstd::seq_lib::group_to_multiset_ensures;
        broadcast use vstd::multiset::group_multiset_axioms;

        assert(cards@.subrange(0, 0) =~= Seq::<Card>::empty());
        assert forall|c: Card| Seq::<Card>::empty().to_multiset().count(c) == 0 by {
            assert(!Seq::<Card>::empty().contains(c));
        }
        assert(Seq::<Card>::empty().to_multiset() =~= Multiset::<Card>::empty());
    }
    while idx < cards.len()
        invariant
            idx <= cards@.len(),
            r@.len() == idx,
            sorted_by_rank(r@),
            r@.to_multiset() == cards@.subrange(0, idx as int).to_multiset(),
            forall|v: int| #[trigger]
                rank_subseq(r@, v) == rank_subseq(cards@.subrange(0, idx as int), v),
        decreases cards@.len() - idx,
    {
        let c = cards[idx];
        let mut k: usize = r.len();
        while k > 0 && r[k - 1].rank.to_int_aces_high() > c.rank.to_int_aces_high()
            invariant
                k <= r@.len(),
                sorted_by_rank(r@),
                forall|t: int| k <= t < r@.len() ==> card_value(#[trigger] r@[t]) > card_value(c),
            decreases k,
        {
            k = k - 1;
        }
        let ghost r_old = r@;
        r.insert(k, c);
        proof {
            broadcast use vstd::seq_lib::group_to_multiset_ensures;

            r_old.insert_ensures(k as int, c);
            lemma_to_multiset_insert(r_old, k as int, c);
            assert(cards@.subrange(0, idx + 1) =~= cards@.subrange(0, idx as int).push(
                cards@[idx as int],
            ));
            lemma_rank_subseq_insert(r_old, k as int, c);
            lemma_rank_subseq_push(cards@.subrange(0, idx as int), c);
            assert forall|t: int|
                k <= t < r_old.len() implies card_value(#[trigger] r_old[t]) != card_value(c) by {}
            assert forall|v: int| #[trigger]
                rank_subseq(r@, v) == rank_subseq(cards@.subrange(0, idx + 1), v) by {
                if v == card_value(c) {
                    assert(rank_subseq(r@, v) == rank_subseq(r_old, v).push(c));
                } else {
                    assert(rank_subseq(r@, v) == rank_subseq(r_old, v));
                }
            }
            assert forall|i: int, j: int|
                0 <= i < j < r@.len() implies card_value(#[trigger] r@[i]) <= card_value(
                #[trigger] r@[j],
            ) by {
                if i < k && j < k {
                    assert(r@[i] == r_old[i] && r@[j] == r_old[j]);
                } else if i < k && j == k {
                    assert(r@[i] == r_old[i] && r@[j] == c);
                    assert(card_value(r_old[k - 1]) <= card_value(c));
                    assert(i <= k - 1 < r_old.len());
                    if i < k - 1 {
                        assert(card_value(r_old[i]) <= card_value(r_old[k - 1]));
                    }
                } else if i < k && j > k {
                    assert(r@[i] == r_old[i] && r@[j] == r_old[j - 1]);
                    assert(card_value(r_old[j - 1]) > card_value(c));
                    assert(card_value(r_old[k - 1]) <= card_value(c));
                    if i < k - 1 {
                        assert(card_value(r_old[i]) <= card_value(r_old[k - 1]));
                    }
                } else if i == k {
                    assert(r@[i] == c && r@[j] == r_old[j - 1]);
                    assert(card_value(r_old[j - 1]) > card_value(c));
                } else {
                    assert(r@[i] == r_old[i - 1] && r@[j] == r_old[j - 1]);
                }
            }
        }
        idx = idx + 1;
    }
    proof {
        assert(cards@.subrange(0, cards@.len() as int) =~= cards@);
    }
    r
}

/// The shared rank value of a maximal equal-rank group, read off its first
/// card.
pub open spec fn run_rank(run: Seq<Card>) -> int {
    card_value(run[0])
}

/// All cards of the group carry the group's rank.
pub open spec fn uniform_run(run: Seq<Card>) -> bool {
    forall|j: int| 0 <= j < run.len() ==> card_value(#[trigger] run[j]) == run_rank(run)
}

/// The sort key of a run: size first, rank second (rank values stay below
/// 32, so one scaled integer captures the lexicographic pair).
pub open spec fn run_key(run: Seq<Card>) -> int {
    run.len() * 32 + run_rank(run)
}

/// The views of a vector of card groups.
pub open spec fn group_views(gs: Seq<Vec<Card>>) -> Seq<Seq<Card>> {
    gs.map_values(|g: Vec<Card>| g@)
}

/// What the `runs` of a hand over cards `s` must be: the maximal equal-rank
/// groups of size two or more, each holding every card of its rank, ordered
/// by descending size and, among equal sizes, descending rank.
pub open spec fn runs_correct(s: Seq<Card>, rs: Seq<Seq<Card>>) -> bool {
    &&& forall|i: int| 0 <= i < rs.len() ==> (#[trigger] rs[i]).len() >= 2
    &&& forall|i: int| 0 <= i < rs.len() ==> uniform_run(#[trigger] rs[i])
    &&& forall|i: int|
        0 <= i < rs.len() ==> (#[trigger] rs[i]).len() == rcount(s, run_rank(rs[i]))
    &&& forall|v: int|
        #[trigger] rcount(s, v) >= 2 ==> exists|i: int|
            0 <= i < rs.len() && run_rank(#[trigger] rs[i]) == v
    &&& forall|i: int, j: int|
        0 <= i < j < rs.len() ==> run_key(#[trigger] rs[i]) > run_key(#[trigger] rs[j])
}

/// The hand whose five ranks are ace, two, three, four and five: the
/// five-high straight, the only place where the ace counts low.
pub open spec fn is_five_high(s: Seq<Card>) -> bool {
    &&& rcount(s, 2) == 1
    &&& rcount(s, 3) == 1
    &&& rcount(s, 4) == 1
    &&& rcount(s, 5) == 1
    &&& rcount(s, 14) == 1
}

/// What the `kickers` of a hand over cards `s` must be: one card for each
/// rank held exactly once, in descending rank order -- except in a five-high
/// straight, where the ace leads and the rest follow upward, matching the
/// straight's natural low-to-high arrangement.
pub open spec fn kickers_correct(s: Seq<Card>, ks: Seq<Card>) -> bool {
    &&& forall|i: int| 0 <= i < ks.len() ==> rcount(s, card_value(#[trigger] ks[i])) == 1
    &&& forall|v: int|
        #[trigger] rcount(s, v) == 1 ==> exists|i: int|
            0 <= i < ks.len() && card_value(#[trigger] ks[i]) == v
    &&& if is_five_high(s) {
        ks.map_values(|c: Card| card_value(c)) == seq![14int, 2int, 3int, 4int, 5int]
    } else {
        forall|i: int, j: int|
            0 <= i < j < ks.len() ==> card_value(#[trigger] ks[i]) > card_value(#[trigger] ks[j])
    }
}

/// The runs and kickers together hold exactly the cards of the hand: the
/// same multiset, every card in exactly one place.
pub open spec fn hand_partition(s: Seq<Card>, rs: Seq<Seq<Card>>, ks: Seq<Card>) -> bool {
    rs.flatten().to_multiset().add(ks.to_multiset()) == s.to_multiset()
}

/// Some rank appears exactly `n` times among the cards.
pub open spec fn has_count(s: Seq<Card>, n: int) -> bool {
    exists|v: int| #[trigger] rcount(s, v) == n
}

/// Two distinct ranks each appear exactly twice.
pub open spec fn has_two_pairs(s: Seq<Card>) -> bool {
    exists|v: int, w: int|
        v != w && #[trigger] rcount(s, v) == 2 && #[trigger] rcount(s, w) == 2
}

/// All cards share one suit.
pub open spec fn all_same_suit(s: Seq<Card>) -> bool {
    forall|i: int, j: int|
        0 <= i < s.len() && 0 <= j < s.len() ==> (#[trigger] s[i]).suit == (#[trigger] s[j]).suit
}

/// The five rank values starting at `lo` each appear exactly once.
pub open spec fn straight_from(s: Seq<Card>, lo: int) -> bool {
    forall|v: int| lo <= v < lo + 5 ==> #[trigger] rcount(s, v) == 1
}

/// Five consecutive aces-high rank values, each once.
pub open spec fn is_standard_straight(s: Seq<Card>) -> bool {
    exists|lo: int| 2 <= lo <= 10 && #[trigger] straight_from(s, lo)
}

/// A straight: five consecutive aces-high values, or the ace-low five-high
/// pattern, which the consecutive check cannot see.
pub open spec fn is_straight(s: Seq<Card>) -> bool {
    is_standard_straight(s) || is_five_high(s)
}

/// Ten through ace, the ace-high straight.
pub open spec fn is_royal(s: Seq<Card>) -> bool {
    straight_from(s, 10)
}

/// The category of a five-card hand, decided from the rank counts first
/// (the pair family), and for hands of five distinct ranks from the
/// straight and flush tests.
/// The pair-family category decided by the multiset of run sizes, or `None`
/// when every rank appears at most once.
pub open spec fn runs_ranking_of(s: Seq<Card>) -> Option<HandRanking> {
    if has_count(s, 5) {
        Some(HandRanking::FiveOfAKind)
    } else if has_count(s, 4) {
        Some(HandRanking::FourOfAKind)
    } else if has_count(s, 3) && has_count(s, 2) {
        Some(HandRanking::FullHouse)
    } else if has_count(s, 3) {
        Some(HandRanking::ThreeOfAKind)
    } else if has_two_pairs(s) {
        Some(HandRanking::TwoPair)
    } else if has_count(s, 2) {
        Some(HandRanking::Pair)
    } else {
        None
    }
}

/// The category of a five-card hand: the pair family takes priority; a hand
/// of five distinct ranks falls through to the straight and flush tests.
pub open spec fn ranking_of(s: Seq<Card>) -> HandRanking {
    match runs_ranking_of(s) {
        Some(r) => r,
        None => if is_straight(s) && all_same_suit(s) && is_royal(s) {
            HandRanking::RoyalFlush
        } else if is_straight(s) && all_same_suit(s) {
            HandRanking::StraightFlush
        } else if is_straight(s) {
            HandRanking::Straight
        } else if all_same_suit(s) {
            HandRanking::Flush
        } else {
            HandRanking::HighCard
        },
    }
}

/// Splits a sorted sequence into its maximal equal-rank groups, in rank
/// order: each group uniform, holding every card of its rank, group ranks
/// strictly increasing, and the groups concatenating back to the input.
fn group_sorted(sorted: &Vec<Card>) -> (groups: Vec<Vec<Card>>)
    requires
        sorted_by_rank(sorted@),
        sorted@.len() >= 1,
    ensures
        group_views(groups@).flatten() == sorted@,
        forall|g: int| 0 <= g < groups@.len() ==> (#[trigger] groups@[g])@.len() >= 1,
        forall|g: int| 0 <= g < groups@.len() ==> uniform_run((#[trigger] groups@[g])@),
        forall|g: int|
            0 <= g < groups@.len() ==> (#[trigger] groups@[g])@.len() == rcount(
                sorted@,
                run_rank(groups@[g]@),
            ),
        forall|g: int, h: int|
            0 <= g < h < groups@.len() ==> run_rank((#[trigger] groups@[g])@) < run_rank(
                (#[trigger] groups@[h])@,
            ),
        forall|v: int|
            #[trigger] rcount(sorted@, v) >= 1 ==> exists|g: int|
                0 <= g < groups@.len() && run_rank((#[trigger] groups@[g])@) == v,
{
    let mut groups: Vec<Vec<Card>> = Vec::new();
    let mut cur: Vec<Card> = Vec::new();
    cur.push(sorted[0]);
    let mut i: usize = 1;
    proof {
        assert(sorted@.subrange(0, 1) =~= Seq::<Card>::empty().push(sorted@[0]));
        lemma_rcount_push(Seq::<Card>::empty(), sorted@[0]);
        assert(group_views(groups@).flatten() + cur@ =~= sorted@.subrange(0, 1));
    }
    while i < sorted.len()
        invariant
            sorted_by_rank(sorted@),
            1 <= i <= sorted@.len(),
            cur@.len() >= 1,
            uniform_run(cur@),
            run_rank(cur@) == card_value(sorted@[i - 1]),
            group_views(groups@).flatten() + cur@ == sorted@.subrange(0, i as int),
            forall|g: int| 0 <= g < groups@.len() ==> (#[trigger] groups@[g])@.len() >= 1,
            forall|g: int| 0 <= g < groups@.len() ==> uniform_run((#[trigger] groups@[g])@),
            forall|g: int|
                0 <= g < groups@.len() ==> run_rank((#[trigger] groups@[g])@) < run_rank(cur@),
            forall|g: int, h: int|
                0 <= g < h < groups@.len() ==> run_rank((#[trigger] groups@[g])@) < run_rank(
                    (#[trigger] groups@[h])@,
                ),
            forall|g: int|
                0 <= g < groups@.len() ==> (#[trigger] groups@[g])@.len() == rcount(
                    sorted@.subrange(0, i as int),
                    run_rank(groups@[g]@),
                ),
            cur@.len() == rcount(sorted@.subrange(0, i as int), run_rank(cur@)),
            forall|v: int|
                #[trigger] rcount(sorted@.subrange(0, i as int), v) >= 1 ==> run_rank(cur@) == v
                    || exists|g: int|
                    0 <= g < groups@.len() && run_rank((#[trigger] groups@[g])@) == v,
        decreases sorted@.len() - i,
    {
        let c = sorted[i];
        let ghost pre = sorted@.subrange(0, i as int);
        proof {
            assert(sorted@.subrange(0, i + 1) =~= pre.push(sorted@[i as int]));
            lemma_rcount_push(pre, sorted@[i as int]);
        }
        if c.rank.to_int_aces_high() == cur[0].rank.to_int_aces_high() {
            let ghost cur_old = cur@;
            cur.push(c);
            proof {
                assert(cur@ =~= cur_old.push(c));
                assert(group_views(groups@).flatten() + cur@ =~= sorted@.subrange(0, i + 1));
                assert forall|v: int|
                    #[trigger] rcount(sorted@.subrange(0, i + 1), v) >= 1 implies run_rank(cur@)
                    == v || exists|g: int|
                    0 <= g < groups@.len() && run_rank((#[trigger] groups@[g])@) == v by {
                    if v != card_value(c) {
                        assert(rcount(pre, v) >= 1);
                    }
                }
            }
        } else {
            proof {
                assert(card_value(sorted@[i as int]) >= card_value(sorted@[i - 1]));
                assert forall|k: int| 0 <= k < pre.len() implies card_value(
                    #[trigger] pre[k],
                ) != card_value(c) by {
                    assert(pre[k] == sorted@[k]);
                    assert(card_value(sorted@[k]) <= card_value(sorted@[i - 1]));
                }
                lemma_rcount_zero(pre, card_value(c));
            }
            let ghost groups_old = groups@;
            let ghost cur_old = cur@;
            groups.push(cur);
            cur = Vec::new();
            cur.push(c);
            proof {
                broadcast use Seq::lemma_flatten_push;

                assert(group_views(groups@) =~= group_views(groups_old).push(cur_old));
                assert(group_views(groups@).flatten() == group_views(groups_old).flatten()
                    + cur_old);
                assert(cur@ =~= Seq::<Card>::empty().push(c));
                lemma_rcount_push(Seq::<Card>::empty(), c);
                assert(group_views(groups@).flatten() + cur@ =~= sorted@.subrange(0, i + 1));
                assert forall|v: int|
                    #[trigger] rcount(sorted@.subrange(0, i + 1), v) >= 1 implies run_rank(cur@)
                    == v || exists|g: int|
                    0 <= g < groups@.len() && run_rank((#[trigger] groups@[g])@) == v by {
                    if v != card_value(c) {
                        assert(rcount(pre, v) >= 1);
                        if run_rank(cur_old) == v {
                            assert(groups@[groups_old.len() as int]@ == cur_old);
                            assert(run_rank((groups@[groups_old.len() as int])@) == v);
                        } else {
                            let g = choose|g: int|
                                0 <= g < groups_old.len() && run_rank(
                                    (#[trigger] groups_old[g])@,
                                ) == v;
                            assert(run_rank((groups@[g])@) == v);
                        }
                    }
                }
            }
        }
        i = i + 1;
    }
    let ghost groups_old = groups@;
    let ghost cur_old = cur@;
    groups.push(cur);
    proof {
        broadcast use Seq::lemma_flatten_push;

        assert(sorted@.subrange(0, sorted@.len() as int) =~= sorted@);
        assert(group_views(groups@) =~= group_views(groups_old).push(cur_old));
        assert(group_views(groups@).flatten() == group_views(groups_old).flatten() + cur_old);
        assert(group_views(groups@).flatten() =~= sorted@);
        assert forall|v: int| #[trigger] rcount(sorted@, v) >= 1 implies exists|g: int|
            0 <= g < groups@.len() && run_rank((#[trigger] groups@[g])@) == v by {
            assert(rcount(sorted@.subrange(0, sorted@.len() as int), v) >= 1);
            if run_rank(cur_old) == v {
                assert(groups@[groups_old.len() as int]@ == cur_old);
                assert(run_rank((groups@[groups_old.len() as int])@) == v);
            } else {
                let g = choose|g: int|
                    0 <= g < groups_old.len() && run_rank((#[trigger] groups_old[g])@) == v;
                assert(run_rank((groups@[g])@) == v);
            }
        }
    }
    groups
}

/// Copies the cards of one group into an owned vector.
fn copy_group(groups: &Vec<Vec<Card>>, g: usize) -> (run: Vec<Card>)
    requires
        g < groups@.len(),
    ensures
        run@ == groups@[g as int]@,
{
    let mut run: Vec<Card> = Vec::new();
    let mut t: usize = 0;
    while t < groups[g].len()
        invariant
            g < groups@.len(),
            t <= groups@[g as int]@.len(),
            run@ == groups@[g as int]@.subrange(0, t as int),
        decreases groups@[g as int]@.len() - t,
    {
        run.push(groups[g][t]);
        proof {
            assert(run@ =~= groups@[g as int]@.subrange(0, t + 1));
        }
        t = t + 1;
    }
    proof {
        assert(groups@[g as int]@.subrange(0, groups@[g as int]@.len() as int) =~= groups@[
            g as int
        ]@);
    }
    run
}

/// Splits the rank groups of the card sequence `s` into the groups of size
/// two or more (in ascending rank order) and the singleton cards (in
/// ascending rank order); together they hold exactly the cards of `s`.
#[verifier::rlimit(50)]
fn split_groups(groups: &Vec<Vec<Card>>, Ghost(s): Ghost<Seq<Card>>) -> (res: (
    Vec<Vec<Card>>,
    Vec<Card>,
))
    requires
        group_views(groups@).flatten() == s,
        forall|g: int| 0 <= g < groups@.len() ==> (#[trigger] groups@[g])@.len() >= 1,
        forall|g: int| 0 <= g < groups@.len() ==> uniform_run((#[trigger] groups@[g])@),
        forall|g: int|
            0 <= g < groups@.len() ==> (#[trigger] groups@[g])@.len() == rcount(
                s,
                run_rank(groups@[g]@),
            ),
        forall|g: int, h: int|
            0 <= g < h < groups@.len() ==> run_rank((#[trigger] groups@[g])@) < run_rank(
                (#[trigger] groups@[h])@,
            ),
        forall|v: int|
            #[trigger] rcount(s, v) >= 2 ==> exists|g: int|
                0 <= g < groups@.len() && run_rank((#[trigger] groups@[g])@) == v,
        forall|v: int|
            #[trigger] rcount(s, v) == 1 ==> exists|g: int|
                0 <= g < groups@.len() && run_rank((#[trigger] groups@[g])@) == v,
    ensures
        forall|b: int| 0 <= b < res.0@.len() ==> (#[trigger] res.0@[b])@.len() >= 2,
        forall|b: int| 0 <= b < res.0@.len() ==> uniform_run((#[trigger] res.0@[b])@),
        forall|b: int|
            0 <= b < res.0@.len() ==> (#[trigger] res.0@[b])@.len() == rcount(
                s,
                run_rank(res.0@[b]@),
            ),
        forall|b: int, c: int|
            0 <= b < c < res.0@.len() ==> run_rank((#[trigger] res.0@[b])@) < run_rank(
                (#[trigger] res.0@[c])@,
            ),
        forall|v: int|
            #[trigger] rcount(s, v) >= 2 ==> exists|b: int|
                0 <= b < res.0@.len() && run_rank((#[trigger] res.0@[b])@) == v,
        forall|k: int| 0 <= k < res.1@.len() ==> rcount(s, card_value(#[trigger] res.1@[k])) == 1,
        forall|v: int|
            #[trigger] rcount(s, v) == 1 ==> exists|k: int|
                0 <= k < res.1@.len() && card_value(#[trigger] res.1@[k]) == v,
        forall|k: int, l: int|
            0 <= k < l < res.1@.len() ==> card_value(#[trigger] res.1@[k]) < card_value(
                #[trigger] res.1@[l],
            ),
        group_views(res.0@).flatten().to_multiset().add(res.1@.to_multiset()) == s.to_multiset(),
{
    let mut bigs: Vec<Vec<Card>> = Vec::new();
    let mut ks: Vec<Card> = Vec::new();
    let mut g: usize = 0;
    proof {
        broadcast use vstd::seq_lib::group_to_multiset_ensures;
        broadcast use vstd::multiset::group_multiset_axioms;

        assert(group_views(groups@).subrange(0, 0) =~= Seq::<Seq<Card>>::empty());
        assert(Seq::<Seq<Card>>::empty().flatten() =~= Seq::<Card>::empty());
        assert(group_views(bigs@).flatten() =~= Seq::<Card>::empty());
        assert forall|c: Card| Seq::<Card>::empty().to_multiset().count(c) == 0 by {
            assert(!Seq::<Card>::empty().contains(c));
        }
        assert(group_views(bigs@).flatten().to_multiset().add(ks@.to_multiset())
            =~= group_views(groups@).subrange(0, 0).flatten().to_multiset());
    }
    while g < groups.len()
        invariant
            g <= groups@.len(),
            group_views(groups@).flatten() == s,
            forall|t: int| 0 <= t < groups@.len() ==> (#[trigger] groups@[t])@.len() >= 1,
            forall|t: int| 0 <= t < groups@.len() ==> uniform_run((#[trigger] groups@[t])@),
            forall|t: int|
                0 <= t < groups@.len() ==> (#[trigger] groups@[t])@.len() == rcount(
                    s,
                    run_rank(groups@[t]@),
                ),
            forall|t: int, h: int|
                0 <= t < h < groups@.len() ==> run_rank((#[trigger] groups@[t])@) < run_rank(
                    (#[trigger] groups@[h])@,
                ),
            forall|b: int| 0 <= b < bigs@.len() ==> (#[trigger] bigs@[b])@.len() >= 2,
            forall|b: int| 0 <= b < bigs@.len() ==> uniform_run((#[trigger] bigs@[b])@),
            forall|b: int|
                0 <= b < bigs@.len() ==> (#[trigger] bigs@[b])@.len() == rcount(
                    s,
                    run_rank(bigs@[b]@),
                ),
            forall|b: int, c: int|
                0 <= b < c < bigs@.len() ==> run_rank((#[trigger] bigs@[b])@) < run_rank(
                    (#[trigger] bigs@[c])@,
                ),
            forall|b: int, h: int|
                0 <= b < bigs@.len() && g <= h < groups@.len() ==> run_rank(
                    (#[trigger] bigs@[b])@,
                ) < run_rank((#[trigger] groups@[h])@),
            forall|k: int| 0 <= k < ks@.len() ==> rcount(s, card_value(#[trigger] ks@[k])) == 1,
            forall|k: int, l: int|
                0 <= k < l < ks@.len() ==> card_value(#[trigger] ks@[k]) < card_value(
                    #[trigger] ks@[l],
                ),
            forall|k: int, h: int|
                0 <= k < ks@.len() && g <= h < groups@.len() ==> card_value(#[trigger] ks@[k])
                    < run_rank((#[trigger] groups@[h])@),
            forall|t: int|
                0 <= t < g ==> ((#[trigger] groups@[t])@.len() >= 2 ==> exists|b: int|
                    0 <= b < bigs@.len() && run_rank((#[trigger] bigs@[b])@) == run_rank(
                        groups@[t]@,
                    )),
            forall|t: int|
                0 <= t < g ==> ((#[trigger] groups@[t])@.len() == 1 ==> exists|k: int|
                    0 <= k < ks@.len() && card_value(#[trigger] ks@[k]) == run_rank(groups@[t]@)),
            group_views(bigs@).flatten().to_multiset().add(ks@.to_multiset()) == group_views(
                groups@,
            ).subrange(0, g as int).flatten().to_multiset(),
        decreases groups@.len() - g,
    {
        let ghost bigs_old = bigs@;
        let ghost ks_old = ks@;
        let ghost done = group_views(groups@).subrange(0, g as int);
        proof {
            broadcast use Seq::lemma_flatten_push;
            broadcast use vstd::seq_lib::group_to_multiset_ensures;
            broadcast use vstd::multiset::group_multiset_axioms;

            assert(group_views(groups@).subrange(0, g + 1) =~= done.push(groups@[g as int]@));
            assert(group_views(groups@).subrange(0, g + 1).flatten() == done.flatten() + groups@[
                g as int
            ]@);
            vstd::seq_lib::lemma_multiset_commutative(done.flatten(), groups@[g as int]@);
        }
        if groups[g].len() >= 2 {
            let run = copy_group(groups, g);
            bigs.push(run);
            proof {
                broadcast use Seq::lemma_flatten_push;

                assert(group_views(bigs@) =~= group_views(bigs_old).push(groups@[g as int]@));
                assert(group_views(bigs@).flatten() == group_views(bigs_old).flatten() + groups@[
                    g as int
                ]@);
                vstd::seq_lib::lemma_multiset_commutative(
                    group_views(bigs_old).flatten(),
                    groups@[g as int]@,
                );
                broadcast use vstd::multiset::group_multiset_axioms;

                assert(group_views(bigs@).flatten().to_multiset().add(ks@.to_multiset())
                    =~= group_views(groups@).subrange(0, g + 1).flatten().to_multiset());
                assert forall|t: int|
                    0 <= t < g + 1 implies ((#[trigger] groups@[t])@.len() >= 2 ==> exists|b: int|
                    0 <= b < bigs@.len() && run_rank((#[trigger] bigs@[b])@) == run_rank(
                        groups@[t]@,
                    )) by {
                    if t == g {
                        assert(bigs@[bigs_old.len() as int]@ == groups@[g as int]@);
                        assert(run_rank((bigs@[bigs_old.len() as int])@) == run_rank(
                            groups@[t]@,
                        ));
                    } else if groups@[t]@.len() >= 2 {
                        let b = choose|b: int|
                            0 <= b < bigs_old.len() && run_rank((#[trigger] bigs_old[b])@)
                                == run_rank(groups@[t]@);
                        assert(run_rank((bigs@[b])@) == run_rank(groups@[t]@));
                    }
                }
            }
        } else {
            let card = groups[g][0];
            ks.push(card);
            proof {
                broadcast use vstd::seq_lib::group_to_multiset_ensures;
                broadcast use vstd::multiset::group_multiset_axioms;

                assert(card_value(card) == run_rank(groups@[g as int]@));
                assert(groups@[g as int]@ =~= Seq::<Card>::empty().push(card));
                assert(groups@[g as int]@.to_multiset() =~= Multiset::<Card>::empty().insert(
                    card,
                ));
                assert(ks@.to_multiset() == ks_old.to_multiset().insert(card));
                assert(group_views(bigs@).flatten().to_multiset().add(ks@.to_multiset())
                    =~= group_views(groups@).subrange(0, g + 1).flatten().to_multiset());
                assert forall|t: int|
                    0 <= t < g + 1 implies ((#[trigger] groups@[t])@.len() == 1 ==> exists|k: int|
                    0 <= k < ks@.len() && card_value(#[trigger] ks@[k]) == run_rank(
                        groups@[t]@,
                    )) by {
                    if t == g {
                        assert(ks@[ks_old.len() as int] == card);
                        assert(card_value(ks@[ks_old.len() as int]) == run_rank(groups@[t]@));
                    } else if groups@[t]@.len() == 1 {
                        let k = choose|k: int|
                            0 <= k < ks_old.len() && card_value(#[trigger] ks_old[k]) == run_rank(
                                groups@[t]@,
                            );
                        assert(card_value(ks@[k]) == run_rank(groups@[t]@));
                    }
                }
            }
        }
        g = g + 1;
    }
    let res = (bigs, ks);
    proof {
        assert(group_views(groups@).subrange(0, groups@.len() as int) =~= group_views(groups@));
        assert forall|v: int| #[trigger] rcount(s, v) >= 2 implies exists|b: int|
            0 <= b < res.0@.len() && run_rank((#[trigger] res.0@[b])@) == v by {
            let t = choose|t: int|
                0 <= t < groups@.len() && run_rank((#[trigger] groups@[t])@) == v;
            assert(groups@[t]@.len() == rcount(s, v));
            let b = choose|b: int|
                0 <= b < res.0@.len() && run_rank((#[trigger] res.0@[b])@) == run_rank(
                    groups@[t]@,
                );
            assert(run_rank(res.0@[b]@) == v);
        }
        assert forall|v: int| #[trigger] rcount(s, v) == 1 implies exists|k: int|
            0 <= k < res.1@.len() && card_value(#[trigger] res.1@[k]) == v by {
            let t = choose|t: int|
                0 <= t < groups@.len() && run_rank((#[trigger] groups@[t])@) == v;
            assert(groups@[t]@.len() == rcount(s, v));
            let k = choose|k: int|
                0 <= k < res.1@.len() && card_value(#[trigger] res.1@[k]) == run_rank(
                    groups@[t]@,
                );
            assert(card_value(res.1@[k]) == v);
        }
        assert(group_views(res.0@).flatten().to_multiset().add(res.1@.to_multiset())
            == s.to_multiset());
    }
    res
}

/// Every card's aces-high value lies between 2 and 14.
pub proof fn lemma_card_value_range()
    ensures
        forall|c: Card| 2 <= #[trigger] card_value(c) <= 14,
{
}

/// In a sorted five-card sequence where the five values from `lo` up each
/// appear once, position `p` holds the value `lo + p`.
proof fn lemma_straight_window(s: Seq<Card>, lo: int)
    requires
        s.len() == 5,
        sorted_by_rank(s),
        straight_from(s, lo),
    ensures
        forall|p: int| 0 <= p < 5 ==> card_value(#[trigger] s[p]) == lo + p,
{
    lemma_rcount_unfold5(s);
    let c0 = card_value(s[0]);
    let c1 = card_value(s[1]);
    let c2 = card_value(s[2]);
    let c3 = card_value(s[3]);
    let c4 = card_value(s[4]);
    assert(rcount(s, lo) == 1);
    assert(rcount(s, lo + 1) == 1);
    assert(rcount(s, lo + 2) == 1);
    assert(rcount(s, lo + 3) == 1);
    assert(rcount(s, lo + 4) == 1);
    assert(c0 <= c1 && c1 <= c2 && c2 <= c3 && c3 <= c4);
    assert(lo <= c0 <= lo + 4);
    assert(lo <= c1 <= lo + 4);
    assert(lo <= c2 <= lo + 4);
    assert(lo <= c3 <= lo + 4);
    assert(lo <= c4 <= lo + 4);
    assert(c0 < c1) by {
        if c0 == c1 {
            assert(rcount(s, c0) >= 2);
        }
    }
    assert(c1 < c2) by {
        if c1 == c2 {
            assert(rcount(s, c1) >= 2);
        }
    }
    assert(c2 < c3) by {
        if c2 == c3 {
            assert(rcount(s, c2) >= 2);
        }
    }
    assert(c3 < c4) by {
        if c3 == c4 {
            assert(rcount(s, c3) >= 2);
        }
    }
    assert(c0 == lo && c1 == lo + 1 && c2 == lo + 2 && c3 == lo + 3 && c4 == lo + 4);
}

/// A sorted five-card five-high straight reads two, three, four, five, ace.
proof fn lemma_five_high_window(s: Seq<Card>)
    requires
        s.len() == 5,
        sorted_by_rank(s),
        is_five_high(s),
    ensures
        card_value(s[0]) == 2,
        card_value(s[1]) == 3,
        card_value(s[2]) == 4,
        card_value(s[3]) == 5,
        card_value(s[4]) == 14,
{
    lemma_rcount_unfold5(s);
    lemma_card_value_range();
    let c0 = card_value(s[0]);
    let c1 = card_value(s[1]);
    let c2 = card_value(s[2]);
    let c3 = card_value(s[3]);
    let c4 = card_value(s[4]);
    assert(c0 <= c1 && c1 <= c2 && c2 <= c3 && c3 <= c4);
    assert(rcount(s, 2) == 1 && rcount(s, 3) == 1 && rcount(s, 4) == 1 && rcount(s, 5) == 1
        && rcount(s, 14) == 1);
    assert(c0 == 2 || c0 == 3 || c0 == 4 || c0 == 5 || c0 == 14) by {
        if c0 != 2 && c0 != 3 && c0 != 4 && c0 != 5 && c0 != 14 {
            assert(rcount(s, 2) + rcount(s, 3) + rcount(s, 4) + rcount(s, 5) + rcount(s, 14) <= 4);
        }
    }
    assert(c1 == 2 || c1 == 3 || c1 == 4 || c1 == 5 || c1 == 14) by {
        if c1 != 2 && c1 != 3 && c1 != 4 && c1 != 5 && c1 != 14 {
            assert(rcount(s, 2) + rcount(s, 3) + rcount(s, 4) + rcount(s, 5) + rcount(s, 14) <= 4);
        }
    }
    assert(c2 == 2 || c2 == 3 || c2 == 4 || c2 == 5 || c2 == 14) by {
        if c2 != 2 && c2 != 3 && c2 != 4 && c2 != 5 && c2 != 14 {
            assert(rcount(s, 2) + rcount(s, 3) + rcount(s, 4) + rcount(s, 5) + rcount(s, 14) <= 4);
        }
    }
    assert(c3 == 2 || c3 == 3 || c3 == 4 || c3 == 5 || c3 == 14) by {
        if c3 != 2 && c3 != 3 && c3 != 4 && c3 != 5 && c3 != 14 {
            assert(rcount(s, 2) + rcount(s, 3) + rcount(s, 4) + rcount(s, 5) + rcount(s, 14) <= 4);
        }
    }
    assert(c4 == 2 || c4 == 3 || c4 == 4 || c4 == 5 || c4 == 14) by {
        if c4 != 2 && c4 != 3 && c4 != 4 && c4 != 5 && c4 != 14 {
            assert(rcount(s, 2) + rcount(s, 3) + rcount(s, 4) + rcount(s, 5) + rcount(s, 14) <= 4);
        }
    }
    assert(c0 < c1) by {
        if c0 == c1 {
            assert(rcount(s, c0) >= 2);
        }
    }
    assert(c1 < c2) by {
        if c1 == c2 {
            assert(rcount(s, c1) >= 2);
        }
    }
    assert(c2 < c3) by {
        if c2 == c3 {
            assert(rcount(s, c2) >= 2);
        }
    }
    assert(c3 < c4) by {
        if c3 == c4 {
            assert(rcount(s, c3) >= 2);
        }
    }
}

/// Transfers the shared-suit property across sequences with equal multisets.
proof fn lemma_same_suit_transfer(s1: Seq<Card>, s2: Seq<Card>)
    requires
        s1.to_multiset() == s2.to_multiset(),
        all_same_suit(s1),
    ensures
        all_same_suit(s2),
{
    broadcast use vstd::seq_lib::group_to_multiset_ensures;

    assert forall|i: int, j: int|
        0 <= i < s2.len() && 0 <= j < s2.len() implies (#[trigger] s2[i]).suit == (
    #[trigger] s2[j]).suit by {
        assert(s2.contains(s2[i]));
        assert(s2.contains(s2[j]));
        assert(s1.to_multiset().count(s2[i]) > 0);
        assert(s1.to_multiset().count(s2[j]) > 0);
        assert(s1.contains(s2[i]));
        assert(s1.contains(s2[j]));
        let a = choose|a: int| 0 <= a < s1.len() && s1[a] == s2[i];
        let b = choose|b: int| 0 <= b < s1.len() && s1[b] == s2[j];
        assert(s1[a].suit == s1[b].suit);
    }
}

/// Law: the category of a hand, and whether it is the five-high straight,
/// depend only on the multiset of its cards -- any permutation of the same
/// five cards classifies identically.
pub proof fn lemma_ranking_multiset_invariant(s1: Seq<Card>, s2: Seq<Card>)
    requires
        s1.to_multiset() == s2.to_multiset(),
    ensures
        ranking_of(s1) == ranking_of(s2),
        is_five_high(s1) == is_five_high(s2),
{
    lemma_equal_multiset_equal_rcount(s1, s2);
    if all_same_suit(s1) {
        lemma_same_suit_transfer(s1, s2);
    }
    if all_same_suit(s2) {
        lemma_same_suit_transfer(s2, s1);
    }
    assert forall|n: int| #[trigger] has_count(s1, n) == has_count(s2, n) by {
        if has_count(s1, n) {
            let v = choose|v: int| #[trigger] rcount(s1, v) == n;
            assert(rcount(s2, v) == n);
        }
        if has_count(s2, n) {
            let v = choose|v: int| #[trigger] rcount(s2, v) == n;
            assert(rcount(s1, v) == n);
        }
    }
    assert(has_two_pairs(s1) == has_two_pairs(s2)) by {
        if has_two_pairs(s1) {
            let (v, w) = choose|v: int, w: int|
                v != w && #[trigger] rcount(s1, v) == 2 && #[trigger] rcount(s1, w) == 2;
            assert(rcount(s2, v) == 2 && rcount(s2, w) == 2);
        }
        if has_two_pairs(s2) {
            let (v, w) = choose|v: int, w: int|
                v != w && #[trigger] rcount(s2, v) == 2 && #[trigger] rcount(s2, w) == 2;
            assert(rcount(s1, v) == 2 && rcount(s1, w) == 2);
        }
    }
    assert forall|lo: int| #[trigger] straight_from(s1, lo) == straight_from(s2, lo) by {
        if straight_from(s1, lo) {
            assert forall|v: int| lo <= v < lo + 5 implies #[trigger] rcount(s2, v) == 1 by {
                assert(rcount(s1, v) == 1);
            }
        }
        if straight_from(s2, lo) {
            assert forall|v: int| lo <= v < lo + 5 implies #[trigger] rcount(s1, v) == 1 by {
                assert(rcount(s2, v) == 1);
            }
        }
    }
    assert(is_standard_straight(s1) == is_standard_straight(s2)) by {
        if is_standard_straight(s1) {
            let lo = choose|lo: int| 2 <= lo <= 10 && #[trigger] straight_from(s1, lo);
            assert(straight_from(s2, lo));
        }
        if is_standard_straight(s2) {
            let lo = choose|lo: int| 2 <= lo <= 10 && #[trigger] straight_from(s2, lo);
            assert(straight_from(s1, lo));
        }
    }
    assert(is_royal(s1) == is_royal(s2)) by {
        assert(straight_from(s1, 10) == straight_from(s2, 10));
    }
}

/// The ordering of two integers.
pub open spec fn ord_of(a: int, b: int) -> core::cmp::Ordering {
    if a < b {
        core::cmp::Ordering::Less
    } else if a == b {
        core::cmp::Ordering::Equal
    } else {
        core::cmp::Ordering::Greater
    }
}

/// The mirror image of an ordering.
pub open spec fn ord_flip(o: core::cmp::Ordering) -> core::cmp::Ordering {
    match o {
        core::cmp::Ordering::Less => core::cmp::Ordering::Greater,
        core::cmp::Ordering::Equal => core::cmp::Ordering::Equal,
        core::cmp::Ordering::Greater => core::cmp::Ordering::Less,
    }
}

/// Lexicographic ordering of two integer sequences; a strict prefix orders
/// below its extensions.
pub open spec fn lex_vals(x: Seq<int>, y: Seq<int>) -> core::cmp::Ordering
    decreases x.len(),
{
    if x.len() == 0 && y.len() == 0 {
        core::cmp::Ordering::Equal
    } else if x.len() == 0 {
        core::cmp::Ordering::Less
    } else if y.len() == 0 {
        core::cmp::Ordering::Greater
    } else if x[0] < y[0] {
        core::cmp::Ordering::Less
    } else if x[0] > y[0] {
        core::cmp::Ordering::Greater
    } else {
        lex_vals(x.drop_first(), y.drop_first())
    }
}

/// Lexicographic ordering of two sequences of integer sequences, comparing
/// elements lexicographically in turn.
pub open spec fn lex_runs(x: Seq<Seq<int>>, y: Seq<Seq<int>>) -> core::cmp::Ordering
    decreases x.len(),
{
    if x.len() == 0 && y.len() == 0 {
        core::cmp::Ordering::Equal
    } else if x.len() == 0 {
        core::cmp::Ordering::Less
    } else if y.len() == 0 {
        core::cmp::Ordering::Greater
    } else if lex_vals(x[0], y[0]) != core::cmp::Ordering::Equal {
        lex_vals(x[0], y[0])
    } else {
        lex_runs(x.drop_first(), y.drop_first())
    }
}

/// The rank values of each run of a hand.
pub open spec fn run_vals(rs: Seq<Seq<Card>>) -> Seq<Seq<int>> {
    rs.map_values(|r: Seq<Card>| r.map_values(|c: Card| card_value(c)))
}

/// The rank values of the kickers.
pub open spec fn kicker_vals(ks: Seq<Card>) -> Seq<int> {
    ks.map_values(|c: Card| card_value(c))
}

/// The values the kickers compare by: aces high, except that the five-high
/// straight's kicker pattern (ace leading, two through five after) compares
/// with the ace low, so a five-high straight orders below every other
/// straight.
pub open spec fn kicker_cmp_vals(ks: Seq<Card>) -> Seq<int> {
    if kicker_vals(ks) == seq![14int, 2int, 3int, 4int, 5int] {
        seq![1int, 2int, 3int, 4int, 5int]
    } else {
        kicker_vals(ks)
    }
}

/// The total order on hands: by category ordinal first, then
/// lexicographically by runs, then by kickers. It is the pullback of a
/// lexicographic order along a key function of the hand's value, so it is
/// total, antisymmetric and transitive.
pub open spec fn hand_cmp(a: HandView, b: HandView) -> core::cmp::Ordering {
    if ord_of(ranking_value(a.ranking), ranking_value(b.ranking)) != core::cmp::Ordering::Equal {
        ord_of(ranking_value(a.ranking), ranking_value(b.ranking))
    } else if lex_runs(run_vals(a.runs), run_vals(b.runs)) != core::cmp::Ordering::Equal {
        lex_runs(run_vals(a.runs), run_vals(b.runs))
    } else {
        lex_vals(kicker_cmp_vals(a.kickers), kicker_cmp_vals(b.kickers))
    }
}

/// Comparing sequences with equal prefixes reduces to comparing the rests.
proof fn lemma_lex_vals_skip(x: Seq<int>, y: Seq<int>, i: int)
    requires
        0 <= i <= x.len(),
        i <= y.len(),
        forall|j: int| 0 <= j < i ==> x[j] == y[j],
    ensures
        lex_vals(x, y) == lex_vals(x.skip(i), y.skip(i)),
    decreases i,
{
    if i == 0 {
        assert(x.skip(0) =~= x);
        assert(y.skip(0) =~= y);
    } else {
        assert(x[0] == y[0]);
        assert(lex_vals(x, y) == lex_vals(x.drop_first(), y.drop_first()));
        assert forall|j: int| 0 <= j < i - 1 implies x.drop_first()[j] == y.drop_first()[j] by {
            assert(x.drop_first()[j] == x[j + 1]);
            assert(y.drop_first()[j] == y[j + 1]);
        }
        lemma_lex_vals_skip(x.drop_first(), y.drop_first(), i - 1);
        assert(x.drop_first().skip(i - 1) =~= x.skip(i));
        assert(y.drop_first().skip(i - 1) =~= y.skip(i));
    }
}

/// Comparing run lists whose first elements compare equal reduces to
/// comparing the rests.
proof fn lemma_lex_runs_skip(x: Seq<Seq<int>>, y: Seq<Seq<int>>, i: int)
    requires
        0 <= i <= x.len(),
        i <= y.len(),
        forall|j: int|
            0 <= j < i ==> lex_vals(#[trigger] x[j], y[j]) == core::cmp::Ordering::Equal,
    ensures
        lex_runs(x, y) == lex_runs(x.skip(i), y.skip(i)),
    decreases i,
{
    if i == 0 {
        assert(x.skip(0) =~= x);
        assert(y.skip(0) =~= y);
    } else {
        assert(lex_vals(x[0], y[0]) == core::cmp::Ordering::Equal);
        assert(lex_runs(x, y) == lex_runs(x.drop_first(), y.drop_first()));
        assert forall|j: int|
            0 <= j < i - 1 implies lex_vals(#[trigger] x.drop_first()[j], y.drop_first()[j])
            == core::cmp::Ordering::Equal by {
            assert(x.drop_first()[j] == x[j + 1]);
            assert(y.drop_first()[j] == y[j + 1]);
        }
        lemma_lex_runs_skip(x.drop_first(), y.drop_first(), i - 1);
        assert(x.drop_first().skip(i - 1) =~= x.skip(i));
        assert(y.drop_first().skip(i - 1) =~= y.skip(i));
    }
}

/// Reversing the arguments mirrors the lexicographic ordering.
proof fn lemma_lex_vals_flip(x: Seq<int>, y: Seq<int>)
    ensures
        lex_vals(y, x) == ord_flip(lex_vals(x, y)),
    decreases x.len(),
{
    if x.len() > 0 && y.len() > 0 && x[0] == y[0] {
        lemma_lex_vals_flip(x.drop_first(), y.drop_first());
    }
}

/// Sequences that compare equal are equal.
proof fn lemma_lex_vals_equal(x: Seq<int>, y: Seq<int>)
    requires
        lex_vals(x, y) == core::cmp::Ordering::Equal,
    ensures
        x == y,
    decreases x.len(),
{
    if x.len() > 0 && y.len() > 0 && x[0] == y[0] {
        lemma_lex_vals_equal(x.drop_first(), y.drop_first());
        assert(x =~= y) by {
            assert(forall|j: int|
                1 <= j < x.len() ==> x[j] == x.drop_first()[j - 1] && y[j] == y.drop_first()[j
                    - 1]);
        }
    }
}

/// The lexicographic ordering of integer sequences is transitive.
proof fn lemma_lex_vals_trans(x: Seq<int>, y: Seq<int>, z: Seq<int>)
    requires
        lex_vals(x, y) == core::cmp::Ordering::Less,
        lex_vals(y, z) == core::cmp::Ordering::Less,
    ensures
        lex_vals(x, z) == core::cmp::Ordering::Less,
    decreases x.len(),
{
    if x.len() == 0 {
    } else {
        assert(y.len() > 0);
        assert(z.len() > 0);
        if x[0] == y[0] && y[0] == z[0] {
            lemma_lex_vals_trans(x.drop_first(), y.drop_first(), z.drop_first());
        }
    }
}

/// Reversing the arguments mirrors the run-list ordering.
proof fn lemma_lex_runs_flip(x: Seq<Seq<int>>, y: Seq<Seq<int>>)
    ensures
        lex_runs(y, x) == ord_flip(lex_runs(x, y)),
    decreases x.len(),
{
    if x.len() > 0 && y.len() > 0 {
        lemma_lex_vals_flip(x[0], y[0]);
        if lex_vals(x[0], y[0]) == core::cmp::Ordering::Equal {
            lemma_lex_runs_flip(x.drop_first(), y.drop_first());
        }
    }
}

/// Run lists that compare equal are equal.
proof fn lemma_lex_runs_equal(x: Seq<Seq<int>>, y: Seq<Seq<int>>)
    requires
        lex_runs(x, y) == core::cmp::Ordering::Equal,
    ensures
        x =~~= y,
    decreases x.len(),
{
    if x.len() > 0 && y.len() > 0 && lex_vals(x[0], y[0]) == core::cmp::Ordering::Equal {
        lemma_lex_vals_equal(x[0], y[0]);
        lemma_lex_runs_equal(x.drop_first(), y.drop_first());
        assert(forall|j: int|
            1 <= j < x.len() ==> x[j] == x.drop_first()[j - 1] && y[j] == y.drop_first()[j - 1]);
    }
}

/// The run-list ordering is transitive.
proof fn lemma_lex_runs_trans(x: Seq<Seq<int>>, y: Seq<Seq<int>>, z: Seq<Seq<int>>)
    requires
        lex_runs(x, y) == core::cmp::Ordering::Less,
        lex_runs(y, z) == core::cmp::Ordering::Less,
    ensures
        lex_runs(x, z) == core::cmp::Ordering::Less,
    decreases x.len(),
{
    if x.len() == 0 {
    } else {
        assert(y.len() > 0);
        assert(z.len() > 0);
        let oxy = lex_vals(x[0], y[0]);
        let oyz = lex_vals(y[0], z[0]);
        if oxy == core::cmp::Ordering::Equal {
            lemma_lex_vals_equal(x[0], y[0]);
            if oyz == core::cmp::Ordering::Equal {
                lemma_lex_runs_trans(x.drop_first(), y.drop_first(), z.drop_first());
            }
        } else {
            if oyz == core::cmp::Ordering::Equal {
                lemma_lex_vals_equal(y[0], z[0]);
            } else {
                lemma_lex_vals_trans(x[0], y[0], z[0]);
            }
        }
    }
}

/// Law: the hand order is antisymmetric, so for two hands exactly one of
/// "less", "equal" and "greater" holds: comparison yields one of the three,
/// and swapping the hands mirrors it.
pub proof fn lemma_hand_order_trichotomy(a: HandView, b: HandView)
    ensures
        hand_cmp(a, b) == core::cmp::Ordering::Less || hand_cmp(a, b)
            == core::cmp::Ordering::Equal || hand_cmp(a, b) == core::cmp::Ordering::Greater,
        hand_cmp(b, a) == ord_flip(hand_cmp(a, b)),
{
    lemma_lex_runs_flip(run_vals(a.runs), run_vals(b.runs));
    lemma_lex_vals_flip(kicker_cmp_vals(a.kickers), kicker_cmp_vals(b.kickers));
}

/// Law: the hand order is transitive.
pub proof fn lemma_hand_order_transitive(a: HandView, b: HandView, c: HandView)
    requires
        hand_cmp(a, b) == core::cmp::Ordering::Less,
        hand_cmp(b, c) == core::cmp::Ordering::Less,
    ensures
        hand_cmp(a, c) == core::cmp::Ordering::Less,
{
    let rab = ord_of(ranking_value(a.ranking), ranking_value(b.ranking));
    let rbc = ord_of(ranking_value(b.ranking), ranking_value(c.ranking));
    if rab == core::cmp::Ordering::Equal && rbc == core::cmp::Ordering::Equal {
        assert(ranking_value(a.ranking) == ranking_value(c.ranking));
        let uab = lex_runs(run_vals(a.runs), run_vals(b.runs));
        let ubc = lex_runs(run_vals(b.runs), run_vals(c.runs));
        if uab == core::cmp::Ordering::Equal && ubc == core::cmp::Ordering::Equal {
            assert(lex_vals(kicker_cmp_vals(a.kickers), kicker_cmp_vals(b.kickers))
                == core::cmp::Ordering::Less);
            assert(lex_vals(kicker_cmp_vals(b.kickers), kicker_cmp_vals(c.kickers))
                == core::cmp::Ordering::Less);
            lemma_lex_vals_trans(
                kicker_cmp_vals(a.kickers),
                kicker_cmp_vals(b.kickers),
                kicker_cmp_vals(c.kickers),
            );
            lemma_lex_runs_equal(run_vals(a.runs), run_vals(b.runs));
            assert(run_vals(a.runs) == run_vals(b.runs));
            assert(lex_runs(run_vals(a.runs), run_vals(c.runs)) == core::cmp::Ordering::Equal);
        } else if uab == core::cmp::Ordering::Equal {
            assert(ubc == core::cmp::Ordering::Less);
            lemma_lex_runs_equal(run_vals(a.runs), run_vals(b.runs));
            assert(run_vals(a.runs) == run_vals(b.runs));
            assert(lex_runs(run_vals(a.runs), run_vals(c.runs)) == core::cmp::Ordering::Less);
        } else if ubc == core::cmp::Ordering::Equal {
            assert(uab == core::cmp::Ordering::Less);
            lemma_lex_runs_equal(run_vals(b.runs), run_vals(c.runs));
            assert(run_vals(b.runs) == run_vals(c.runs));
            assert(lex_runs(run_vals(a.runs), run_vals(c.runs)) == core::cmp::Ordering::Less);
        } else {
            assert(uab == core::cmp::Ordering::Less && ubc == core::cmp::Ordering::Less);
            lemma_lex_runs_trans(run_vals(a.runs), run_vals(b.runs), run_vals(c.runs));
        }
    } else if rab == core::cmp::Ordering::Equal {
        assert(rbc == core::cmp::Ordering::Less);
        assert(ranking_value(a.ranking) < ranking_value(c.ranking));
    } else if rbc == core::cmp::Ordering::Equal {
        assert(rab == core::cmp::Ordering::Less);
        assert(ranking_value(a.ranking) < ranking_value(c.ranking));
    } else {
        assert(rab == core::cmp::Ordering::Less && rbc == core::cmp::Ordering::Less);
        assert(ranking_value(a.ranking) < ranking_value(c.ranking));
    }
}

/// A sequence compares equal to itself.
proof fn lemma_lex_vals_refl(x: Seq<int>)
    ensures
        lex_vals(x, x) == core::cmp::Ordering::Equal,
    decreases x.len(),
{
    if x.len() > 0 {
        lemma_lex_vals_refl(x.drop_first());
    }
}

/// A run list compares equal to itself.
proof fn lemma_lex_runs_refl(x: Seq<Seq<int>>)
    ensures
        lex_runs(x, x) == core::cmp::Ordering::Equal,
    decreases x.len(),
{
    if x.len() > 0 {
        lemma_lex_vals_refl(x[0]);
        lemma_lex_runs_refl(x.drop_first());
    }
}

/// A five-card hand has at most two runs.
proof fn lemma_runs_len_le_2(s: Seq<Card>, rs: Seq<Seq<Card>>)
    requires
        s.len() == 5,
        runs_correct(s, rs),
    ensures
        rs.len() <= 2,
{
    if rs.len() >= 3 {
        lemma_rcount_unfold5(s);
        let r0 = run_rank(rs[0]);
        let r1 = run_rank(rs[1]);
        let r2 = run_rank(rs[2]);
        assert(rs[0].len() == rcount(s, r0));
        assert(rs[1].len() == rcount(s, r1));
        assert(rs[2].len() == rcount(s, r2));
        assert(run_key(rs[0]) > run_key(rs[1]) > run_key(rs[2]));
        assert(r0 != r1 && r1 != r2 && r0 != r2);
        assert(rcount(s, r0) >= 2 && rcount(s, r1) >= 2 && rcount(s, r2) >= 2);
        assert(false);
    }
}

/// There is only one correct run list over given cards, up to the cards'
/// suits: lengths and ranks agree position by position.
proof fn lemma_runs_unique(s: Seq<Card>, rs1: Seq<Seq<Card>>, rs2: Seq<Seq<Card>>)
    requires
        s.len() == 5,
        runs_correct(s, rs1),
        runs_correct(s, rs2),
    ensures
        rs1.len() == rs2.len(),
        forall|i: int|
            0 <= i < rs1.len() ==> (#[trigger] rs1[i]).len() == rs2[i].len() && run_rank(rs1[i])
                == run_rank(rs2[i]),
{
    lemma_runs_len_le_2(s, rs1);
    lemma_runs_len_le_2(s, rs2);
    if rs1.len() == 0 {
        if rs2.len() >= 1 {
            assert(rcount(s, run_rank(rs2[0])) == rs2[0].len());
            let i = choose|i: int|
                0 <= i < rs1.len() && run_rank(#[trigger] rs1[i]) == run_rank(rs2[0]);
            assert(false);
        }
    } else if rs2.len() == 0 {
        assert(rcount(s, run_rank(rs1[0])) == rs1[0].len());
        let i = choose|i: int|
            0 <= i < rs2.len() && run_rank(#[trigger] rs2[i]) == run_rank(rs1[0]);
        assert(false);
    } else if rs1.len() == 1 && rs2.len() == 1 {
        assert(rcount(s, run_rank(rs1[0])) == rs1[0].len() >= 2);
        let i = choose|i: int|
            0 <= i < rs2.len() && run_rank(#[trigger] rs2[i]) == run_rank(rs1[0]);
        assert(i == 0);
        assert(run_rank(rs2[0]) == run_rank(rs1[0]));
        assert(rs2[0].len() == rcount(s, run_rank(rs2[0])));
    } else if rs1.len() == 1 && rs2.len() == 2 {
        assert(run_key(rs2[0]) > run_key(rs2[1]));
        assert(run_rank(rs2[0]) != run_rank(rs2[1])) by {
            assert(rs2[0].len() == rcount(s, run_rank(rs2[0])));
            assert(rs2[1].len() == rcount(s, run_rank(rs2[1])));
        }
        assert(rcount(s, run_rank(rs2[0])) >= 2);
        assert(rcount(s, run_rank(rs2[1])) >= 2);
        let i0 = choose|i: int|
            0 <= i < rs1.len() && run_rank(#[trigger] rs1[i]) == run_rank(rs2[0]);
        let i1 = choose|i: int|
            0 <= i < rs1.len() && run_rank(#[trigger] rs1[i]) == run_rank(rs2[1]);
        assert(i0 == 0 && i1 == 0);
        assert(false);
    } else if rs1.len() == 2 && rs2.len() == 1 {
        assert(run_key(rs1[0]) > run_key(rs1[1]));
        assert(run_rank(rs1[0]) != run_rank(rs1[1])) by {
            assert(rs1[0].len() == rcount(s, run_rank(rs1[0])));
            assert(rs1[1].len() == rcount(s, run_rank(rs1[1])));
        }
        assert(rcount(s, run_rank(rs1[0])) >= 2);
        assert(rcount(s, run_rank(rs1[1])) >= 2);
        let i0 = choose|i: int|
            0 <= i < rs2.len() && run_rank(#[trigger] rs2[i]) == run_rank(rs1[0]);
        let i1 = choose|i: int|
            0 <= i < rs2.len() && run_rank(#[trigger] rs2[i]) == run_rank(rs1[1]);
        assert(i0 == 0 && i1 == 0);
        assert(false);
    } else {
        assert(rs1.len() == 2 && rs2.len() == 2);
        assert(rs1[0].len() == rcount(s, run_rank(rs1[0])));
        assert(rs1[1].len() == rcount(s, run_rank(rs1[1])));
        assert(rs2[0].len() == rcount(s, run_rank(rs2[0])));
        assert(rs2[1].len() == rcount(s, run_rank(rs2[1])));
        assert(run_rank(rs1[0]) != run_rank(rs1[1])) by {
            assert(run_key(rs1[0]) > run_key(rs1[1]));
        }
        assert(run_rank(rs2[0]) != run_rank(rs2[1])) by {
            assert(run_key(rs2[0]) > run_key(rs2[1]));
        }
        assert(rcount(s, run_rank(rs1[0])) >= 2 && rcount(s, run_rank(rs1[1])) >= 2);
        let j0 = choose|i: int|
            0 <= i < rs2.len() && run_rank(#[trigger] rs2[i]) == run_rank(rs1[0]);
        let j1 = choose|i: int|
            0 <= i < rs2.len() && run_rank(#[trigger] rs2[i]) == run_rank(rs1[1]);
        assert(j0 != j1);
        if j0 == 1 {
            assert(run_rank(rs2[1]) == run_rank(rs1[0]) && run_rank(rs2[0]) == run_rank(rs1[1]));
            assert(run_key(rs2[0]) == run_key(rs1[1]) && run_key(rs2[1]) == run_key(rs1[0]));
            assert(false);
        }
        assert(run_rank(rs2[0]) == run_rank(rs1[0]) && run_rank(rs2[1]) == run_rank(rs1[1]));
    }
}

/// Whether a value occurs in an integer sequence.
spec fn seq_has_val(s: Seq<int>, v: int) -> bool {
    exists|i: int| 0 <= i < s.len() && s[i] == v
}

/// Two strictly descending integer sequences with the same members are
/// equal.
#[verifier::rlimit(50)]
proof fn lemma_desc_vals_unique(xs: Seq<int>, ys: Seq<int>)
    requires
        forall|i: int, j: int| 0 <= i < j < xs.len() ==> xs[i] > xs[j],
        forall|i: int, j: int| 0 <= i < j < ys.len() ==> ys[i] > ys[j],
        forall|i: int| 0 <= i < xs.len() ==> #[trigger] seq_has_val(ys, xs[i]),
        forall|j: int| 0 <= j < ys.len() ==> #[trigger] seq_has_val(xs, ys[j]),
    ensures
        xs =~= ys,
    decreases xs.len(),
{
    if xs.len() == 0 {
        if ys.len() > 0 {
            assert(seq_has_val(xs, ys[0]));
            let i = choose|i: int| 0 <= i < xs.len() && xs[i] == ys[0];
            assert(false);
        }
    } else if ys.len() == 0 {
        assert(seq_has_val(ys, xs[0]));
        let j = choose|j: int| 0 <= j < ys.len() && ys[j] == xs[0];
        assert(false);
    } else {
        assert(xs[0] == ys[0]) by {
            assert(seq_has_val(ys, xs[0]));
            assert(seq_has_val(xs, ys[0]));
            let j = choose|j: int| 0 <= j < ys.len() && ys[j] == xs[0];
            let i = choose|i: int| 0 <= i < xs.len() && xs[i] == ys[0];
            assert(j > 0 ==> ys[0] > ys[j]);
            assert(i > 0 ==> xs[0] > xs[i]);
        }
        let xt = xs.drop_first();
        let yt = ys.drop_first();
        assert forall|i: int, j: int| 0 <= i < j < xt.len() implies xt[i] > xt[j] by {
            assert(xt[i] == xs[i + 1] && xt[j] == xs[j + 1]);
        }
        assert forall|i: int, j: int| 0 <= i < j < yt.len() implies yt[i] > yt[j] by {
            assert(yt[i] == ys[i + 1] && yt[j] == ys[j + 1]);
        }
        assert forall|i: int| 0 <= i < xt.len() implies #[trigger] seq_has_val(yt, xt[i]) by {
            assert(xt[i] == xs[i + 1]);
            assert(seq_has_val(ys, xs[i + 1]));
            let j = choose|j: int| 0 <= j < ys.len() && ys[j] == xs[i + 1];
            assert(xs[i + 1] < xs[0]);
            assert(j != 0);
            assert(yt[j - 1] == ys[j]);
        }
        assert forall|j: int| 0 <= j < yt.len() implies #[trigger] seq_has_val(xt, yt[j]) by {
            assert(yt[j] == ys[j + 1]);
            assert(seq_has_val(xs, ys[j + 1]));
            let i = choose|i: int| 0 <= i < xs.len() && xs[i] == ys[j + 1];
            assert(ys[j + 1] < ys[0]);
            assert(i != 0);
            assert(xt[i - 1] == xs[i]);
        }
        lemma_desc_vals_unique(xt, yt);
        assert forall|k: int| 0 <= k < xs.len() implies xs[k] == ys[k] by {
            if k > 0 {
                assert(xs[k] == xt[k - 1] && ys[k] == yt[k - 1]);
            }
        }
    }
}

/// There is only one correct kicker list over given cards, up to the cards'
/// suits: the rank values agree position by position.
proof fn lemma_kickers_unique(s: Seq<Card>, ks1: Seq<Card>, ks2: Seq<Card>)
    requires
        kickers_correct(s, ks1),
        kickers_correct(s, ks2),
    ensures
        kicker_vals(ks1) == kicker_vals(ks2),
{
    if is_five_high(s) {
    } else {
        let xs = kicker_vals(ks1);
        let ys = kicker_vals(ks2);
        assert forall|i: int, j: int| 0 <= i < j < xs.len() implies xs[i] > xs[j] by {
            assert(xs[i] == card_value(ks1[i]) && xs[j] == card_value(ks1[j]));
        }
        assert forall|i: int, j: int| 0 <= i < j < ys.len() implies ys[i] > ys[j] by {
            assert(ys[i] == card_value(ks2[i]) && ys[j] == card_value(ks2[j]));
        }
        assert forall|i: int| 0 <= i < xs.len() implies #[trigger] seq_has_val(ys, xs[i]) by {
            assert(xs[i] == card_value(ks1[i]));
            assert(rcount(s, card_value(ks1[i])) == 1);
            let j = choose|j: int|
                0 <= j < ks2.len() && card_value(#[trigger] ks2[j]) == card_value(ks1[i]);
            assert(ys[j] == xs[i]);
        }
        assert forall|j: int| 0 <= j < ys.len() implies #[trigger] seq_has_val(xs, ys[j]) by {
            assert(ys[j] == card_value(ks2[j]));
            assert(rcount(s, card_value(ks2[j])) == 1);
            let i = choose|i: int|
                0 <= i < ks1.len() && card_value(#[trigger] ks1[i]) == card_value(ks2[j]);
            assert(xs[i] == ys[j]);
        }
        lemma_desc_vals_unique(xs, ys);
    }
}

/// The ghost shape of a hand: its cards in input order, its runs, its
/// kickers and its category.
pub struct HandView {
    pub cards: Seq<Card>,
    pub runs: Seq<Seq<Card>>,
    pub kickers: Seq<Card>,
    pub ranking: HandRanking,
}

/// The diagnostic line rendered for a hand shape and a score: what the std
/// formatting machinery returns for them, a function of the two arguments
/// alone.
pub uninterp spec fn debug_line_of(h: HandView, score: int) -> Seq<char>;

/// A five-card hand, immutable once constructed: the cards in input order,
/// the runs (maximal equal-rank groups of size two or more, strongest
/// first), the kickers (singleton cards, highest first, with the five-high
/// ace exception), and the category.
#[derive(Debug, Eq)]
pub struct Hand {
    hand: Vec<Card>,
    runs: Vec<Vec<Card>>,
    kickers: Vec<Card>,
    ranking: HandRanking,
}

impl View for Hand {
    type V = HandView;

    closed spec fn view(&self) -> HandView {
        HandView {
            cards: self.hand@,
            runs: group_views(self.runs@),
            kickers: self.kickers@,
            ranking: self.ranking,
        }
    }
}

impl Hand {
    /// Well-formedness: five cards, the category decided by the rank counts
    /// and the straight/flush tests, runs and kickers structured as stated
    /// and together holding exactly the cards. Construction establishes
    /// this and nothing ever mutates a hand.
    #[verifier::type_invariant]
    pub open spec fn wf(self) -> bool {
        &&& self@.cards.len() == 5
        &&& self@.ranking == ranking_of(self@.cards)
        &&& runs_correct(self@.cards, self@.runs)
        &&& kickers_correct(self@.cards, self@.kickers)
        &&& hand_partition(self@.cards, self@.runs, self@.kickers)
    }

    /// The five cards in their original input order.
    pub fn cards(&self) -> (r: &[Card])
        ensures
            r@ == self@.cards,
    {
        self.hand.as_slice()
    }

    /// The runs: maximal equal-rank groups of size two or more, ordered by
    /// descending size and, among equal sizes, descending rank.
    pub fn runs(&self) -> (r: &Vec<Vec<Card>>)
        ensures
            group_views(r@) == self@.runs,
    {
        &self.runs
    }

    /// The kickers: the singleton cards, highest rank first, except in a
    /// five-high straight where the ace leads the upward run.
    pub fn kickers(&self) -> (r: &[Card])
        ensures
            r@ == self@.kickers,
    {
        self.kickers.as_slice()
    }

    /// The hand's category.
    pub fn ranking(&self) -> (r: &HandRanking)
        ensures
            *r == self@.ranking,
    {
        &self.ranking
    }

    /// Whether all five cards share one suit.
    fn eval_is_flush(hand: &Vec<Card>) -> (r: bool)
        ensures
            r == all_same_suit(hand@),
    {
        if hand.len() == 0 {
            return true;
        }
        let mut i: usize = 1;
        while i < hand.len()
            invariant
                1 <= i <= hand@.len(),
                hand@.len() >= 1,
                forall|j: int| 0 <= j < i ==> (#[trigger] hand@[j]).suit == hand@[0].suit,
            decreases hand@.len() - i,
        {
            if !(hand[i].suit == hand[0].suit) {
                assert(!all_same_suit(hand@));
                return false;
            }
            i = i + 1;
        }
        true
    }

    /// Whether a rank-sorted five-card sequence is a straight: the literal
    /// five-high pattern, or five consecutive aces-high values.
    fn eval_is_straight(sorted: &Vec<Card>) -> (r: bool)
        requires
            sorted_by_rank(sorted@),
            sorted@.len() == 5,
        ensures
            r == is_straight(sorted@),
    {
        let v0 = sorted[0].rank.to_int_aces_high();
        let v1 = sorted[1].rank.to_int_aces_high();
        let v2 = sorted[2].rank.to_int_aces_high();
        let v3 = sorted[3].rank.to_int_aces_high();
        let v4 = sorted[4].rank.to_int_aces_high();
        if v0 == 2 && v1 == 3 && v2 == 4 && v3 == 5 && v4 == 14 {
            proof {
                lemma_rcount_unfold5(sorted@);
            }
            return true;
        }
        if v1 == v0 + 1 && v2 == v1 + 1 && v3 == v2 + 1 && v4 == v3 + 1 {
            proof {
                lemma_rcount_unfold5(sorted@);
                lemma_card_value_range();
                assert forall|v: int|
                    v0 <= v < v0 + 5 implies #[trigger] rcount(sorted@, v) == 1 by {}
                assert(straight_from(sorted@, v0 as int));
                assert(2 <= v0 as int <= 10);
                assert(is_standard_straight(sorted@));
            }
            return true;
        }
        proof {
            assert forall|lo: int| 2 <= lo <= 10 implies !(#[trigger] straight_from(
                sorted@,
                lo,
            )) by {
                if straight_from(sorted@, lo) {
                    lemma_straight_window(sorted@, lo);
                    assert(card_value(sorted@[1]) == card_value(sorted@[0]) + 1);
                }
            }
            if is_standard_straight(sorted@) {
                let lo = choose|lo: int| 2 <= lo <= 10 && #[trigger] straight_from(sorted@, lo);
            }
            if is_five_high(sorted@) {
                lemma_five_high_window(sorted@);
            }
        }
        false
    }

    /// Orders the equal-rank groups of size two or more -- given in
    /// ascending rank order -- by descending size and, among equal sizes,
    /// descending rank, preserving their cards.
    fn order_runs(bigs: Vec<Vec<Card>>, Ghost(s): Ghost<Seq<Card>>) -> (runs: Vec<Vec<Card>>)
        requires
            s.len() == 5,
            forall|b: int| 0 <= b < bigs@.len() ==> (#[trigger] bigs@[b])@.len() >= 2,
            forall|b: int| 0 <= b < bigs@.len() ==> uniform_run((#[trigger] bigs@[b])@),
            forall|b: int|
                0 <= b < bigs@.len() ==> (#[trigger] bigs@[b])@.len() == rcount(
                    s,
                    run_rank(bigs@[b]@),
                ),
            forall|b: int, c: int|
                0 <= b < c < bigs@.len() ==> run_rank((#[trigger] bigs@[b])@) < run_rank(
                    (#[trigger] bigs@[c])@,
                ),
            forall|v: int|
                #[trigger] rcount(s, v) >= 2 ==> exists|b: int|
                    0 <= b < bigs@.len() && run_rank((#[trigger] bigs@[b])@) == v,
        ensures
            runs_correct(s, group_views(runs@)),
            group_views(runs@).flatten().to_multiset() == group_views(bigs@).flatten().to_multiset(),
    {
        let ghost bv = group_views(bigs@);
        proof {
            lemma_card_value_range();
            assert forall|b: int|
                0 <= b < bv.len() implies (#[trigger] bv[b]).len() >= 2 && uniform_run(bv[b])
                && bv[b].len() == rcount(s, run_rank(bv[b])) by {
                assert(bv[b] == bigs@[b]@);
            }
            assert forall|b: int, c: int|
                0 <= b < c < bv.len() implies run_rank(#[trigger] bv[b]) < run_rank(
                #[trigger] bv[c]) by {
                assert(bv[b] == bigs@[b]@);
                assert(bv[c] == bigs@[c]@);
            }
            assert forall|v: int| #[trigger] rcount(s, v) >= 2 implies exists|b: int|
                0 <= b < bv.len() && run_rank(#[trigger] bv[b]) == v by {
                let b = choose|b: int|
                    0 <= b < bigs@.len() && run_rank((#[trigger] bigs@[b])@) == v;
                assert(bv[b] == bigs@[b]@);
                assert(run_rank(bv[b]) == v);
            }
            if bigs@.len() >= 3 {
                lemma_rcount_unfold5(s);
                let r0 = run_rank(bigs@[0]@);
                let r1 = run_rank(bigs@[1]@);
                let r2 = run_rank(bigs@[2]@);
                assert(r0 < r1 < r2);
                assert(rcount(s, r0) >= 2 && rcount(s, r1) >= 2 && rcount(s, r2) >= 2);
                assert(false);
            }
        }
        let mut bigs = bigs;
        let mut runs: Vec<Vec<Card>> = Vec::new();
        if bigs.len() == 0 {
            proof {
                assert(group_views(runs@) =~= group_views(bigs@));
                assert forall|v: int| !(#[trigger] rcount(s, v) >= 2) by {
                    if rcount(s, v) >= 2 {
                        let b = choose|b: int|
                            0 <= b < bv.len() && run_rank(#[trigger] bv[b]) == v;
                    }
                }
            }
            runs
        } else if bigs.len() == 1 {
            let b0 = bigs.pop().unwrap();
            runs.push(b0);
            proof {
                assert(group_views(runs@) =~= bv);
                assert forall|v: int| #[trigger] rcount(s, v) >= 2 implies exists|i: int|
                    0 <= i < group_views(runs@).len() && run_rank(
                        #[trigger] group_views(runs@)[i],
                    ) == v by {
                    let b = choose|b: int| 0 <= b < bv.len() && run_rank(#[trigger] bv[b]) == v;
                    assert(b == 0);
                    assert(group_views(runs@)[0] == bv[0]);
                    assert(run_rank(group_views(runs@)[b]) == v);
                }
            }
            runs
        } else {
            let b1 = bigs.pop().unwrap();
            let b0 = bigs.pop().unwrap();
            proof {
                assert(bv.len() == 2);
                assert(b0@ == bv[0] && b1@ == bv[1]);
                assert(run_rank(b0@) < run_rank(b1@));
                assert(2 <= run_rank(b0@) <= 14 && 2 <= run_rank(b1@) <= 14);
            }
            if b0.len() > b1.len() {
                runs.push(b0);
                runs.push(b1);
            } else {
                runs.push(b1);
                runs.push(b0);
            }
            proof {
                let rv = group_views(runs@);
                assert(rv.len() == 2);
                assert((rv[0] == bv[0] && rv[1] == bv[1]) || (rv[0] == bv[1] && rv[1] == bv[0]));
                assert(run_key(rv[0]) > run_key(rv[1]));
                assert forall|i: int, j: int|
                    0 <= i < j < rv.len() implies run_key(#[trigger] rv[i]) > run_key(
                    #[trigger] rv[j]) by {}
                assert forall|v: int| #[trigger] rcount(s, v) >= 2 implies exists|i: int|
                    0 <= i < rv.len() && run_rank(#[trigger] rv[i]) == v by {
                    let b = choose|b: int| 0 <= b < bv.len() && run_rank(#[trigger] bv[b]) == v;
                    if rv[0] == bv[b] {
                        assert(run_rank(rv[0]) == v);
                    } else {
                        assert(run_rank(rv[1]) == v);
                    }
                }
                broadcast use Seq::lemma_flatten_push;
                broadcast use Seq::lemma_flatten_singleton;

                assert(rv =~= seq![rv[0]].push(rv[1]));
                assert(seq![rv[0]].flatten() == rv[0]);
                assert(rv.flatten() == rv[0] + rv[1]);
                assert(bv =~= seq![bv[0]].push(bv[1]));
                assert(seq![bv[0]].flatten() == bv[0]);
                assert(bv.flatten() == bv[0] + bv[1]);
                lemma_multiset_commutative(rv[0], rv[1]);
                lemma_multiset_commutative(bv[0], bv[1]);
                broadcast use vstd::multiset::group_multiset_axioms;

                assert(rv.flatten().to_multiset() =~= bv.flatten().to_multiset());
            }
            runs
        }
    }

    /// Orders the singleton cards -- given in ascending rank order -- by
    /// descending rank, except for the five-high straight, where the ace is
    /// placed first and the rest follow upward.
    fn order_kickers(ks: Vec<Card>, Ghost(s): Ghost<Seq<Card>>) -> (kickers: Vec<Card>)
        requires
            s.len() == 5,
            ks@.len() <= 5,
            forall|k: int| 0 <= k < ks@.len() ==> rcount(s, card_value(#[trigger] ks@[k])) == 1,
            forall|v: int|
                #[trigger] rcount(s, v) == 1 ==> exists|k: int|
                    0 <= k < ks@.len() && card_value(#[trigger] ks@[k]) == v,
            forall|k: int, l: int|
                0 <= k < l < ks@.len() ==> card_value(#[trigger] ks@[k]) < card_value(
                    #[trigger] ks@[l],
                ),
        ensures
            kickers_correct(s, kickers@),
            kickers@.to_multiset() == ks@.to_multiset(),
    {
        proof {
            lemma_card_value_range();
        }
        let five_high = ks.len() == 5 && ks[0].rank.to_int_aces_high() == 2
            && ks[1].rank.to_int_aces_high() == 3 && ks[2].rank.to_int_aces_high() == 4
            && ks[3].rank.to_int_aces_high() == 5 && ks[4].rank.to_int_aces_high() == 14;
        proof {
            if five_high {
                assert(is_five_high(s)) by {
                    assert(rcount(s, card_value(ks@[0])) == 1);
                    assert(rcount(s, card_value(ks@[1])) == 1);
                    assert(rcount(s, card_value(ks@[2])) == 1);
                    assert(rcount(s, card_value(ks@[3])) == 1);
                    assert(rcount(s, card_value(ks@[4])) == 1);
                }
            } else {
                if is_five_high(s) {
                    let k2 = choose|k: int|
                        0 <= k < ks@.len() && card_value(#[trigger] ks@[k]) == 2;
                    let k3 = choose|k: int|
                        0 <= k < ks@.len() && card_value(#[trigger] ks@[k]) == 3;
                    let k4 = choose|k: int|
                        0 <= k < ks@.len() && card_value(#[trigger] ks@[k]) == 4;
                    let k5 = choose|k: int|
                        0 <= k < ks@.len() && card_value(#[trigger] ks@[k]) == 5;
                    let ka = choose|k: int|
                        0 <= k < ks@.len() && card_value(#[trigger] ks@[k]) == 14;
                    assert(k2 < k3 && k3 < k4 && k4 < k5 && k5 < ka) by {
                        assert(card_value(ks@[k2]) < card_value(ks@[k3]) ==> k2 < k3) by {
                            if k3 < k2 {
                                assert(card_value(ks@[k3]) > card_value(ks@[k2]));
                            }
                        }
                        if k3 <= k2 {
                            assert(k3 < k2 ==> card_value(ks@[k3]) < card_value(ks@[k2]));
                        }
                        if k4 <= k3 {
                            assert(k4 < k3 ==> card_value(ks@[k4]) < card_value(ks@[k3]));
                        }
                        if k5 <= k4 {
                            assert(k5 < k4 ==> card_value(ks@[k5]) < card_value(ks@[k4]));
                        }
                        if ka <= k5 {
                            assert(ka < k5 ==> card_value(ks@[ka]) < card_value(ks@[k5]));
                        }
                    }
                    assert(ks@.len() == 5);
                    assert(k2 == 0 && k3 == 1 && k4 == 2 && k5 == 3 && ka == 4) by {
                        assert forall|q: int| 0 <= q < ks@.len() implies card_value(
                            #[trigger] ks@[q],
                        ) >= 2 by {}
                        if k2 > 0 {
                            assert(card_value(ks@[0]) < card_value(ks@[k2]));
                        }
                        if k3 > 1 {
                            assert(card_value(ks@[k3 - 1]) < 3 && card_value(ks@[k3 - 1]) >= 2);
                            assert(k3 - 1 != k2 ==> card_value(ks@[k3 - 1]) != card_value(
                                ks@[k2],
                            )) by {
                                if k3 - 1 < k2 {
                                    assert(card_value(ks@[k3 - 1]) < card_value(ks@[k2]));
                                }
                                if k2 < k3 - 1 {
                                    assert(card_value(ks@[k2]) < card_value(ks@[k3 - 1]));
                                }
                            }
                        }
                        if k4 > 2 {
                            assert(card_value(ks@[k4 - 1]) < 4 && card_value(ks@[k4 - 1]) >= 2);
                            assert(card_value(ks@[k4 - 2]) < card_value(ks@[k4 - 1]));
                        }
                        if k5 > 3 {
                            assert(card_value(ks@[k5 - 1]) < 5);
                            assert(card_value(ks@[k5 - 2]) < card_value(ks@[k5 - 1]));
                            assert(card_value(ks@[k5 - 3]) < card_value(ks@[k5 - 2]));
                        }
                    }
                    assert(false);
                }
            }
        }
        let mut kickers: Vec<Card> = Vec::new();
        if five_high {
            kickers.push(ks[4]);
            kickers.push(ks[0]);
            kickers.push(ks[1]);
            kickers.push(ks[2]);
            kickers.push(ks[3]);
            proof {
                broadcast use vstd::seq_lib::group_to_multiset_ensures;
                broadcast use vstd::multiset::group_multiset_axioms;

                assert(kickers@.map_values(|c: Card| card_value(c)) =~= seq![
                    14int,
                    2int,
                    3int,
                    4int,
                    5int,
                ]);
                assert forall|v: int| #[trigger] rcount(s, v) == 1 implies exists|i: int|
                    0 <= i < kickers@.len() && card_value(#[trigger] kickers@[i]) == v by {
                    let k = choose|k: int| 0 <= k < ks@.len() && card_value(#[trigger] ks@[k]) == v;
                    if k == 4 {
                        assert(card_value(kickers@[0]) == v);
                    } else {
                        assert(kickers@[k + 1] == ks@[k]);
                        assert(card_value(kickers@[k + 1]) == v);
                    }
                }
                assert(kickers@ =~= seq![ks@[4]] + ks@.subrange(0, 4));
                assert(ks@ =~= ks@.subrange(0, 4) + seq![ks@[4]]);
                lemma_multiset_commutative(seq![ks@[4]], ks@.subrange(0, 4));
                lemma_multiset_commutative(ks@.subrange(0, 4), seq![ks@[4]]);
                assert(kickers@.to_multiset() =~= ks@.to_multiset());
            }
        } else {
            let n = ks.len();
            let mut t: usize = 0;
            while t < n
                invariant
                    n == ks@.len(),
                    t <= n,
                    kickers@.len() == t,
                    forall|x: int| 0 <= x < t ==> #[trigger] kickers@[x] == ks@[n - 1 - x],
                decreases n - t,
            {
                kickers.push(ks[n - 1 - t]);
                t = t + 1;
            }
            proof {
                assert(kickers@ =~= ks@.reverse());
                ks@.lemma_reverse_to_multiset();
                assert forall|v: int| #[trigger] rcount(s, v) == 1 implies exists|i: int|
                    0 <= i < kickers@.len() && card_value(#[trigger] kickers@[i]) == v by {
                    let k = choose|k: int| 0 <= k < ks@.len() && card_value(#[trigger] ks@[k]) == v;
                    assert(kickers@[ks@.len() - 1 - k] == ks@[k]);
                    assert(card_value(kickers@[ks@.len() - 1 - k]) == v);
                }
            }
        }
        kickers
    }

    /// The pair-family category from the run structure: one pair, two pair,
    /// three or four (or five) of a kind, or a full house; `None` when there
    /// are no runs.
    fn runs_ranking(runs: &Vec<Vec<Card>>, Ghost(s): Ghost<Seq<Card>>) -> (r: Option<HandRanking>)
        requires
            s.len() == 5,
            runs_correct(s, group_views(runs@)),
        ensures
            r == runs_ranking_of(s),
    {
        let ghost rv = group_views(runs@);
        proof {
            lemma_card_value_range();
            if runs@.len() >= 3 {
                lemma_rcount_unfold5(s);
                let r0 = run_rank(rv[0]);
                let r1 = run_rank(rv[1]);
                let r2 = run_rank(rv[2]);
                assert(run_key(rv[0]) > run_key(rv[1]) > run_key(rv[2]));
                assert(r0 != r1 && r1 != r2 && r0 != r2) by {
                    assert(rv[0].len() == rcount(s, r0));
                    assert(rv[1].len() == rcount(s, r1));
                    assert(rv[2].len() == rcount(s, r2));
                }
                assert(rcount(s, r0) >= 2 && rcount(s, r1) >= 2 && rcount(s, r2) >= 2);
                assert(false);
            }
        }
        if runs.len() == 0 {
            proof {
                assert forall|v: int| !(#[trigger] rcount(s, v) >= 2) by {
                    if rcount(s, v) >= 2 {
                        let i = choose|i: int| 0 <= i < rv.len() && run_rank(#[trigger] rv[i]) == v;
                    }
                }
                assert(!has_count(s, 5)) by {
                    if has_count(s, 5) {
                        let v = choose|v: int| #[trigger] rcount(s, v) == 5;
                    }
                }
                assert(!has_count(s, 4)) by {
                    if has_count(s, 4) {
                        let v = choose|v: int| #[trigger] rcount(s, v) == 4;
                    }
                }
                assert(!has_count(s, 3)) by {
                    if has_count(s, 3) {
                        let v = choose|v: int| #[trigger] rcount(s, v) == 3;
                    }
                }
                assert(!has_count(s, 2)) by {
                    if has_count(s, 2) {
                        let v = choose|v: int| #[trigger] rcount(s, v) == 2;
                    }
                }
                assert(!has_two_pairs(s)) by {
                    if has_two_pairs(s) {
                        let (v, w) = choose|v: int, w: int|
                            v != w && #[trigger] rcount(s, v) == 2 && #[trigger] rcount(s, w) == 2;
                    }
                }
            }
            None
        } else if runs.len() == 1 {
            let ghost r0 = run_rank(rv[0]);
            let len0 = runs[0].len();
            proof {
                assert(rv[0].len() == rcount(s, r0));
                lemma_rcount_bounds(s, r0);
                assert forall|v: int| #[trigger] rcount(s, v) >= 2 implies v == r0 by {
                    let i = choose|i: int| 0 <= i < rv.len() && run_rank(#[trigger] rv[i]) == v;
                    assert(i == 0);
                }
                assert(!has_two_pairs(s)) by {
                    if has_two_pairs(s) {
                        let (v, w) = choose|v: int, w: int|
                            v != w && #[trigger] rcount(s, v) == 2 && #[trigger] rcount(s, w) == 2;
                    }
                }
            }
            if len0 == 2 {
                proof {
                    assert(has_count(s, 2)) by {
                        assert(rcount(s, r0) == 2);
                    }
                    assert(!has_count(s, 5)) by {
                        if has_count(s, 5) {
                            let v = choose|v: int| #[trigger] rcount(s, v) == 5;
                        }
                    }
                    assert(!has_count(s, 4)) by {
                        if has_count(s, 4) {
                            let v = choose|v: int| #[trigger] rcount(s, v) == 4;
                        }
                    }
                    assert(!has_count(s, 3)) by {
                        if has_count(s, 3) {
                            let v = choose|v: int| #[trigger] rcount(s, v) == 3;
                        }
                    }
                }
                Some(HandRanking::Pair)
            } else if len0 == 3 {
                proof {
                    assert(has_count(s, 3)) by {
                        assert(rcount(s, r0) == 3);
                    }
                    assert(!has_count(s, 5)) by {
                        if has_count(s, 5) {
                            let v = choose|v: int| #[trigger] rcount(s, v) == 5;
                        }
                    }
                    assert(!has_count(s, 4)) by {
                        if has_count(s, 4) {
                            let v = choose|v: int| #[trigger] rcount(s, v) == 4;
                        }
                    }
                    assert(!has_count(s, 2)) by {
                        if has_count(s, 2) {
                            let v = choose|v: int| #[trigger] rcount(s, v) == 2;
                        }
                    }
                }
                Some(HandRanking::ThreeOfAKind)
            } else if len0 == 4 {
                proof {
                    assert(has_count(s, 4)) by {
                        assert(rcount(s, r0) == 4);
                    }
                    assert(!has_count(s, 5)) by {
                        if has_count(s, 5) {
                            let v = choose|v: int| #[trigger] rcount(s, v) == 5;
                        }
                    }
                }
                Some(HandRanking::FourOfAKind)
            } else {
                proof {
                    assert(len0 == 5);
                    assert(has_count(s, 5)) by {
                        assert(rcount(s, r0) == 5);
                    }
                }
                Some(HandRanking::FiveOfAKind)
            }
        } else {
            let ghost r0 = run_rank(rv[0]);
            let ghost r1 = run_rank(rv[1]);
            let len0 = runs[0].len();
            let len1 = runs[1].len();
            proof {
                assert(runs@.len() == 2);
                assert(rv[0].len() == rcount(s, r0));
                assert(rv[1].len() == rcount(s, r1));
                assert(r0 != r1) by {
                    assert(run_key(rv[0]) > run_key(rv[1]));
                }
                assert(rcount(s, r0) + rcount(s, r1) <= 5) by {
                    lemma_rcount_unfold5(s);
                }
                assert(len0 >= len1) by {
                    assert(run_key(rv[0]) > run_key(rv[1]));
                    assert(2 <= r0 <= 14 && 2 <= r1 <= 14);
                }
                assert(len1 == 2 && (len0 == 2 || len0 == 3));
                assert forall|v: int| #[trigger] rcount(s, v) >= 2 implies v == r0 || v == r1 by {
                    let i = choose|i: int| 0 <= i < rv.len() && run_rank(#[trigger] rv[i]) == v;
                }
                assert(!has_count(s, 5)) by {
                    if has_count(s, 5) {
                        let v = choose|v: int| #[trigger] rcount(s, v) == 5;
                    }
                }
                assert(!has_count(s, 4)) by {
                    if has_count(s, 4) {
                        let v = choose|v: int| #[trigger] rcount(s, v) == 4;
                    }
                }
            }
            if len0 == 3 {
                proof {
                    assert(has_count(s, 3)) by {
                        assert(rcount(s, r0) == 3);
                    }
                    assert(has_count(s, 2)) by {
                        assert(rcount(s, r1) == 2);
                    }
                }
                Some(HandRanking::FullHouse)
            } else {
                proof {
                    assert(!has_count(s, 3)) by {
                        if has_count(s, 3) {
                            let v = choose|v: int| #[trigger] rcount(s, v) == 3;
                        }
                    }
                    assert(has_two_pairs(s)) by {
                        assert(rcount(s, r0) == 2 && rcount(s, r1) == 2);
                    }
                }
                Some(HandRanking::TwoPair)
            }
        }
    }

    /// The category from the run structure and the straight, flush and
    /// royal flags: the pair family takes priority; otherwise royal flush,
    /// straight flush, straight, flush, high card, in that order.
    fn rank_hand(
        runs: &Vec<Vec<Card>>,
        is_straight_flag: bool,
        is_flush_flag: bool,
        is_royal_flag: bool,
        Ghost(s): Ghost<Seq<Card>>,
    ) -> (r: HandRanking)
        requires
            s.len() == 5,
            runs_correct(s, group_views(runs@)),
            is_straight_flag == is_straight(s),
            is_flush_flag == all_same_suit(s),
            is_royal_flag == is_royal(s),
        ensures
            r == ranking_of(s),
    {
        match Self::runs_ranking(runs, Ghost(s)) {
            Some(ranking) => ranking,
            None => {
                if is_straight_flag {
                    if is_flush_flag {
                        if is_royal_flag {
                            HandRanking::RoyalFlush
                        } else {
                            HandRanking::StraightFlush
                        }
                    } else {
                        HandRanking::Straight
                    }
                } else if is_flush_flag {
                    HandRanking::Flush
                } else {
                    HandRanking::HighCard
                }
            },
        }
    }

    /// Builds a hand from exactly five cards: sorts them by rank, partitions
    /// them into maximal equal-rank groups, splits the groups into runs and
    /// kickers, and classifies the hand. The cards themselves are kept in
    /// input order.
    pub fn new(hand: &[Card]) -> (h: Hand)
        requires
            hand@.len() == 5,
        ensures
            h.wf(),
            h@.cards == hand@,
    {
        let sorted = sort_cards(hand);
        let ghost s = sorted@;
        let groups = group_sorted(&sorted);
        let (bigs, ks) = split_groups(&groups, Ghost(s));
        proof {
            broadcast use vstd::seq_lib::group_to_multiset_ensures;
            broadcast use vstd::multiset::group_multiset_axioms;

            assert(group_views(bigs@).flatten().to_multiset().add(ks@.to_multiset()).len()
                == s.to_multiset().len());
            assert(ks@.to_multiset().len() == ks@.len());
            assert(s.to_multiset().len() == s.len());
            assert(ks@.len() <= 5);
        }
        let runs = Self::order_runs(bigs, Ghost(s));
        let kickers = Self::order_kickers(ks, Ghost(s));
        let is_straight_flag = Self::eval_is_straight(&sorted);
        let is_flush_flag = Self::eval_is_flush(&sorted);
        let is_royal_flag = Self::eval_is_royal(&sorted);
        let ranking = Self::rank_hand(&runs, is_straight_flag, is_flush_flag, is_royal_flag, Ghost(s));
        let cards = vstd::slice::slice_to_vec(hand);
        proof {
            broadcast use vstd::multiset::group_multiset_axioms;

            lemma_equal_multiset_equal_rcount(s, cards@);
            lemma_ranking_multiset_invariant(s, cards@);
            let rv = group_views(runs@);
            assert(runs_correct(cards@, rv)) by {
                assert forall|i: int|
                    0 <= i < rv.len() implies (#[trigger] rv[i]).len() == rcount(
                    cards@,
                    run_rank(rv[i]),
                ) by {
                    assert(rv[i].len() == rcount(s, run_rank(rv[i])));
                }
                assert forall|v: int| #[trigger] rcount(cards@, v) >= 2 implies exists|i: int|
                    0 <= i < rv.len() && run_rank(#[trigger] rv[i]) == v by {
                    assert(rcount(s, v) >= 2);
                }
            }
            assert(kickers_correct(cards@, kickers@)) by {
                assert forall|i: int|
                    0 <= i < kickers@.len() implies rcount(
                    cards@,
                    card_value(#[trigger] kickers@[i]),
                ) == 1 by {
                    assert(rcount(s, card_value(kickers@[i])) == 1);
                }
                assert forall|v: int| #[trigger] rcount(cards@, v) == 1 implies exists|i: int|
                    0 <= i < kickers@.len() && card_value(#[trigger] kickers@[i]) == v by {
                    assert(rcount(s, v) == 1);
                }
            }
            assert(hand_partition(cards@, rv, kickers@)) by {
                assert(rv.flatten().to_multiset().add(kickers@.to_multiset())
                    == s.to_multiset());
            }
        }
        Hand { hand: cards, runs, kickers, ranking }
    }

    /// Compares two card sequences lexicographically by aces-high rank.
    fn cmp_card_seq(x: &Vec<Card>, y: &Vec<Card>) -> (r: core::cmp::Ordering)
        ensures
            r == lex_vals(
                x@.map_values(|c: Card| card_value(c)),
                y@.map_values(|c: Card| card_value(c)),
            ),
    {
        let ghost xm = x@.map_values(|c: Card| card_value(c));
        let ghost ym = y@.map_values(|c: Card| card_value(c));
        let mut i: usize = 0;
        while i < x.len() && i < y.len()
            invariant
                i <= x@.len(),
                i <= y@.len(),
                xm == x@.map_values(|c: Card| card_value(c)),
                ym == y@.map_values(|c: Card| card_value(c)),
                forall|j: int| 0 <= j < i ==> xm[j] == ym[j],
            decreases x@.len() - i,
        {
            let a = x[i].rank.to_int_aces_high();
            let b = y[i].rank.to_int_aces_high();
            proof {
                assert(xm[i as int] == card_value(x@[i as int]));
                assert(ym[i as int] == card_value(y@[i as int]));
            }
            if a < b {
                proof {
                    lemma_lex_vals_skip(xm, ym, i as int);
                    assert(xm.skip(i as int)[0] == xm[i as int]);
                    assert(ym.skip(i as int)[0] == ym[i as int]);
                }
                return core::cmp::Ordering::Less;
            }
            if a > b {
                proof {
                    lemma_lex_vals_skip(xm, ym, i as int);
                    assert(xm.skip(i as int)[0] == xm[i as int]);
                    assert(ym.skip(i as int)[0] == ym[i as int]);
                }
                return core::cmp::Ordering::Greater;
            }
            i = i + 1;
        }
        proof {
            lemma_lex_vals_skip(xm, ym, i as int);
        }
        if x.len() == y.len() {
            core::cmp::Ordering::Equal
        } else if x.len() < y.len() {
            core::cmp::Ordering::Less
        } else {
            core::cmp::Ordering::Greater
        }
    }

    /// Compares two run lists lexicographically, runs compared by rank in
    /// turn.
    fn cmp_runs(x: &Vec<Vec<Card>>, y: &Vec<Vec<Card>>) -> (r: core::cmp::Ordering)
        ensures
            r == lex_runs(run_vals(group_views(x@)), run_vals(group_views(y@))),
    {
        let ghost xm = run_vals(group_views(x@));
        let ghost ym = run_vals(group_views(y@));
        let mut i: usize = 0;
        while i < x.len() && i < y.len()
            invariant
                i <= x@.len(),
                i <= y@.len(),
                xm == run_vals(group_views(x@)),
                ym == run_vals(group_views(y@)),
                forall|j: int|
                    0 <= j < i ==> lex_vals(#[trigger] xm[j], ym[j]) == core::cmp::Ordering::Equal,
            decreases x@.len() - i,
        {
            let o = Self::cmp_card_seq(&x[i], &y[i]);
            proof {
                assert(xm[i as int] == x@[i as int]@.map_values(|c: Card| card_value(c)));
                assert(ym[i as int] == y@[i as int]@.map_values(|c: Card| card_value(c)));
            }
            match o {
                core::cmp::Ordering::Equal => {},
                _ => {
                    proof {
                        lemma_lex_runs_skip(xm, ym, i as int);
                        assert(xm.skip(i as int)[0] == xm[i as int]);
                        assert(ym.skip(i as int)[0] == ym[i as int]);
                    }
                    return o;
                },
            }
            i = i + 1;
        }
        proof {
            lemma_lex_runs_skip(xm, ym, i as int);
        }
        if x.len() == y.len() {
            core::cmp::Ordering::Equal
        } else if x.len() < y.len() {
            core::cmp::Ordering::Less
        } else {
            core::cmp::Ordering::Greater
        }
    }

    /// Whether a kicker list shows the five-high straight pattern: the ace
    /// first, then two through five.
    fn five_high_kicks(ks: &Vec<Card>) -> (r: bool)
        ensures
            r == (kicker_vals(ks@) == seq![14int, 2int, 3int, 4int, 5int]),
    {
        let r = ks.len() == 5 && ks[0].rank.to_int_aces_high() == 14
            && ks[1].rank.to_int_aces_high() == 2 && ks[2].rank.to_int_aces_high() == 3
            && ks[3].rank.to_int_aces_high() == 4 && ks[4].rank.to_int_aces_high() == 5;
        proof {
            assert(kicker_vals(ks@).len() == ks@.len());
            if r {
                assert(kicker_vals(ks@) =~= seq![14int, 2int, 3int, 4int, 5int]);
            } else {
                if kicker_vals(ks@) == seq![14int, 2int, 3int, 4int, 5int] {
                    assert(ks@.len() == 5);
                    assert(card_value(ks@[0]) == kicker_vals(ks@)[0]);
                    assert(card_value(ks@[1]) == kicker_vals(ks@)[1]);
                    assert(card_value(ks@[2]) == kicker_vals(ks@)[2]);
                    assert(card_value(ks@[3]) == kicker_vals(ks@)[3]);
                    assert(card_value(ks@[4]) == kicker_vals(ks@)[4]);
                }
            }
        }
        r
    }

    /// Compares two kicker lists lexicographically by rank, counting a
    /// five-high straight's ace as low.
    fn cmp_kickers(x: &Vec<Card>, y: &Vec<Card>) -> (r: core::cmp::Ordering)
        ensures
            r == lex_vals(kicker_cmp_vals(x@), kicker_cmp_vals(y@)),
    {
        let fx = Self::five_high_kicks(x);
        let fy = Self::five_high_kicks(y);
        let ghost xm = kicker_cmp_vals(x@);
        let ghost ym = kicker_cmp_vals(y@);
        proof {
            assert(kicker_vals(x@).len() == x@.len());
            assert(kicker_vals(y@).len() == y@.len());
            assert(xm.len() == x@.len());
            assert(ym.len() == y@.len());
        }
        let mut i: usize = 0;
        while i < x.len() && i < y.len()
            invariant
                i <= x@.len(),
                i <= y@.len(),
                fx == (kicker_vals(x@) == seq![14int, 2int, 3int, 4int, 5int]),
                fy == (kicker_vals(y@) == seq![14int, 2int, 3int, 4int, 5int]),
                xm == kicker_cmp_vals(x@),
                ym == kicker_cmp_vals(y@),
                forall|j: int| 0 <= j < i ==> xm[j] == ym[j],
            decreases x@.len() - i,
        {
            let a = if fx {
                x[i].rank.to_int()
            } else {
                x[i].rank.to_int_aces_high()
            };
            let b = if fy {
                y[i].rank.to_int()
            } else {
                y[i].rank.to_int_aces_high()
            };
            proof {
                if fx {
                    assert(card_value(x@[i as int]) == kicker_vals(x@)[i as int]);
                    assert(xm == seq![1int, 2int, 3int, 4int, 5int]);
                    if i == 0 {
                        assert(rank_value(x@[0].rank) == 14);
                        assert(x@[0].rank == crate::card::Rank::Ace);
                    } else {
                        assert(rank_value(x@[i as int].rank) == i + 1);
                        assert(x@[i as int].rank != crate::card::Rank::Ace);
                    }
                } else {
                    assert(xm[i as int] == card_value(x@[i as int]));
                }
                if fy {
                    assert(card_value(y@[i as int]) == kicker_vals(y@)[i as int]);
                    assert(ym == seq![1int, 2int, 3int, 4int, 5int]);
                    if i == 0 {
                        assert(rank_value(y@[0].rank) == 14);
                        assert(y@[0].rank == crate::card::Rank::Ace);
                    } else {
                        assert(rank_value(y@[i as int].rank) == i + 1);
                        assert(y@[i as int].rank != crate::card::Rank::Ace);
                    }
                } else {
                    assert(ym[i as int] == card_value(y@[i as int]));
                }
                assert(a == xm[i as int]);
                assert(b == ym[i as int]);
            }
            if a < b {
                proof {
                    lemma_lex_vals_skip(xm, ym, i as int);
                    assert(xm.skip(i as int)[0] == xm[i as int]);
                    assert(ym.skip(i as int)[0] == ym[i as int]);
                }
                return core::cmp::Ordering::Less;
            }
            if a > b {
                proof {
                    lemma_lex_vals_skip(xm, ym, i as int);
                    assert(xm.skip(i as int)[0] == xm[i as int]);
                    assert(ym.skip(i as int)[0] == ym[i as int]);
                }
                return core::cmp::Ordering::Greater;
            }
            i = i + 1;
        }
        proof {
            lemma_lex_vals_skip(xm, ym, i as int);
        }
        if x.len() == y.len() {
            core::cmp::Ordering::Equal
        } else if x.len() < y.len() {
            core::cmp::Ordering::Less
        } else {
            core::cmp::Ordering::Greater
        }
    }

    /// Compares two hands: by category first, then by runs and kickers.
    fn compare(&self, other: &Hand) -> (r: core::cmp::Ordering)
        ensures
            r == hand_cmp(self@, other@),
    {
        let a = self.ranking.ordinal();
        let b = other.ranking.ordinal();
        if a < b {
            return core::cmp::Ordering::Less;
        }
        if a > b {
            return core::cmp::Ordering::Greater;
        }
        let o = Self::cmp_runs(&self.runs, &other.runs);
        match o {
            core::cmp::Ordering::Equal => {},
            _ => {
                return o;
            },
        }
        Self::cmp_kickers(&self.kickers, &other.kickers)
    }

    /// A one-line diagnostic listing of the ranking, runs, kickers and
    /// score: the debug rendering of this hand with its correct score.
    pub fn display_hand_debug_info(&self) -> (r: String)
        ensures
            r@ == debug_line_of(self@, crate::score::spec_score(self@)),
    {
        let score = crate::score::score_hand(self);
        self.format_debug_info(score)
    }

    /// Renders the diagnostic line. Relies on the std `format!` macro: the
    /// rendering depends on the hand's fields and the score alone.
    #[verifier::external_body]
    fn format_debug_info(&self, score: usize) -> (r: String)
        ensures
            r@ == debug_line_of(self@, score as int),
    {
        format!("{:?} {:?} {:?}  {} points", self.ranking, self.runs, self.kickers, score)
    }

    /// Whether a rank-sorted five-card sequence runs ten through ace, part
    /// of the royal flush test.
    fn eval_is_royal(sorted: &Vec<Card>) -> (r: bool)
        requires
            sorted_by_rank(sorted@),
            sorted@.len() == 5,
        ensures
            r == is_royal(sorted@),
    {
        let r = sorted[0].rank.to_int_aces_high() == 10 && sorted[1].rank.to_int_aces_high() == 11
            && sorted[2].rank.to_int_aces_high() == 12 && sorted[3].rank.to_int_aces_high() == 13
            && sorted[4].rank.to_int_aces_high() == 14;
        proof {
            lemma_rcount_unfold5(sorted@);
            if r {
                assert forall|v: int|
                    10 <= v < 15 implies #[trigger] rcount(sorted@, v) == 1 by {}
                assert(straight_from(sorted@, 10));
            } else {
                if straight_from(sorted@, 10) {
                    lemma_straight_window(sorted@, 10);
                }
            }
        }
        r
    }
}

/// Law: a hand built from any permutation of the same five cards has the
/// same category, the same run sizes and ranks, and the same kicker ranks,
/// and the two hands compare equal; only the cards' input order (and the
/// suits inside runs) may differ.
pub proof fn lemma_hand_order_independent(h1: Hand, h2: Hand)
    requires
        h1.wf(),
        h2.wf(),
        h1@.cards.to_multiset() == h2@.cards.to_multiset(),
    ensures
        h1@.ranking == h2@.ranking,
        h1@.runs.len() == h2@.runs.len(),
        forall|i: int|
            0 <= i < h1@.runs.len() ==> (#[trigger] h1@.runs[i]).len() == h2@.runs[i].len()
                && run_rank(h1@.runs[i]) == run_rank(h2@.runs[i]),
        kicker_vals(h1@.kickers) == kicker_vals(h2@.kickers),
        hand_cmp(h1@, h2@) == core::cmp::Ordering::Equal,
{
    let s1 = h1@.cards;
    let s2 = h2@.cards;
    lemma_ranking_multiset_invariant(s1, s2);
    lemma_equal_multiset_equal_rcount(s1, s2);
    assert(runs_correct(s1, h2@.runs)) by {
        assert forall|i: int|
            0 <= i < h2@.runs.len() implies (#[trigger] h2@.runs[i]).len() == rcount(
            s1,
            run_rank(h2@.runs[i]),
        ) by {
            assert(h2@.runs[i].len() == rcount(s2, run_rank(h2@.runs[i])));
        }
        assert forall|v: int| #[trigger] rcount(s1, v) >= 2 implies exists|i: int|
            0 <= i < h2@.runs.len() && run_rank(#[trigger] h2@.runs[i]) == v by {
            assert(rcount(s2, v) >= 2);
        }
    }
    assert(kickers_correct(s1, h2@.kickers)) by {
        assert forall|i: int|
            0 <= i < h2@.kickers.len() implies rcount(
            s1,
            card_value(#[trigger] h2@.kickers[i]),
        ) == 1 by {
            assert(rcount(s2, card_value(h2@.kickers[i])) == 1);
        }
        assert forall|v: int| #[trigger] rcount(s1, v) == 1 implies exists|i: int|
            0 <= i < h2@.kickers.len() && card_value(#[trigger] h2@.kickers[i]) == v by {
            assert(rcount(s2, v) == 1);
        }
    }
    lemma_runs_unique(s1, h1@.runs, h2@.runs);
    lemma_kickers_unique(s1, h1@.kickers, h2@.kickers);
    assert(run_vals(h1@.runs) =~~= run_vals(h2@.runs)) by {
        assert forall|i: int|
            0 <= i < h1@.runs.len() implies #[trigger] run_vals(h1@.runs)[i] =~= run_vals(
            h2@.runs,
        )[i] by {
            let a = h1@.runs[i];
            let b = h2@.runs[i];
            assert(uniform_run(a) && uniform_run(b));
            assert forall|j: int|
                0 <= j < a.len() implies run_vals(h1@.runs)[i][j] == run_vals(
                h2@.runs,
            )[i][j] by {
                assert(card_value(a[j]) == run_rank(a));
                assert(card_value(b[j]) == run_rank(b));
            }
        }
    }
    lemma_lex_runs_refl(run_vals(h1@.runs));
    lemma_lex_vals_refl(kicker_cmp_vals(h1@.kickers));
    assert(kicker_cmp_vals(h1@.kickers) == kicker_cmp_vals(h2@.kickers));
}

impl PartialEq for Hand {
    /// Two hands are equal when they compare equal: same category, same run
    /// ranks, same kicker ranks -- suits play no part.
    fn eq(&self, other: &Self) -> (r: bool) {
        match self.compare(other) {
            core::cmp::Ordering::Equal => true,
            _ => false,
        }
    }
}

impl vstd::std_specs::cmp::PartialEqSpecImpl for Hand {
    open spec fn obeys_eq_spec() -> bool {
        true
    }

    open spec fn eq_spec(&self, other: &Self) -> bool {
        hand_cmp(self@, other@) == core::cmp::Ordering::Equal
    }
}

impl PartialOrd for Hand {
    /// The total order on hands: category ordinal first, then runs and
    /// kickers lexicographically.
    fn partial_cmp(&self, other: &Self) -> (r: Option<core::cmp::Ordering>) {
        Some(self.compare(other))
    }
}

impl vstd::std_specs::cmp::PartialOrdSpecImpl for Hand {
    open spec fn obeys_partial_cmp_spec() -> bool {
        true
    }

    open spec fn partial_cmp_spec(&self, other: &Self) -> Option<core::cmp::Ordering> {
        Some(hand_cmp(self@, other@))
    }
}

} // verus!
