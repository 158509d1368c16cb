//! The 52-card deck: canonical construction, peek windows, and the
//! Fisher-Yates shuffle.
//!
//! A deck is an ordered sequence of the 52 distinct (rank, suit) pairs.
//! Shuffling permutes the sequence in place and never adds, removes or
//! duplicates a card; peeking returns a read-only window and keeps no draw
//! pointer, so callers track offsets themselves.

use vstd::prelude::*;

use crate::card::Card;
use crate::card::Rank;
use crate::card::Suit;

verus! {

/// A source of random 64-bit values, typically seeded from the four words of
/// [`crate::get_prng_seed`]. `next` reports `None` when the source is
/// exhausted. Nothing is assumed about the values drawn: every consumer in
/// this crate is correct for any sequence the source produces.
pub trait RandomSource {
    /// Draws the next value, or `None` when the source is exhausted.
    fn next(&mut self) -> Option<u64>;
}

/// The rank at a position within one suit's block of the canonical deck.
pub open spec fn rank_of_index(i: int) -> Rank {
    if i == 0 {
        Rank::Two
    } else if i == 1 {
        Rank::Three
    } else if i == 2 {
        Rank::Four
    } else if i == 3 {
        Rank::Five
    } else if i == 4 {
        Rank::Six
    } else if i == 5 {
        Rank::Seven
    } else if i == 6 {
        Rank::Eight
    } else if i == 7 {
        Rank::Nine
    } else if i == 8 {
        Rank::Ten
    } else if i == 9 {
        Rank::Jack
    } else if i == 10 {
        Rank::Queen
    } else if i == 11 {
        Rank::King
    } else {
        Rank::Ace
    }
}

/// The suit of a 13-card block of the canonical deck.
pub open spec fn suit_of_index(i: int) -> Suit {
    if i == 0 {
        Suit::Spade
    } else if i == 1 {
        Suit::Heart
    } else if i == 2 {
        Suit::Club
    } else {
        Suit::Diamond
    }
}

/// The position of a rank within a suit's block; inverse of `rank_of_index`.
pub open spec fn rank_index(r: Rank) -> int {
    match r {
        Rank::Two => 0,
        Rank::Three => 1,
        Rank::Four => 2,
        Rank::Five => 3,
        Rank::Six => 4,
        Rank::Seven => 5,
        Rank::Eight => 6,
        Rank::Nine => 7,
        Rank::Ten => 8,
        Rank::Jack => 9,
        Rank::Queen => 10,
        Rank::King => 11,
        Rank::Ace => 12,
    }
}

/// The block number of a suit; inverse of `suit_of_index`.
pub open spec fn suit_index(s: Suit) -> int {
    match s {
        Suit::Spade => 0,
        Suit::Heart => 1,
        Suit::Club => 2,
        Suit::Diamond => 3,
    }
}

/// The card at a position of the canonical deck order: all ranks of suit 0
/// first, then all ranks of suit 1, and so on.
pub open spec fn deck_card(i: int) -> Card {
    Card { rank: rank_of_index(i % 13), suit: suit_of_index(i / 13) }
}

/// The canonical 52-card deck order.
pub open spec fn full_deck() -> Seq<Card> {
    Seq::new(52, |i: int| deck_card(i))
}

/// The canonical position of a card; inverse of `deck_card`.
pub open spec fn card_index(c: Card) -> int {
    suit_index(c.suit) * 13 + rank_index(c.rank)
}

/// Every card sits at its canonical position of the full deck.
pub proof fn lemma_full_deck_at_card_index(c: Card)
    ensures
        0 <= card_index(c) < 52,
        full_deck()[card_index(c)] == c,
{
    let s = suit_index(c.suit);
    let r = rank_index(c.rank);
    assert(0 <= s <= 3);
    assert(0 <= r <= 12);
    assert((s * 13 + r) / 13 == s && (s * 13 + r) % 13 == r) by (nonlinear_arith)
        requires
            0 <= s <= 3 && 0 <= r <= 12,
    ;
}

/// The full deck holds every card, each exactly once.
pub proof fn lemma_full_deck_distinct_complete()
    ensures
        full_deck().len() == 52,
        full_deck().no_duplicates(),
        forall|c: Card| full_deck().contains(c),
{
    assert forall|c: Card| full_deck().contains(c) by {
        lemma_full_deck_at_card_index(c);
    }
    assert forall|i: int, j: int|
        0 <= i < 52 && 0 <= j < 52 && i != j implies full_deck()[i] != full_deck()[j] by {
        lemma_full_deck_at_card_index(full_deck()[i]);
        lemma_full_deck_at_card_index(full_deck()[j]);
        assert(card_index(full_deck()[i]) == i) by (nonlinear_arith)
            requires
                full_deck()[i] == deck_card(i) && 0 <= i < 52 && card_index(
                    full_deck()[i],
                ) == suit_index(suit_of_index(i / 13)) * 13 + rank_index(rank_of_index(i % 13)),
        ;
        assert(card_index(full_deck()[j]) == j) by (nonlinear_arith)
            requires
                full_deck()[j] == deck_card(j) && 0 <= j < 52 && card_index(
                    full_deck()[j],
                ) == suit_index(suit_of_index(j / 13)) * 13 + rank_index(rank_of_index(j % 13)),
        ;
    }
}

/// Law: any reordering of the full deck is a permutation of the 52 distinct
/// (rank, suit) pairs: no duplicates, no omissions. Together with the
/// `shuffle` and `peek_cards` contracts this says that shuffling and then
/// peeking windows that cover the whole deck yields every card exactly once.
pub proof fn lemma_full_deck_permutation(d: Seq<Card>)
    requires
        d.to_multiset() == full_deck().to_multiset(),
    ensures
        d.len() == 52,
        d.no_duplicates(),
        forall|c: Card| d.contains(c),
{
    broadcast use vstd::seq_lib::group_to_multiset_ensures;

    lemma_full_deck_distinct_complete();
    assert(d.to_multiset().len() == d.len());
    assert(full_deck().to_multiset().len() == full_deck().len());
    full_deck().lemma_multiset_has_no_duplicates();
    d.lemma_multiset_has_no_duplicates_conv();
    assert forall|c: Card| d.contains(c) by {
        assert(full_deck().contains(c));
        assert(d.to_multiset().count(c) > 0);
    }
}

/// Adjacent windows of a sequence concatenate to the enclosing window, so a
/// family of peeks that covers the deck reassembles its full order.
pub proof fn lemma_windows_concat(s: Seq<Card>, a: int, b: int, c: int)
    requires
        0 <= a <= b <= c <= s.len(),
    ensures
        s.subrange(a, b) + s.subrange(b, c) == s.subrange(a, c),
{
    assert(s.subrange(a, b) + s.subrange(b, c) =~= s.subrange(a, c));
}

/// Swapping two positions of a sequence preserves its multiset of elements.
proof fn lemma_swap_multiset(s: Seq<Card>, i: int, j: int)
    requires
        0 <= i < s.len(),
        0 <= j < s.len(),
    ensures
        s.update(i, s[j]).update(j, s[i]).to_multiset() == s.to_multiset(),
{
    broadcast use vstd::seq_lib::group_to_multiset_ensures;
    broadcast use vstd::seq_lib::to_multiset_update;
    broadcast use vstd::multiset::group_multiset_axioms;

    if i == j {
        assert(s.update(i, s[j]).update(j, s[i]) =~= s);
    } else {
        let s1 = s.update(i, s[j]);
        assert(s.contains(s[i]));
        assert(s.to_multiset().count(s[i]) > 0);
        assert(s1.to_multiset() == s.to_multiset().insert(s[j]).remove(s[i]));
        assert(s1[j] == s[j]);
        assert(s1.update(j, s[i]).to_multiset() == s1.to_multiset().insert(s[i]).remove(s[j]));
        assert(s.to_multiset().insert(s[j]).remove(s[i]).insert(s[i]).remove(s[j])
            =~= s.to_multiset());
    }
}

/// An ordered sequence of cards. A fresh deck holds the 52 distinct
/// (rank, suit) pairs in canonical order; shuffling permutes them in place.
pub struct Deck {
    deck: Vec<Card>,
}

impl View for Deck {
    type V = Seq<Card>;

    closed spec fn view(&self) -> Seq<Card> {
        self.deck@
    }
}

impl Deck {
    /// Builds the deck in its fixed canonical order: all ranks of suit 0,
    /// then all ranks of suit 1, and so on. No randomness is involved.
    pub fn new() -> (d: Deck)
        ensures
            d@ == full_deck(),
    {
        let mut deck: Vec<Card> = Vec::new();
        let mut i: usize = 0;
        while i < 52
            invariant
                i <= 52,
                deck@.len() == i,
                forall|k: int| 0 <= k < i ==> deck@[k] == deck_card(k),
            decreases 52 - i,
        {
            let suit = if i / 13 == 0 {
                Suit::Spade
            } else if i / 13 == 1 {
                Suit::Heart
            } else if i / 13 == 2 {
                Suit::Club
            } else {
                Suit::Diamond
            };
            let r = i % 13;
            let rank = if r == 0 {
                Rank::Two
            } else if r == 1 {
                Rank::Three
            } else if r == 2 {
                Rank::Four
            } else if r == 3 {
                Rank::Five
            } else if r == 4 {
                Rank::Six
            } else if r == 5 {
                Rank::Seven
            } else if r == 6 {
                Rank::Eight
            } else if r == 7 {
                Rank::Nine
            } else if r == 8 {
                Rank::Ten
            } else if r == 9 {
                Rank::Jack
            } else if r == 10 {
                Rank::Queen
            } else if r == 11 {
                Rank::King
            } else {
                Rank::Ace
            };
            deck.push(Card { rank, suit });
            i += 1;
        }
        assert(deck@ =~= full_deck());
        Deck { deck }
    }

    /// The number of cards in the deck.
    pub fn len(&self) -> (n: usize)
        ensures
            n == self@.len(),
    {
        self.deck.len()
    }

    /// The card at a position of the deck's current order.
    pub fn index(&self, index: usize) -> (c: &Card)
        requires
            index < self@.len(),
        ensures
            *c == self@[index as int],
    {
        &self.deck[index]
    }

    /// One Fisher-Yates step: reduces the drawn value modulo the number of
    /// positions up to and including `i` and swaps positions `i` and
    /// `draw % (i + 1)`. The deck's new order is a function of its old
    /// order, the position and the draw alone, so a shuffle is exactly
    /// reproducible from the sequence of values drawn.
    pub fn fisher_step(&mut self, i: usize, draw: u64)
        requires
            i < old(self)@.len(),
        ensures
            final(self)@ == old(self)@.update(
                i as int,
                old(self)@[(draw as int) % (i as int + 1)],
            ).update((draw as int) % (i as int + 1), old(self)@[i as int]),
    {
        let _n = self.deck.len();
        let j = (draw % (i as u64 + 1)) as usize;
        let a = self.deck[i];
        let b = self.deck[j];
        self.deck[i] = b;
        self.deck[j] = a;
    }

    /// Fisher-Yates shuffle: scans from the top index down to 1, draws one
    /// value per position, and applies [`Deck::fisher_step`], which fixes
    /// exactly what each draw does to the order. The deck is permuted in
    /// place: the multiset of cards is exactly what it was. A source that
    /// reports exhaustion stops the scan early; the cards still form the
    /// same multiset.
    pub fn shuffle<R: RandomSource>(&mut self, prng: &mut R)
        ensures
            final(self)@.len() == old(self)@.len(),
            final(self)@.to_multiset() == old(self)@.to_multiset(),
    {
        let ghost orig: Seq<Card> = self.deck@;
        let mut i: usize = self.deck.len();
        while i > 1
            invariant
                orig == old(self)@,
                i <= orig.len(),
                self.deck@.len() == orig.len(),
                self.deck@.to_multiset() == orig.to_multiset(),
            decreases i,
        {
            i = i - 1;
            match prng.next() {
                Some(x) => {
                    proof {
                        lemma_swap_multiset(
                            self.deck@,
                            i as int,
                            (x as int) % (i as int + 1),
                        );
                    }
                    self.fisher_step(i, x);
                },
                None => {
                    return ;
                },
            }
        }
    }

    /// The window of five consecutive cards starting at `offset`.
    pub fn peek_five_cards(&self, offset: usize) -> (r: &[Card])
        requires
            offset + 5 <= self@.len(),
        ensures
            r@ == self@.subrange(offset as int, offset + 5),
    {
        self.peek_cards(offset, 5)
    }

    /// A read-only window of `len` consecutive cards starting at `offset`.
    /// The deck is not changed and keeps no notion of cards already dealt.
    pub fn peek_cards(&self, offset: usize, len: usize) -> (r: &[Card])
        requires
            offset + len <= self@.len(),
        ensures
            r@ == self@.subrange(offset as int, offset + len),
    {
        let _n = self.deck.len();
        vstd::slice::slice_subrange(self.deck.as_slice(), offset, offset + len)
    }
}

} // verus!
