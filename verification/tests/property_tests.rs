use pocketpoker::card::Card;
use pocketpoker::card::Deck;
use pocketpoker::card::Hand;
use pocketpoker::card::HandRanking;
use pocketpoker::card::RandomSource;
use pocketpoker::card::Rank;
use pocketpoker::card::Rank::{
    Ace, Eight, Five, Four, Jack, King, Nine, Queen, Seven, Six, Ten, Three, Two,
};
use pocketpoker::card::Suit;
use pocketpoker::card::Suit::{Club, Diamond, Heart, Spade};
use pocketpoker::do_hold;
use pocketpoker::get_prng_seed;
use pocketpoker::score::score_hand;
use pocketpoker::ui::HandRankingDisplay;
use pocketpoker::ui::hand_ranking_to_display_bitmap;

/// A small deterministic linear congruential generator standing in for the
/// game's random source.
struct TestRng {
    state: u64,
}

impl TestRng {
    fn new(seed: [u64; 4]) -> TestRng {
        TestRng {
            state: seed[0] ^ seed[1].rotate_left(16) ^ seed[2].rotate_left(32) ^ seed[3].rotate_left(48),
        }
    }
}

impl RandomSource for TestRng {
    fn next(&mut self) -> Option<u64> {
        self.state = self
            .state
            .wrapping_mul(6364136223846793005)
            .wrapping_add(1442695040888963407);
        Some(self.state)
    }
}

/// A source that is exhausted from the start.
struct EmptyRng;

impl RandomSource for EmptyRng {
    fn next(&mut self) -> Option<u64> {
        None
    }
}

fn card(rank: Rank, suit: Suit) -> Card {
    Card { rank, suit }
}

fn hand_of(cards: &[(Rank, Suit)]) -> Hand {
    Hand::new(
        &cards
            .iter()
            .map(|&(rank, suit)| Card { rank, suit })
            .collect::<Vec<_>>()[..],
    )
}

fn rank_suit_pairs(cards: &[Card]) -> Vec<(usize, usize)> {
    let mut v = cards
        .iter()
        .map(|c| {
            (
                c.rank.to_int_aces_high(),
                match c.suit {
                    Suit::Spade => 0,
                    Suit::Heart => 1,
                    Suit::Club => 2,
                    Suit::Diamond => 3,
                },
            )
        })
        .collect::<Vec<_>>();
    v.sort();
    v
}

#[test]
fn cards_compare_by_rank_only() {
    let a = Card { rank: Ace, suit: Spade };
    let b = Card { rank: Ace, suit: Heart };
    let c = Card { rank: King, suit: Heart };
    assert!(a == b);
    assert!(a != c);
    assert!(c < a);
    assert!(a > c);
}

#[test]
fn new_deck_is_canonical() {
    let deck = Deck::new();
    assert_eq!(deck.len(), 52);
    assert_eq!(deck.index(0).rank, Rank::Two);
    assert_eq!(deck.index(0).suit, Suit::Spade);
    assert_eq!(deck.index(12).rank, Rank::Ace);
    assert_eq!(deck.index(12).suit, Suit::Spade);
    assert_eq!(deck.index(13).rank, Rank::Two);
    assert_eq!(deck.index(13).suit, Suit::Heart);
    assert_eq!(deck.index(51).rank, Rank::Ace);
    assert_eq!(deck.index(51).suit, Suit::Diamond);
}

#[test]
fn fisher_step_swaps_the_drawn_position() {
    let mut deck = Deck::new();
    let before_0 = *deck.index(0);
    let before_51 = *deck.index(51);
    // a draw of 52 at position 51 reduces to 0, so positions 51 and 0 swap
    deck.fisher_step(51, 52);
    assert_eq!(deck.index(0).rank, before_51.rank);
    assert_eq!(deck.index(0).suit, before_51.suit);
    assert_eq!(deck.index(51).rank, before_0.rank);
    assert_eq!(deck.index(51).suit, before_0.suit);
    // a draw that reduces to the position itself moves nothing
    let before_10 = *deck.index(10);
    deck.fisher_step(10, 10);
    assert_eq!(deck.index(10).rank, before_10.rank);
    assert_eq!(deck.index(10).suit, before_10.suit);
}

#[test]
fn shuffle_is_a_permutation() {
    let mut deck = Deck::new();
    let mut rng = TestRng::new([0, 1, 123456789, 987654321]);
    deck.shuffle(&mut rng);

    let mut seen = Vec::new();
    let mut offset = 0;
    while offset < 52 {
        let window = deck.peek_cards(offset, 13);
        seen.extend_from_slice(window);
        offset += 13;
    }
    let pairs = rank_suit_pairs(&seen);
    assert_eq!(pairs.len(), 52);
    for s in 0..4 {
        for r in 2..=14 {
            assert!(pairs.binary_search(&(r, s)).is_ok());
        }
    }
    // no duplicates: 52 distinct pairs in a 52-entry sorted list
    for w in pairs.windows(2) {
        assert!(w[0] < w[1]);
    }
}

#[test]
fn shuffle_is_reproducible_for_a_seed() {
    let seed = [0u64, 1, 424242, 171717];
    let mut deck1 = Deck::new();
    let mut deck2 = Deck::new();
    let mut rng1 = TestRng::new(seed);
    let mut rng2 = TestRng::new(seed);
    deck1.shuffle(&mut rng1);
    deck2.shuffle(&mut rng2);
    for i in 0..52 {
        assert_eq!(deck1.index(i).rank, deck2.index(i).rank);
        assert_eq!(deck1.index(i).suit, deck2.index(i).suit);
    }

    // a different seed rearranges the deck
    let mut deck3 = Deck::new();
    let mut rng3 = TestRng::new([0, 1, 5, 5]);
    deck3.shuffle(&mut rng3);
    let mut same = true;
    for i in 0..52 {
        if deck1.index(i).rank != deck3.index(i).rank
            || deck1.index(i).suit != deck3.index(i).suit
        {
            same = false;
        }
    }
    assert!(!same);
}

#[test]
fn exhausted_source_still_keeps_all_cards() {
    let mut deck = Deck::new();
    let mut rng = EmptyRng;
    deck.shuffle(&mut rng);
    let all = deck.peek_cards(0, 52);
    let pairs = rank_suit_pairs(all);
    assert_eq!(pairs.len(), 52);
    for w in pairs.windows(2) {
        assert!(w[0] < w[1]);
    }
}

#[test]
fn runs_and_kickers_partition_the_hand() {
    let input = [
        card(King, Spade),
        card(Eight, Diamond),
        card(King, Heart),
        card(Two, Club),
        card(Eight, Club),
    ];
    let hand = Hand::new(&input[..]);
    let mut collected = Vec::new();
    for run in hand.runs() {
        collected.extend_from_slice(&run[..]);
    }
    collected.extend_from_slice(hand.kickers());
    assert_eq!(rank_suit_pairs(&collected), rank_suit_pairs(&input));
    assert_eq!(*hand.ranking(), HandRanking::TwoPair);
}

#[test]
fn permutations_classify_identically() {
    let a = hand_of(&[
        (King, Spade),
        (King, Heart),
        (Eight, Diamond),
        (Eight, Club),
        (Two, Club),
    ]);
    let b = hand_of(&[
        (Two, Club),
        (Eight, Club),
        (King, Heart),
        (Eight, Diamond),
        (King, Spade),
    ]);
    assert_eq!(*a.ranking(), *b.ranking());
    let ranks_a: Vec<Vec<Rank>> = a.runs().iter().map(|r| r.iter().map(|c| c.rank).collect()).collect();
    let ranks_b: Vec<Vec<Rank>> = b.runs().iter().map(|r| r.iter().map(|c| c.rank).collect()).collect();
    assert_eq!(ranks_a, ranks_b);
    let kick_a: Vec<Rank> = a.kickers().iter().map(|c| c.rank).collect();
    let kick_b: Vec<Rank> = b.kickers().iter().map(|c| c.rank).collect();
    assert_eq!(kick_a, kick_b);
    assert!(a == b);
}

#[test]
fn royal_flush_scores_three_thousand() {
    let hand = hand_of(&[
        (Ten, Diamond),
        (Jack, Diamond),
        (Queen, Diamond),
        (King, Diamond),
        (Ace, Diamond),
    ]);
    assert_eq!(*hand.ranking(), HandRanking::RoyalFlush);
    assert_eq!(score_hand(&hand), 3000);
}

#[test]
fn five_high_straight_kickers_lead_with_the_ace() {
    let hand = hand_of(&[
        (Ace, Heart),
        (Two, Spade),
        (Three, Spade),
        (Four, Spade),
        (Five, Spade),
    ]);
    assert_eq!(*hand.ranking(), HandRanking::Straight);
    let kicks: Vec<Rank> = hand.kickers().iter().map(|c| c.rank).collect();
    assert_eq!(kicks, vec![Ace, Two, Three, Four, Five]);
}

#[test]
fn jacks_or_better_pair_rule() {
    let jacks = hand_of(&[
        (Jack, Spade),
        (Jack, Heart),
        (Two, Diamond),
        (Three, Club),
        (Four, Spade),
    ]);
    assert_eq!(*jacks.ranking(), HandRanking::Pair);
    assert_eq!(score_hand(&jacks), 5);

    let nines = hand_of(&[
        (Nine, Spade),
        (Nine, Heart),
        (Two, Diamond),
        (Three, Club),
        (Four, Spade),
    ]);
    assert_eq!(*nines.ranking(), HandRanking::Pair);
    assert_eq!(score_hand(&nines), 0);
}

#[test]
fn full_house_aces_beat_kings() {
    let kings = hand_of(&[
        (King, Spade),
        (King, Heart),
        (Eight, Diamond),
        (Eight, Club),
        (Eight, Spade),
    ]);
    let aces = hand_of(&[
        (Ace, Spade),
        (Ace, Heart),
        (Eight, Diamond),
        (Eight, Club),
        (Eight, Spade),
    ]);
    assert_eq!(*kings.ranking(), HandRanking::FullHouse);
    assert_eq!(*aces.ranking(), HandRanking::FullHouse);
    assert!(aces > kings);
}

#[test]
fn high_card_scores_zero() {
    let hand = hand_of(&[
        (Two, Spade),
        (Three, Heart),
        (Four, Club),
        (Five, Diamond),
        (Seven, Spade),
    ]);
    assert_eq!(*hand.ranking(), HandRanking::HighCard);
    assert_eq!(score_hand(&hand), 0);
}

#[test]
fn remaining_score_table() {
    let three = hand_of(&[
        (Queen, Spade),
        (Queen, Heart),
        (Queen, Club),
        (Seven, Diamond),
        (Eight, Spade),
    ]);
    assert_eq!(*three.ranking(), HandRanking::ThreeOfAKind);
    assert_eq!(score_hand(&three), 15);

    let straight = hand_of(&[
        (Nine, Spade),
        (Ten, Heart),
        (Jack, Club),
        (Queen, Diamond),
        (King, Spade),
    ]);
    assert_eq!(*straight.ranking(), HandRanking::Straight);
    assert_eq!(score_hand(&straight), 20);

    let flush = hand_of(&[
        (Two, Spade),
        (Five, Spade),
        (Seven, Spade),
        (Nine, Spade),
        (King, Spade),
    ]);
    assert_eq!(*flush.ranking(), HandRanking::Flush);
    assert_eq!(score_hand(&flush), 25);

    let four = hand_of(&[
        (Nine, Spade),
        (Nine, Heart),
        (Nine, Club),
        (Nine, Diamond),
        (Ace, Spade),
    ]);
    assert_eq!(*four.ranking(), HandRanking::FourOfAKind);
    assert_eq!(score_hand(&four), 125);

    let straight_flush = hand_of(&[
        (Five, Heart),
        (Six, Heart),
        (Seven, Heart),
        (Eight, Heart),
        (Nine, Heart),
    ]);
    assert_eq!(*straight_flush.ranking(), HandRanking::StraightFlush);
    assert_eq!(score_hand(&straight_flush), 250);

    let two_pair = hand_of(&[
        (Queen, Spade),
        (Queen, Heart),
        (Seven, Club),
        (Seven, Diamond),
        (Two, Spade),
    ]);
    assert_eq!(*two_pair.ranking(), HandRanking::TwoPair);
    assert_eq!(score_hand(&two_pair), 10);
}

#[test]
fn prng_seed_has_the_fixed_word_pair() {
    let seed = get_prng_seed();
    assert_eq!(seed.len(), 4);
    assert_eq!(seed[0], 0);
    assert_eq!(seed[1], 1);
}

#[test]
fn do_hold_keeps_held_cards_and_deals_the_rest() {
    let deck = Deck::new();
    let initial = deck.peek_five_cards(0).to_vec();
    let held = [true, false, true, false, true];
    let redrawn = do_hold(&deck, &initial[..], &held[..]);
    assert_eq!(redrawn.len(), 5);
    // held positions keep their card
    assert_eq!(redrawn[0].rank, initial[0].rank);
    assert_eq!(redrawn[2].rank, initial[2].rank);
    assert_eq!(redrawn[4].rank, initial[4].rank);
    // the two redraws come from positions five and six of the deck
    assert_eq!(redrawn[1].rank, deck.index(5).rank);
    assert_eq!(redrawn[1].suit, deck.index(5).suit);
    assert_eq!(redrawn[3].rank, deck.index(6).rank);
    assert_eq!(redrawn[3].suit, deck.index(6).suit);
}

#[test]
fn display_bitmaps_match_the_label_cells() {
    assert_eq!(hand_ranking_to_display_bitmap(&HandRanking::HighCard), 0);
    assert_eq!(hand_ranking_to_display_bitmap(&HandRanking::Pair), 0b10);
    assert_eq!(hand_ranking_to_display_bitmap(&HandRanking::TwoPair), 0b11);
    assert_eq!(
        hand_ranking_to_display_bitmap(&HandRanking::ThreeOfAKind),
        0b110_0000
    );
    assert_eq!(
        hand_ranking_to_display_bitmap(&HandRanking::Straight),
        0b1000_0000
    );
    assert_eq!(
        hand_ranking_to_display_bitmap(&HandRanking::Flush),
        0b1_0000_0000
    );
    assert_eq!(hand_ranking_to_display_bitmap(&HandRanking::FullHouse), 0b1000);
    assert_eq!(
        hand_ranking_to_display_bitmap(&HandRanking::FourOfAKind),
        0b100_0100
    );
    assert_eq!(
        hand_ranking_to_display_bitmap(&HandRanking::StraightFlush),
        0b1_1000_0000
    );
    assert_eq!(
        hand_ranking_to_display_bitmap(&HandRanking::RoyalFlush),
        0b1_0001_0000
    );
    assert_eq!(hand_ranking_to_display_bitmap(&HandRanking::FiveOfAKind), 0);
    let _blank = HandRankingDisplay(None);
    let _lit = HandRankingDisplay(Some(HandRanking::Pair));
}

#[test]
fn debug_info_lists_the_score() {
    let hand = hand_of(&[
        (Ten, Diamond),
        (Jack, Diamond),
        (Queen, Diamond),
        (King, Diamond),
        (Ace, Diamond),
    ]);
    let info = hand.display_hand_debug_info();
    assert!(info.contains("3000"));
    assert!(info.contains("points"));
}

#[test]
fn comparison_is_a_total_order_on_samples() {
    let a = hand_of(&[
        (Two, Spade),
        (Three, Heart),
        (Four, Club),
        (Five, Diamond),
        (Seven, Spade),
    ]);
    let b = hand_of(&[
        (Jack, Spade),
        (Jack, Heart),
        (Two, Diamond),
        (Three, Club),
        (Four, Spade),
    ]);
    let c = hand_of(&[
        (Queen, Spade),
        (Queen, Heart),
        (Seven, Club),
        (Seven, Diamond),
        (Two, Spade),
    ]);
    assert!(a < b && b < c && a < c);
    assert!(c > b && b > a && c > a);
    // equal hands up to suits
    let b2 = hand_of(&[
        (Jack, Club),
        (Jack, Diamond),
        (Two, Spade),
        (Three, Heart),
        (Four, Heart),
    ]);
    assert!(b == b2);
    assert!(!(b < b2) && !(b2 < b));
}
