use pocketpoker::card::Card;
use pocketpoker::card::Hand;
use pocketpoker::card::HandRanking;
use pocketpoker::card::HandRanking::{RoyalFlush, Straight, StraightFlush};
use pocketpoker::card::Rank;
use pocketpoker::card::Rank::{
    Ace, Eight, Five, Four, Jack, King, Nine, Queen, Seven, Six, Ten, Three, Two,
};
use pocketpoker::card::Suit;
use pocketpoker::card::Suit::{Club, Diamond, Heart, Spade};
use pocketpoker::card::sort_cards;

#[test]
fn royal_flush() {

    let hand = Hand::new(
        &[
            (Ten, Diamond),
            (Jack, Diamond),
            (Queen, Diamond),
            (King, Diamond),
            (Ace, Diamond),
        ]
        .into_iter()
        .map(|(rank, suit)| Card { rank, suit })
        .collect::<Vec<_>>()[..],
    );

    match hand.ranking() {
        RoyalFlush => (),
        _ => panic!(),
    }
}

#[test]
fn ace_high_straight() {

    let hand = Hand::new(
        &[
            (Ten, Heart),
            (Jack, Spade),
            (Queen, Spade),
            (King, Spade),
            (Ace, Spade),
        ]
        .into_iter()
        .map(|(rank, suit)| Card { rank, suit })
        .collect::<Vec<_>>()[..],
    );

    match hand.ranking() {
        HandRanking::Straight => (),
        _ => panic!(),
    }
}

#[test]
fn five_high_straight() {

    let hand = Hand::new(
        &[
            (Ace, Heart),
            (Two, Spade),
            (Three, Spade),
            (Four, Spade),
            (Five, Spade),
        ]
        .into_iter()
        .map(|(rank, suit)| Card { rank, suit })
        .collect::<Vec<_>>()[..],
    );

    let copy = hand.cards().to_vec();

    let sorted = sort_cards(&copy);

    let is_five_high_straight = sorted.iter().map(|card| card.rank).collect::<Vec<_>>()
        == vec![Two, Three, Four, Five, Ace];


    let is_straight = match &hand.ranking() {
        Straight | StraightFlush | RoyalFlush => true,
        _ => false,
    };

    assert!(is_straight);
    assert!(is_five_high_straight);
}

#[test]
fn sorting() {
    let mut a = [4, 3, 2];
    a.sort();
    let mut b = vec![vec![8, 3], vec![6, 2, 4], vec![2]];
    b.sort();
    assert_eq!(&b[..], vec![vec![2], vec![6, 2, 4], vec![8, 3]]);

    let winner = (vec![vec![11, 11]], vec![5, 6, 7]);
    let loser = (vec![vec![10, 10]], vec![5, 6, 9]);
    assert!(winner > loser);
}

#[test]
fn five_high_straight_compare() {

    let hand = Hand::new(
        &[
            (Ace, Heart),
            (Two, Spade),
            (Three, Spade),
            (Four, Spade),
            (Five, Spade),
        ]
        .into_iter()
        .map(|(rank, suit)| Card { rank, suit })
        .collect::<Vec<_>>()[..],
    );

    let other_hand = Hand::new(
        &[
            (Two, Spade),
            (Three, Spade),
            (Four, Spade),
            (Five, Spade),
            (Six, Heart),
        ]
        .into_iter()
        .map(|(rank, suit)| Card { rank, suit })
        .collect::<Vec<_>>()[..],
    );

    assert!(hand < other_hand);
}

#[test]
fn nonflush_sorting() {

    let hand_ranks = &[
        // high card
        [Two, Three, Four, Five, Seven],
        [Two, Three, Four, Five, Eight],
        [Two, Four, Five, Six, Eight],
        [Two, Five, Six, Seven, Eight],
        // pair
        [Jack, Jack, Two, Three, Four],
        [Queen, Queen, Two, Three, Four],
        [Queen, Queen, Three, Four, Five],
        // two pair
        [Queen, Queen, Seven, Seven, Two],
        [Queen, Queen, Seven, Seven, Three],
        [Queen, Queen, Eight, Eight, Three],
        // three of a kind
        [Queen, Queen, Queen, Seven, Eight],
        // straight
        [Queen, Jack, Ten, Nine, Eight],
        [King, Queen, Jack, Ten, Nine],
        // full house
        [King, King, Eight, Eight, Eight],
        [Ace, Ace, Eight, Eight, Eight],
        [Ace, Ace, Nine, Nine, Nine],
        // four of a kind
        [Nine, Nine, Nine, Nine, Ace],
        [Ace, Ace, Ace, Ace, Nine],
    ];

    let hands = hand_ranks
        .iter()
        .map(|ranks| hand_from_ranks(&ranks[..]))
        .collect::<Vec<_>>();

    let mut hands_copy = hand_ranks
        .iter()
        .map(|ranks| hand_from_ranks(&ranks[..]))
        .collect::<Vec<_>>();

    hands_copy.sort_by(|a, b| a.partial_cmp(b).unwrap());
    let sorted_hands = hands_copy;

    assert_eq!(&hands, &sorted_hands)
}

fn hand_from_ranks(ranks: &[Rank]) -> Hand {
    Hand::new(
        &ranks
            .into_iter()
            .enumerate()
            .map(|(i, &rank)| Card {
                rank,
                suit: match i % 4 {
                    0 => Suit::Spade,
                    1 => Suit::Heart,
                    2 => Suit::Club,
                    _ => Suit::Diamond,
                },
            })
            .collect::<Vec<_>>()[..],
    )
}
