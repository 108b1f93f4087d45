#![allow(non_upper_case_globals)]

use poker_multiverse::cards::{
    calculate_winner, calculate_winners, fresh_deck, split_by_rank, split_by_sequence, split_by_suite,
    type_of_hand, type_of_hand_5, Card, HandType, Suite,
};

const Clubs: Suite = Suite::Clubs;
const Hearts: Suite = Suite::Hearts;
const Spades: Suite = Suite::Spades;
const Diamonds: Suite = Suite::Diamonds;

fn c(suite: Suite, rank: u8) -> Card {
    Card::new(suite, rank)
}

#[test]
fn fresh_deck_holds_each_card_once() {
    let deck = fresh_deck();
    assert_eq!(deck.len(), 52);
    for i in 0..deck.len() {
        for j in (i + 1)..deck.len() {
            assert_ne!(deck[i], deck[j]);
        }
    }
    assert_eq!(deck[0], c(Suite::Clubs, 1));
    assert_eq!(deck[13], c(Suite::Hearts, 1));
    assert_eq!(deck[51], c(Suite::Diamonds, 13));
}

#[test]
fn split_by_rank_counts_kings_too() {
    let hand = vec![c(Suite::Clubs, 13), c(Suite::Hearts, 13), c(Suite::Spades, 2), c(Suite::Clubs, 5)];
    let counts = split_by_rank(&hand);
    assert_eq!(counts.len(), 13);
    assert_eq!(&counts[..3], &[2, 1, 1]);
    assert!(counts[3..].iter().all(|&x| x == 0));
}

#[test]
fn split_by_suite_is_descending() {
    let hand = vec![c(Suite::Clubs, 1), c(Suite::Spades, 2), c(Suite::Spades, 3), c(Suite::Spades, 9)];
    assert_eq!(split_by_suite(&hand), vec![3, 1, 0, 0]);
}

#[test]
fn split_by_sequence_breaks_runs_at_duplicates() {
    let hand = vec![
        c(Suite::Clubs, 4),
        c(Suite::Hearts, 2),
        c(Suite::Spades, 3),
        c(Suite::Clubs, 3),
        c(Suite::Diamonds, 9),
        c(Suite::Hearts, 5),
    ];
    // sorted ranks 2 3 3 4 5 9: runs 2, 3 (3 4 5), 1
    assert_eq!(split_by_sequence(&hand), vec![3, 2, 1]);
}

#[test]
fn split_by_sequence_does_not_wrap_the_ace() {
    let hand = vec![
        c(Suite::Clubs, 10),
        c(Suite::Hearts, 11),
        c(Suite::Spades, 12),
        c(Suite::Clubs, 13),
        c(Suite::Diamonds, 1),
    ];
    assert_eq!(split_by_sequence(&hand), vec![4, 1]);
    assert_eq!(type_of_hand_5(&hand), HandType::NoPair);
}

#[test]
fn every_category_of_five_cards() {
    let cases: Vec<(Vec<Card>, HandType)> = vec![
        (vec![c(Clubs, 7), c(Hearts, 7), c(Spades, 7), c(Diamonds, 7), c(Clubs, 7)], HandType::FiveOfAKind),
        (vec![c(Hearts, 5), c(Hearts, 6), c(Hearts, 7), c(Hearts, 8), c(Hearts, 9)], HandType::StraightFlush),
        (vec![c(Clubs, 7), c(Hearts, 7), c(Spades, 7), c(Diamonds, 7), c(Clubs, 2)], HandType::FourOfAKind),
        (vec![c(Clubs, 7), c(Hearts, 7), c(Spades, 7), c(Diamonds, 2), c(Clubs, 2)], HandType::FullHouse),
        (vec![c(Spades, 2), c(Spades, 6), c(Spades, 7), c(Spades, 11), c(Spades, 13)], HandType::Flush),
        (vec![c(Spades, 2), c(Hearts, 3), c(Spades, 4), c(Clubs, 5), c(Spades, 6)], HandType::Straight),
        (vec![c(Clubs, 7), c(Hearts, 7), c(Spades, 7), c(Diamonds, 3), c(Clubs, 2)], HandType::ThreeOfAKind),
        (vec![c(Clubs, 7), c(Hearts, 7), c(Spades, 3), c(Diamonds, 3), c(Clubs, 2)], HandType::TwoPairs),
        (vec![c(Clubs, 7), c(Hearts, 7), c(Spades, 4), c(Diamonds, 3), c(Clubs, 2)], HandType::OnePair),
        (vec![c(Clubs, 13), c(Hearts, 7), c(Spades, 4), c(Diamonds, 3), c(Clubs, 2)], HandType::NoPair),
    ];
    for (hand, expected) in cases {
        assert_eq!(type_of_hand_5(&hand), expected);
        assert_eq!(type_of_hand(&hand), expected);
    }
}

#[test]
fn strength_follows_the_category_order() {
    assert_eq!(HandType::NoPair.strength(), 0);
    assert_eq!(HandType::Flush.strength(), 5);
    assert_eq!(HandType::FiveOfAKind.strength(), 9);
    assert!(HandType::FiveOfAKind > HandType::StraightFlush);
}

#[test]
fn seven_cards_take_the_best_five() {
    let hand = vec![
        c(Clubs, 9),
        c(Hearts, 2),
        c(Clubs, 3),
        c(Diamonds, 9),
        c(Clubs, 11),
        c(Clubs, 5),
        c(Clubs, 13),
    ];
    assert_eq!(type_of_hand(&hand), HandType::Flush);
}

#[test]
fn fewer_than_five_cards_rank_as_no_pair() {
    let hand = vec![c(Suite::Clubs, 9), c(Suite::Hearts, 9)];
    assert_eq!(type_of_hand(&hand), HandType::NoPair);
    assert_eq!(type_of_hand(&vec![]), HandType::NoPair);
}

#[test]
fn five_of_a_kind_within_seven_cards_wins() {
    let hand = vec![
        c(Clubs, 4),
        c(Hearts, 4),
        c(Hearts, 12),
        c(Spades, 4),
        c(Diamonds, 4),
        c(Spades, 1),
        c(Clubs, 4),
    ];
    assert_eq!(type_of_hand(&hand), HandType::FiveOfAKind);
}

#[test]
fn rank_ignores_the_order_of_the_cards() {
    let hand = vec![
        c(Clubs, 9),
        c(Hearts, 10),
        c(Clubs, 11),
        c(Diamonds, 12),
        c(Clubs, 13),
        c(Spades, 2),
        c(Hearts, 2),
    ];
    let mut reversed = hand.clone();
    reversed.reverse();
    let mut rotated = hand.clone();
    rotated.rotate_left(3);
    assert_eq!(type_of_hand(&hand), HandType::Straight);
    assert_eq!(type_of_hand(&reversed), HandType::Straight);
    assert_eq!(type_of_hand(&rotated), HandType::Straight);
}

#[test]
fn calculate_winner_takes_the_last_of_the_best() {
    let pair = vec![c(Clubs, 7), c(Hearts, 7), c(Spades, 4), c(Diamonds, 3), c(Clubs, 2)];
    let nothing = vec![c(Clubs, 13), c(Hearts, 7), c(Spades, 4), c(Diamonds, 3), c(Clubs, 2)];
    let hands = vec![('a', pair.clone()), ('b', nothing.clone()), ('c', pair.clone()), ('d', nothing)];
    assert_eq!(calculate_winner(&hands), 'c');
}

#[test]
fn calculate_winners_returns_every_tied_hand() {
    let pair = vec![c(Clubs, 7), c(Hearts, 7), c(Spades, 4), c(Diamonds, 3), c(Clubs, 2)];
    let nothing = vec![c(Clubs, 13), c(Hearts, 7), c(Spades, 4), c(Diamonds, 3), c(Clubs, 2)];
    let hands = vec![(0usize, pair.clone()), (1, nothing), (4, pair)];
    let (winners, top) = calculate_winners(&hands);
    assert_eq!(winners, vec![0, 4]);
    assert_eq!(top, HandType::OnePair);
    let (none, no_top) = calculate_winners(&vec![]);
    assert!(none.is_empty());
    assert_eq!(no_top, HandType::NoPair);
}

#[test]
fn calculate_winner_picks_the_five_of_a_kind() {
    let five = vec![c(Clubs, 4), c(Hearts, 4), c(Spades, 4), c(Diamonds, 4), c(Clubs, 4), c(Hearts, 9)];
    let flush = vec![c(Spades, 2), c(Spades, 6), c(Spades, 7), c(Spades, 11), c(Spades, 13)];
    let hands = vec![(1u8, five), (2u8, flush.clone()), (3u8, flush)];
    assert_eq!(calculate_winner(&hands), 1);
}
