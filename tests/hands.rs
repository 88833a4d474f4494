use std::cmp::Ordering;

use poker_hands::card::{is_red, rank_symbol, rank_value, Card, Rank, Suit};
use poker_hands::error::PokerError;
use poker_hands::evaluate::evaluate_hand;
use poker_hands::hand_rank::HandRank;
use poker_hands::winner::determine_winner;

fn card(suit: Suit, rank: Rank) -> Card {
    Card::new(suit, rank)
}

fn n(v: u8) -> Rank {
    Rank::Number(v)
}

fn pair_of_kings() -> Vec<Card> {
    vec![
        card(Suit::Spades, Rank::King),
        card(Suit::Hearts, Rank::King),
        card(Suit::Diamonds, n(2)),
        card(Suit::Clubs, n(7)),
        card(Suit::Spades, n(9)),
    ]
}

fn heart_flush() -> Vec<Card> {
    vec![
        card(Suit::Hearts, n(2)),
        card(Suit::Hearts, n(9)),
        card(Suit::Hearts, Rank::Jack),
        card(Suit::Hearts, n(4)),
        card(Suit::Hearts, n(6)),
    ]
}

fn six_to_ten_straight() -> Vec<Card> {
    vec![
        card(Suit::Hearts, n(6)),
        card(Suit::Spades, n(7)),
        card(Suit::Clubs, n(8)),
        card(Suit::Diamonds, n(9)),
        card(Suit::Hearts, n(10)),
    ]
}

fn ace_high() -> Vec<Card> {
    vec![
        card(Suit::Hearts, Rank::Ace),
        card(Suit::Spades, n(3)),
        card(Suit::Clubs, n(8)),
        card(Suit::Diamonds, Rank::Queen),
        card(Suit::Hearts, n(5)),
    ]
}

#[test]
fn rank_values_follow_the_rank_order() {
    assert_eq!(rank_value(&n(2)), 2);
    assert_eq!(rank_value(&n(10)), 10);
    assert_eq!(rank_value(&Rank::Jack), 11);
    assert_eq!(rank_value(&Rank::Queen), 12);
    assert_eq!(rank_value(&Rank::King), 13);
    assert_eq!(rank_value(&Rank::Ace), 14);
}

#[test]
fn numbered_rank_is_checked_on_construction() {
    assert_eq!(Rank::number(2), Ok(n(2)));
    assert_eq!(Rank::number(10), Ok(n(10)));
    assert_eq!(Rank::number(1), Err(PokerError::InvalidRank { value: 1 }));
    assert_eq!(Rank::number(11), Err(PokerError::InvalidRank { value: 11 }));
}

#[test]
fn rank_from_value() {
    assert_eq!(Rank::from_value(7), n(7));
    assert_eq!(Rank::from_value(11), Rank::Jack);
    assert_eq!(Rank::from_value(14), Rank::Ace);
}

#[test]
fn high_card_lists_all_ranks_highest_first() {
    let r = evaluate_hand(&ace_high());
    assert_eq!(r, HandRank::HighCard(vec![Rank::Ace, Rank::Queen, n(8), n(5), n(3)]));
    match r {
        HandRank::HighCard(v) => assert_eq!(v, vec![Rank::Ace, Rank::Queen, n(8), n(5), n(3)]),
        other => panic!("expected a high card, got {:?}", other),
    }
}

#[test]
fn one_pair() {
    assert!(matches!(evaluate_hand(&pair_of_kings()), HandRank::OnePair(Rank::King)));
}

#[test]
fn two_pair_puts_the_higher_pair_first() {
    let hand = vec![
        card(Suit::Spades, n(4)),
        card(Suit::Hearts, Rank::Jack),
        card(Suit::Diamonds, n(4)),
        card(Suit::Clubs, Rank::Jack),
        card(Suit::Spades, n(9)),
    ];
    assert!(matches!(evaluate_hand(&hand), HandRank::TwoPair(Rank::Jack, Rank::Number(4))));
}

#[test]
fn three_of_a_kind() {
    let hand = vec![
        card(Suit::Spades, n(7)),
        card(Suit::Hearts, n(7)),
        card(Suit::Diamonds, n(7)),
        card(Suit::Clubs, Rank::Ace),
        card(Suit::Spades, n(2)),
    ];
    assert!(matches!(evaluate_hand(&hand), HandRank::ThreeOfAKind(Rank::Number(7))));
}

#[test]
fn straight_from_an_ascending_run() {
    let hand = vec![
        card(Suit::Hearts, n(7)),
        card(Suit::Spades, n(5)),
        card(Suit::Clubs, n(9)),
        card(Suit::Diamonds, n(6)),
        card(Suit::Hearts, n(8)),
    ];
    assert!(matches!(evaluate_hand(&hand), HandRank::Straight(Rank::Number(9))));
}

#[test]
fn straight_with_a_low_ace_is_five_high() {
    let hand = vec![
        card(Suit::Hearts, Rank::Ace),
        card(Suit::Spades, n(2)),
        card(Suit::Clubs, n(3)),
        card(Suit::Diamonds, n(4)),
        card(Suit::Hearts, n(5)),
    ];
    assert!(matches!(evaluate_hand(&hand), HandRank::Straight(Rank::Number(5))));
}

#[test]
fn broadway_straight_is_ace_high() {
    let hand = vec![
        card(Suit::Hearts, Rank::Ace),
        card(Suit::Spades, Rank::King),
        card(Suit::Clubs, Rank::Queen),
        card(Suit::Diamonds, Rank::Jack),
        card(Suit::Hearts, n(10)),
    ];
    assert!(matches!(evaluate_hand(&hand), HandRank::Straight(Rank::Ace)));
}

#[test]
fn flush_lists_all_ranks_highest_first() {
    let r = evaluate_hand(&heart_flush());
    match r {
        HandRank::Flush(v) => assert_eq!(v, vec![Rank::Jack, n(9), n(6), n(4), n(2)]),
        other => panic!("expected a flush, got {:?}", other),
    }
}

#[test]
fn full_house() {
    let hand = vec![
        card(Suit::Spades, n(3)),
        card(Suit::Hearts, Rank::Queen),
        card(Suit::Diamonds, n(3)),
        card(Suit::Clubs, Rank::Queen),
        card(Suit::Spades, n(3)),
    ];
    assert!(matches!(evaluate_hand(&hand), HandRank::FullHouse(Rank::Number(3), Rank::Queen)));
}

#[test]
fn four_of_a_kind() {
    let hand = vec![
        card(Suit::Spades, n(8)),
        card(Suit::Hearts, n(8)),
        card(Suit::Diamonds, Rank::King),
        card(Suit::Clubs, n(8)),
        card(Suit::Diamonds, n(8)),
    ];
    assert!(matches!(evaluate_hand(&hand), HandRank::FourOfAKind(Rank::Number(8))));
}

#[test]
fn straight_flush() {
    let hand = vec![
        card(Suit::Clubs, n(9)),
        card(Suit::Clubs, n(5)),
        card(Suit::Clubs, n(8)),
        card(Suit::Clubs, n(6)),
        card(Suit::Clubs, n(7)),
    ];
    assert!(matches!(evaluate_hand(&hand), HandRank::StraightFlush(Rank::Number(9))));
}

#[test]
fn royal_flush() {
    let hand = vec![
        card(Suit::Spades, n(10)),
        card(Suit::Spades, Rank::Ace),
        card(Suit::Spades, Rank::Queen),
        card(Suit::Spades, Rank::King),
        card(Suit::Spades, Rank::Jack),
    ];
    assert_eq!(evaluate_hand(&hand), HandRank::RoyalFlush);
}

#[test]
fn suited_ace_to_five_is_a_five_high_straight_flush_not_royal() {
    let hand = vec![
        card(Suit::Diamonds, Rank::Ace),
        card(Suit::Diamonds, n(2)),
        card(Suit::Diamonds, n(3)),
        card(Suit::Diamonds, n(4)),
        card(Suit::Diamonds, n(5)),
    ];
    let r = evaluate_hand(&hand);
    assert!(matches!(r, HandRank::StraightFlush(Rank::Number(5))));
    assert_ne!(r, HandRank::RoyalFlush);
    assert_eq!(r.compare(&HandRank::StraightFlush(n(6))), Ordering::Less);
}

#[test]
fn order_of_cards_does_not_matter() {
    let mut hand = pair_of_kings();
    let a = evaluate_hand(&hand);
    hand.reverse();
    assert_eq!(evaluate_hand(&hand), a);
}

#[test]
fn five_identical_cards_are_not_a_group() {
    let same = vec![card(Suit::Clubs, n(4)); 5];
    assert_eq!(evaluate_hand(&same), HandRank::Flush(vec![n(4); 5]));
    let mixed = vec![
        card(Suit::Clubs, n(4)),
        card(Suit::Hearts, n(4)),
        card(Suit::Clubs, n(4)),
        card(Suit::Clubs, n(4)),
        card(Suit::Clubs, n(4)),
    ];
    assert_eq!(evaluate_hand(&mixed), HandRank::HighCard(vec![n(4); 5]));
}

#[test]
fn category_index_runs_from_high_card_to_royal_flush() {
    assert_eq!(HandRank::HighCard(vec![]).category_index(), 0);
    assert_eq!(HandRank::OnePair(n(2)).category_index(), 1);
    assert_eq!(HandRank::TwoPair(n(3), n(2)).category_index(), 2);
    assert_eq!(HandRank::ThreeOfAKind(n(2)).category_index(), 3);
    assert_eq!(HandRank::Straight(n(5)).category_index(), 4);
    assert_eq!(HandRank::Flush(vec![]).category_index(), 5);
    assert_eq!(HandRank::FullHouse(n(2), n(3)).category_index(), 6);
    assert_eq!(HandRank::FourOfAKind(n(2)).category_index(), 7);
    assert_eq!(HandRank::StraightFlush(n(5)).category_index(), 8);
    assert_eq!(HandRank::RoyalFlush.category_index(), 9);
}

#[test]
fn key_values_hold_category_then_tie_breaks() {
    assert_eq!(HandRank::FullHouse(Rank::King, n(2)).key_values(), vec![6, 13, 2]);
    assert_eq!(HandRank::RoyalFlush.key_values(), vec![9]);
    assert_eq!(HandRank::HighCard(vec![Rank::Ace, n(9)]).key_values(), vec![0, 14, 9]);
}

#[test]
fn three_of_a_kind_beats_any_two_pair() {
    let weakest_trips = HandRank::ThreeOfAKind(n(2));
    let best_two_pair = HandRank::TwoPair(Rank::Ace, Rank::King);
    assert_eq!(weakest_trips.compare(&best_two_pair), Ordering::Greater);
    assert_eq!(best_two_pair.compare(&weakest_trips), Ordering::Less);
}

#[test]
fn kicker_decides_between_high_cards() {
    let a = HandRank::HighCard(vec![Rank::Ace, Rank::King, Rank::Queen, Rank::Jack, n(9)]);
    let b = HandRank::HighCard(vec![Rank::Ace, Rank::King, Rank::Queen, Rank::Jack, n(8)]);
    assert_eq!(a.compare(&b), Ordering::Greater);
    assert_eq!(b.compare(&a), Ordering::Less);
    assert_eq!(a.compare(&a), Ordering::Equal);
}

#[test]
fn full_house_is_decided_by_the_triple_first() {
    let a = HandRank::FullHouse(Rank::King, n(2));
    let b = HandRank::FullHouse(Rank::Queen, Rank::Ace);
    assert_eq!(a.compare(&b), Ordering::Greater);
}

#[test]
fn pair_beats_high_card_and_flush_beats_straight() {
    assert_eq!(
        evaluate_hand(&pair_of_kings()).compare(&evaluate_hand(&ace_high())),
        Ordering::Greater
    );
    assert_eq!(
        evaluate_hand(&six_to_ten_straight()).compare(&evaluate_hand(&heart_flush())),
        Ordering::Less
    );
}

#[test]
fn compare_is_transitive_on_an_example() {
    let a = HandRank::OnePair(n(9));
    let b = HandRank::OnePair(Rank::Jack);
    let c = HandRank::TwoPair(n(3), n(2));
    assert_eq!(a.compare(&b), Ordering::Less);
    assert_eq!(b.compare(&c), Ordering::Less);
    assert_eq!(a.compare(&c), Ordering::Less);
}

#[test]
fn winner_is_the_flush() {
    let hands = vec![pair_of_kings(), heart_flush(), six_to_ten_straight(), ace_high()];
    assert_eq!(determine_winner(&hands), Ok(1));
}

#[test]
fn winner_of_no_hands_is_an_error() {
    let hands: Vec<Vec<Card>> = Vec::new();
    assert_eq!(determine_winner(&hands), Err(PokerError::EmptyInput));
}

#[test]
fn winner_of_one_hand_is_that_hand() {
    assert_eq!(determine_winner(&[ace_high()]), Ok(0));
}

#[test]
fn tied_best_hands_go_to_the_lowest_index() {
    let mut other_kings = pair_of_kings();
    other_kings[0].suit = Suit::Clubs;
    let hands = vec![ace_high(), pair_of_kings(), other_kings, ace_high()];
    assert_eq!(determine_winner(&hands), Ok(1));
}

#[test]
fn rank_symbols() {
    assert_eq!(rank_symbol(&n(2)), "2");
    assert_eq!(rank_symbol(&n(10)), "10");
    assert_eq!(rank_symbol(&Rank::Jack), "J");
    assert_eq!(rank_symbol(&Rank::Queen), "Q");
    assert_eq!(rank_symbol(&Rank::King), "K");
    assert_eq!(rank_symbol(&Rank::Ace), "A");
}

#[test]
fn red_suits() {
    assert!(is_red(&Suit::Hearts));
    assert!(is_red(&Suit::Diamonds));
    assert!(!is_red(&Suit::Spades));
    assert!(!is_red(&Suit::Clubs));
}
