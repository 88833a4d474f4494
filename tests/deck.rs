use poker_hands::card::{Card, Rank, Suit};
use poker_hands::deck::{deal_from_top, deal_hands, generate_deck};
use poker_hands::error::PokerError;

#[test]
fn deck_has_52_distinct_cards() {
    let deck = generate_deck();
    assert_eq!(deck.len(), 52);
    for i in 0..deck.len() {
        for j in (i + 1)..deck.len() {
            assert_ne!(deck[i], deck[j]);
        }
    }
}

#[test]
fn deck_runs_suit_by_suit_from_two_to_ace() {
    let deck = generate_deck();
    assert_eq!(deck[0], Card::new(Suit::Spades, Rank::Number(2)));
    assert_eq!(deck[12], Card::new(Suit::Spades, Rank::Ace));
    assert_eq!(deck[13], Card::new(Suit::Hearts, Rank::Number(2)));
    assert_eq!(deck[22], Card::new(Suit::Hearts, Rank::Jack));
    assert_eq!(deck[37], Card::new(Suit::Diamonds, Rank::King));
    assert_eq!(deck[51], Card::new(Suit::Clubs, Rank::Ace));
    for suit in [Suit::Spades, Suit::Hearts, Suit::Diamonds, Suit::Clubs] {
        assert_eq!(deck.iter().filter(|c| c.suit == suit).count(), 13);
    }
}

#[test]
fn dealing_four_hands_of_five() {
    let mut deck = generate_deck();
    let hands = deal_hands(&mut deck, 5, 4).unwrap();
    assert_eq!(hands.len(), 4);
    assert_eq!(deck.len(), 32);
    let mut dealt: Vec<Card> = Vec::new();
    for hand in &hands {
        assert_eq!(hand.len(), 5);
        dealt.extend(hand.iter().copied());
    }
    assert_eq!(dealt.len(), 20);
    for i in 0..dealt.len() {
        for j in (i + 1)..dealt.len() {
            assert_ne!(dealt[i], dealt[j]);
        }
        assert!(!deck.contains(&dealt[i]));
    }
}

#[test]
fn dealing_more_than_the_deck_holds_is_an_error() {
    let mut deck = generate_deck();
    let before = deck.clone();
    assert_eq!(
        deal_hands(&mut deck, 14, 4),
        Err(PokerError::InsufficientCards { cards_per_hand: 14, num_hands: 4, available: 52 })
    );
    assert_eq!(deck, before);
}

#[test]
fn dealing_exactly_the_whole_deck() {
    let mut deck = generate_deck();
    let hands = deal_hands(&mut deck, 13, 4).unwrap();
    assert_eq!(hands.len(), 4);
    assert!(deck.is_empty());
}

#[test]
fn dealing_with_an_overflowing_request_is_an_error() {
    let mut deck = generate_deck();
    assert_eq!(
        deal_hands(&mut deck, usize::MAX, 2),
        Err(PokerError::InsufficientCards {
            cards_per_hand: usize::MAX,
            num_hands: 2,
            available: 52
        })
    );
    assert_eq!(deck.len(), 52);
}

#[test]
fn deal_from_top_goes_round_robin() {
    let mut deck = generate_deck();
    let hands = deal_from_top(&mut deck, 2, 3).unwrap();
    assert_eq!(deck.len(), 46);
    assert_eq!(deck, generate_deck()[..46].to_vec());
    let top = generate_deck();
    assert_eq!(hands[0], vec![top[51], top[48]]);
    assert_eq!(hands[1], vec![top[50], top[47]]);
    assert_eq!(hands[2], vec![top[49], top[46]]);
}

#[test]
fn deal_from_top_refuses_too_many_cards() {
    let mut deck = generate_deck();
    deck.truncate(5);
    assert_eq!(
        deal_from_top(&mut deck, 3, 2),
        Err(PokerError::InsufficientCards { cards_per_hand: 3, num_hands: 2, available: 5 })
    );
    assert_eq!(deck.len(), 5);
}

#[test]
fn dealing_no_hands() {
    let mut deck = generate_deck();
    let hands = deal_hands(&mut deck, 5, 0).unwrap();
    assert!(hands.is_empty());
    assert_eq!(deck.len(), 52);
}
