use holdem_sim::card::{Card, Rank, Suit};
use holdem_sim::deck::{Deck, DECK_SIZE};
use std::collections::HashSet;

#[test]
fn rank_values_round_trip() {
    for v in 0u8..=255 {
        match Rank::from_value(v) {
            Some(r) => {
                assert!((2..=14).contains(&v));
                assert_eq!(r.value(), v);
            }
            None => assert!(!(2..=14).contains(&v)),
        }
    }
    assert_eq!(Rank::Two.value(), 2);
    assert_eq!(Rank::Ten.value(), 10);
    assert_eq!(Rank::Ace.value(), 14);
    assert_eq!(Rank::from_value(11), Some(Rank::Jack));
}

#[test]
fn ranks_are_ordered_by_value() {
    assert!(Rank::Two < Rank::Three);
    assert!(Rank::King < Rank::Ace);
    assert!(Rank::Ace > Rank::Two);
}

#[test]
fn suit_indices_round_trip() {
    for i in 0u8..=255 {
        match Suit::from_index(i) {
            Some(s) => {
                assert!(i < 4);
                assert_eq!(s.index(), i);
            }
            None => assert!(i >= 4),
        }
    }
    assert_eq!(Suit::from_index(0), Some(Suit::Clubs));
    assert_eq!(Suit::from_index(3), Some(Suit::Spades));
}

#[test]
fn card_new_keeps_rank_and_suit() {
    let c = Card::new(Rank::Queen, Suit::Hearts);
    assert_eq!(c.rank, Rank::Queen);
    assert_eq!(c.suit, Suit::Hearts);
    assert_eq!(c, Card { rank: Rank::Queen, suit: Suit::Hearts });
    assert_ne!(c, Card::new(Rank::Queen, Suit::Spades));
}

#[test]
fn new_deck_has_52_distinct_cards() {
    let deck = Deck::new();
    assert_eq!(deck.len(), 52);
    assert_eq!(DECK_SIZE, 52);
    let distinct: HashSet<Card> = deck.cards.iter().copied().collect();
    assert_eq!(distinct.len(), 52);
}

#[test]
fn new_deck_is_in_canonical_order() {
    let deck = Deck::new();
    let suits = [Suit::Clubs, Suit::Diamonds, Suit::Hearts, Suit::Spades];
    for (i, c) in deck.cards.iter().enumerate() {
        assert_eq!(c.suit, suits[i / 13]);
        assert_eq!(c.rank.value() as usize, i % 13 + 2);
    }
    assert_eq!(deck.cards[0], Card::new(Rank::Two, Suit::Clubs));
    assert_eq!(deck.cards[51], Card::new(Rank::Ace, Suit::Spades));
}

#[test]
fn shuffle_keeps_the_same_cards() {
    let mut deck = Deck::new();
    deck.shuffle();
    assert_eq!(deck.len(), 52);
    let distinct: HashSet<Card> = deck.cards.iter().copied().collect();
    let full: HashSet<Card> = Deck::new().cards.iter().copied().collect();
    assert_eq!(distinct, full);
}

#[test]
fn shuffle_reorders() {
    let mut deck = Deck::new();
    deck.shuffle();
    assert_ne!(deck.cards, Deck::new().cards);
    let mut other = Deck::new();
    other.shuffle();
    assert_ne!(deck.cards, other.cards);
}

#[test]
fn shuffle_of_a_partial_deck_keeps_its_cards() {
    let mut deck = Deck::new();
    for _ in 0..40 {
        deck.deal();
    }
    let mut before = deck.cards.clone();
    deck.shuffle();
    let mut after = deck.cards.clone();
    before.sort_by_key(|c| (c.suit.index(), c.rank.value()));
    after.sort_by_key(|c| (c.suit.index(), c.rank.value()));
    assert_eq!(before, after);
}

#[test]
fn deal_takes_from_the_top() {
    let mut deck = Deck::new();
    assert_eq!(deck.deal(), Some(Card::new(Rank::Ace, Suit::Spades)));
    assert_eq!(deck.deal(), Some(Card::new(Rank::King, Suit::Spades)));
    assert_eq!(deck.len(), 50);
}

#[test]
fn dealt_cards_are_the_removed_ones() {
    let mut deck = Deck::new();
    deck.shuffle();
    let before = deck.cards.clone();
    let mut dealt = Vec::new();
    for k in 1..=52usize {
        dealt.push(deck.deal().unwrap());
        assert_eq!(deck.len(), 52 - k);
        assert_eq!(deck.cards[..], before[..52 - k]);
        let mut removed: Vec<Card> = before[52 - k..].to_vec();
        removed.reverse();
        assert_eq!(dealt, removed);
    }
}

#[test]
fn deal_from_empty_deck_gives_none() {
    let mut deck = Deck::new();
    for _ in 0..52 {
        assert!(deck.deal().is_some());
    }
    assert_eq!(deck.deal(), None);
    assert_eq!(deck.len(), 0);
    assert_eq!(deck.deal(), None);
}
