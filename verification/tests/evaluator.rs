use holdem_sim::card::{Card, Rank, Suit};
use holdem_sim::deck::Deck;
use holdem_sim::evaluator::{evaluate_five_card_hand, evaluate_hand, get_rank_counts};
use holdem_sim::hand_rank::{category_name, hand_rank_category, HandRank};
use holdem_sim::straight::is_sequence;

fn card(rank: Rank, suit: Suit) -> Card {
    Card::new(rank, suit)
}

fn permutations(items: &[Card]) -> Vec<Vec<Card>> {
    if items.len() <= 1 {
        return vec![items.to_vec()];
    }
    let mut all = Vec::new();
    for i in 0..items.len() {
        let mut rest = items.to_vec();
        let picked = rest.remove(i);
        for mut tail in permutations(&rest) {
            let mut one = vec![picked];
            one.append(&mut tail);
            all.push(one);
        }
    }
    all
}

fn brute_force_best(cards: &[Card]) -> HandRank {
    let n = cards.len();
    let mut best = HandRank::HighCard(Rank::Two);
    for a in 0..n {
        for b in (a + 1)..n {
            for c in (b + 1)..n {
                for d in (c + 1)..n {
                    for e in (d + 1)..n {
                        let hand = [cards[a], cards[b], cards[c], cards[d], cards[e]];
                        let rank = evaluate_five_card_hand(&hand);
                        if rank.strength() > best.strength() {
                            best = rank;
                        }
                    }
                }
            }
        }
    }
    best
}

fn royal_flush() -> [Card; 5] {
    [
        card(Rank::Ten, Suit::Spades),
        card(Rank::Jack, Suit::Spades),
        card(Rank::Queen, Suit::Spades),
        card(Rank::King, Suit::Spades),
        card(Rank::Ace, Suit::Spades),
    ]
}

fn wheel() -> [Card; 5] {
    [
        card(Rank::Ace, Suit::Hearts),
        card(Rank::Two, Suit::Hearts),
        card(Rank::Three, Suit::Diamonds),
        card(Rank::Four, Suit::Clubs),
        card(Rank::Five, Suit::Spades),
    ]
}

fn six_high_straight() -> [Card; 5] {
    [
        card(Rank::Two, Suit::Hearts),
        card(Rank::Three, Suit::Diamonds),
        card(Rank::Four, Suit::Clubs),
        card(Rank::Five, Suit::Spades),
        card(Rank::Six, Suit::Spades),
    ]
}

fn four_of_a_kind() -> [Card; 5] {
    [
        card(Rank::Nine, Suit::Clubs),
        card(Rank::Nine, Suit::Diamonds),
        card(Rank::Nine, Suit::Hearts),
        card(Rank::Nine, Suit::Spades),
        card(Rank::King, Suit::Clubs),
    ]
}

fn full_house() -> [Card; 5] {
    [
        card(Rank::Three, Suit::Clubs),
        card(Rank::Three, Suit::Diamonds),
        card(Rank::Three, Suit::Hearts),
        card(Rank::Jack, Suit::Spades),
        card(Rank::Jack, Suit::Clubs),
    ]
}

fn flush() -> [Card; 5] {
    [
        card(Rank::Two, Suit::Diamonds),
        card(Rank::Seven, Suit::Diamonds),
        card(Rank::Nine, Suit::Diamonds),
        card(Rank::Jack, Suit::Diamonds),
        card(Rank::King, Suit::Diamonds),
    ]
}

fn three_of_a_kind() -> [Card; 5] {
    [
        card(Rank::Queen, Suit::Clubs),
        card(Rank::Queen, Suit::Diamonds),
        card(Rank::Queen, Suit::Hearts),
        card(Rank::Four, Suit::Spades),
        card(Rank::Eight, Suit::Clubs),
    ]
}

fn two_pair() -> [Card; 5] {
    [
        card(Rank::Four, Suit::Clubs),
        card(Rank::King, Suit::Diamonds),
        card(Rank::Four, Suit::Hearts),
        card(Rank::Ace, Suit::Spades),
        card(Rank::King, Suit::Clubs),
    ]
}

fn one_pair() -> [Card; 5] {
    [
        card(Rank::Ten, Suit::Clubs),
        card(Rank::Ten, Suit::Diamonds),
        card(Rank::Two, Suit::Hearts),
        card(Rank::Six, Suit::Spades),
        card(Rank::Ace, Suit::Clubs),
    ]
}

fn high_card() -> [Card; 5] {
    [
        card(Rank::Two, Suit::Clubs),
        card(Rank::Five, Suit::Diamonds),
        card(Rank::Nine, Suit::Hearts),
        card(Rank::Jack, Suit::Spades),
        card(Rank::King, Suit::Clubs),
    ]
}

#[test]
fn royal_flush_is_recognised() {
    assert_eq!(evaluate_five_card_hand(&royal_flush()), HandRank::RoyalFlush);
}

#[test]
fn royal_flush_beats_every_straight_flush() {
    let ranks = [
        Rank::Two, Rank::Three, Rank::Four, Rank::Five, Rank::Six, Rank::Seven, Rank::Eight,
        Rank::Nine, Rank::Ten, Rank::Jack, Rank::Queen, Rank::King, Rank::Ace,
    ];
    for r in ranks {
        assert!(HandRank::RoyalFlush > HandRank::StraightFlush(r));
        assert!(HandRank::RoyalFlush.beats(&HandRank::StraightFlush(r)));
        assert!(!HandRank::StraightFlush(r).beats(&HandRank::RoyalFlush));
    }
}

#[test]
fn king_high_straight_flush_is_not_royal() {
    let hand = [
        card(Rank::Nine, Suit::Hearts),
        card(Rank::Ten, Suit::Hearts),
        card(Rank::Jack, Suit::Hearts),
        card(Rank::Queen, Suit::Hearts),
        card(Rank::King, Suit::Hearts),
    ];
    assert_eq!(evaluate_five_card_hand(&hand), HandRank::StraightFlush(Rank::King));
}

#[test]
fn wheel_is_a_five_high_straight() {
    let rank = evaluate_five_card_hand(&wheel());
    assert_eq!(rank, HandRank::Straight(Rank::Five));
    assert_ne!(rank, HandRank::Straight(Rank::Ace));
}

#[test]
fn wheel_loses_to_six_high_straight() {
    let low = evaluate_five_card_hand(&wheel());
    let high = evaluate_five_card_hand(&six_high_straight());
    assert_eq!(high, HandRank::Straight(Rank::Six));
    assert!(low < high);
    assert!(high.beats(&low));
}

#[test]
fn suited_wheel_is_a_five_high_straight_flush() {
    let hand = [
        card(Rank::Ace, Suit::Clubs),
        card(Rank::Two, Suit::Clubs),
        card(Rank::Three, Suit::Clubs),
        card(Rank::Four, Suit::Clubs),
        card(Rank::Five, Suit::Clubs),
    ];
    assert_eq!(evaluate_five_card_hand(&hand), HandRank::StraightFlush(Rank::Five));
}

#[test]
fn ace_high_straight_carries_the_ace() {
    let hand = [
        card(Rank::Ten, Suit::Clubs),
        card(Rank::Jack, Suit::Spades),
        card(Rank::Queen, Suit::Spades),
        card(Rank::King, Suit::Hearts),
        card(Rank::Ace, Suit::Spades),
    ];
    assert_eq!(evaluate_five_card_hand(&hand), HandRank::Straight(Rank::Ace));
}

#[test]
fn no_wrap_around_straight() {
    let hand = [
        card(Rank::Queen, Suit::Clubs),
        card(Rank::King, Suit::Spades),
        card(Rank::Ace, Suit::Spades),
        card(Rank::Two, Suit::Hearts),
        card(Rank::Three, Suit::Spades),
    ];
    assert_eq!(evaluate_five_card_hand(&hand), HandRank::HighCard(Rank::Ace));
}

#[test]
fn representative_hands_have_their_categories() {
    assert_eq!(evaluate_five_card_hand(&four_of_a_kind()), HandRank::FourOfAKind(Rank::Nine));
    assert_eq!(
        evaluate_five_card_hand(&full_house()),
        HandRank::FullHouse(Rank::Three, Rank::Jack)
    );
    assert_eq!(evaluate_five_card_hand(&flush()), HandRank::Flush(Rank::King));
    assert_eq!(evaluate_five_card_hand(&six_high_straight()), HandRank::Straight(Rank::Six));
    assert_eq!(
        evaluate_five_card_hand(&three_of_a_kind()),
        HandRank::ThreeOfAKind(Rank::Queen)
    );
    assert_eq!(evaluate_five_card_hand(&two_pair()), HandRank::TwoPair(Rank::King, Rank::Four));
    assert_eq!(evaluate_five_card_hand(&one_pair()), HandRank::OnePair(Rank::Ten));
    assert_eq!(evaluate_five_card_hand(&high_card()), HandRank::HighCard(Rank::King));
}

#[test]
fn categories_are_ordered() {
    let chain = [
        evaluate_five_card_hand(&high_card()),
        evaluate_five_card_hand(&one_pair()),
        evaluate_five_card_hand(&two_pair()),
        evaluate_five_card_hand(&three_of_a_kind()),
        evaluate_five_card_hand(&six_high_straight()),
        evaluate_five_card_hand(&flush()),
        evaluate_five_card_hand(&full_house()),
        evaluate_five_card_hand(&four_of_a_kind()),
        evaluate_five_card_hand(&[
            card(Rank::Five, Suit::Hearts),
            card(Rank::Six, Suit::Hearts),
            card(Rank::Seven, Suit::Hearts),
            card(Rank::Eight, Suit::Hearts),
            card(Rank::Nine, Suit::Hearts),
        ]),
        evaluate_five_card_hand(&royal_flush()),
    ];
    for i in 0..chain.len() {
        assert_eq!(chain[i].category_index(), i);
        for j in 0..chain.len() {
            assert_eq!(chain[i] < chain[j], i < j);
            assert_eq!(chain[i] > chain[j], i > j);
            assert_eq!(chain[i].beats(&chain[j]), i > j);
        }
    }
}

#[test]
fn two_pair_carries_higher_pair_first() {
    let hand = [
        card(Rank::Three, Suit::Clubs),
        card(Rank::Three, Suit::Diamonds),
        card(Rank::Queen, Suit::Hearts),
        card(Rank::Queen, Suit::Spades),
        card(Rank::Two, Suit::Clubs),
    ];
    for p in permutations(&hand) {
        assert_eq!(evaluate_five_card_hand(&p), HandRank::TwoPair(Rank::Queen, Rank::Three));
    }
}

#[test]
fn kickers_do_not_break_ties() {
    let a = [
        card(Rank::Ten, Suit::Clubs),
        card(Rank::Ten, Suit::Diamonds),
        card(Rank::Two, Suit::Hearts),
        card(Rank::Six, Suit::Spades),
        card(Rank::Ace, Suit::Clubs),
    ];
    let b = [
        card(Rank::Ten, Suit::Hearts),
        card(Rank::Ten, Suit::Spades),
        card(Rank::Three, Suit::Hearts),
        card(Rank::Four, Suit::Spades),
        card(Rank::Seven, Suit::Clubs),
    ];
    assert_eq!(evaluate_five_card_hand(&a), evaluate_five_card_hand(&b));
}

#[test]
fn rank_is_invariant_under_permutation() {
    let hands = [
        royal_flush(), wheel(), six_high_straight(), four_of_a_kind(), full_house(), flush(),
        three_of_a_kind(), two_pair(), one_pair(), high_card(),
    ];
    for hand in hands {
        let expected = evaluate_five_card_hand(&hand);
        let all = permutations(&hand);
        assert_eq!(all.len(), 120);
        for p in all {
            assert_eq!(evaluate_five_card_hand(&p), expected);
        }
    }
}

#[test]
fn seven_cards_pick_the_best_five() {
    let cards = [
        card(Rank::Two, Suit::Clubs),
        card(Rank::Ten, Suit::Spades),
        card(Rank::Jack, Suit::Spades),
        card(Rank::Seven, Suit::Diamonds),
        card(Rank::Queen, Suit::Spades),
        card(Rank::King, Suit::Spades),
        card(Rank::Ace, Suit::Spades),
    ];
    assert_eq!(evaluate_hand(&cards), HandRank::RoyalFlush);
    let cards = [
        card(Rank::Nine, Suit::Clubs),
        card(Rank::Nine, Suit::Spades),
        card(Rank::Four, Suit::Spades),
        card(Rank::Four, Suit::Diamonds),
        card(Rank::Four, Suit::Hearts),
        card(Rank::King, Suit::Spades),
        card(Rank::King, Suit::Clubs),
    ];
    assert_eq!(evaluate_hand(&cards), HandRank::FullHouse(Rank::Four, Rank::King));
}

#[test]
fn seven_cards_with_three_pairs_keep_the_two_highest() {
    let cards = [
        card(Rank::Nine, Suit::Clubs),
        card(Rank::Nine, Suit::Spades),
        card(Rank::Four, Suit::Spades),
        card(Rank::Four, Suit::Diamonds),
        card(Rank::King, Suit::Hearts),
        card(Rank::King, Suit::Spades),
        card(Rank::Two, Suit::Clubs),
    ];
    assert_eq!(evaluate_hand(&cards), HandRank::TwoPair(Rank::King, Rank::Nine));
}

#[test]
fn fewer_than_five_cards_give_the_weakest_rank() {
    let cards = [
        card(Rank::Ace, Suit::Clubs),
        card(Rank::Ace, Suit::Spades),
        card(Rank::Ace, Suit::Hearts),
        card(Rank::Ace, Suit::Diamonds),
    ];
    assert_eq!(evaluate_hand(&cards), HandRank::HighCard(Rank::Two));
    assert_eq!(evaluate_hand(&[]), HandRank::HighCard(Rank::Two));
}

#[test]
fn five_cards_have_one_choice() {
    assert_eq!(evaluate_hand(&full_house()), evaluate_five_card_hand(&full_house()));
}

#[test]
fn best_of_seven_matches_brute_force_on_random_deals() {
    for _ in 0..300 {
        let mut deck = Deck::new();
        deck.shuffle();
        let mut cards = Vec::new();
        for _ in 0..7 {
            cards.push(deck.deal().unwrap());
        }
        assert_eq!(evaluate_hand(&cards), brute_force_best(&cards));
    }
}

#[test]
fn best_of_six_and_eight_matches_brute_force() {
    for n in [5usize, 6, 8] {
        for _ in 0..50 {
            let mut deck = Deck::new();
            deck.shuffle();
            let mut cards = Vec::new();
            for _ in 0..n {
                cards.push(deck.deal().unwrap());
            }
            assert_eq!(evaluate_hand(&cards), brute_force_best(&cards));
        }
    }
}

#[test]
fn is_sequence_accepts_runs_and_the_wheel() {
    assert!(is_sequence(vec![2, 3, 4, 5, 6]));
    assert!(is_sequence(vec![7, 3, 5, 4, 6]));
    assert!(is_sequence(vec![10, 11, 12, 13, 14]));
    assert!(is_sequence(vec![14, 2, 3, 4, 5]));
    assert!(is_sequence(vec![5, 4, 14, 3, 2]));
}

#[test]
fn is_sequence_rejects_everything_else() {
    assert!(!is_sequence(vec![]));
    assert!(!is_sequence(vec![2, 3, 4, 5]));
    assert!(!is_sequence(vec![2, 2, 3, 4, 5]));
    assert!(!is_sequence(vec![2, 3, 4, 5, 7]));
    assert!(!is_sequence(vec![12, 13, 14, 2, 3]));
    assert!(!is_sequence(vec![13, 14, 2, 3, 4]));
    assert!(!is_sequence(vec![2, 3, 4, 5, 6, 7]));
    assert!(!is_sequence(vec![14, 2, 3, 4, 6]));
}

#[test]
fn is_sequence_ignores_repeats_beyond_five_distinct() {
    assert!(is_sequence(vec![2, 3, 3, 4, 5, 6]));
    assert!(is_sequence(vec![251, 252, 253, 254, 255]));
}

#[test]
fn rank_counts_are_indexed_by_value() {
    let counts = get_rank_counts(&[Rank::Ace, Rank::Two, Rank::Ace, Rank::Nine, Rank::Ace]);
    assert_eq!(counts.len(), 15);
    assert_eq!(counts[14], 3);
    assert_eq!(counts[2], 1);
    assert_eq!(counts[9], 1);
    assert_eq!(counts.iter().map(|&c| c as usize).sum::<usize>(), 5);
    assert_eq!(counts[0], 0);
    assert_eq!(counts[1], 0);
    assert_eq!(get_rank_counts(&[]), vec![0u8; 15]);
}

#[test]
fn category_labels() {
    let expected = [
        "HighCard", "OnePair", "TwoPair", "ThreeOfAKind", "Straight", "Flush", "FullHouse",
        "FourOfAKind", "StraightFlush", "RoyalFlush",
    ];
    for (i, name) in expected.iter().enumerate() {
        assert_eq!(category_name(i), *name);
    }
    assert_eq!(hand_rank_category(&HandRank::HighCard(Rank::Ace)), "HighCard");
    assert_eq!(hand_rank_category(&HandRank::OnePair(Rank::Ace)), "OnePair");
    assert_eq!(hand_rank_category(&HandRank::TwoPair(Rank::Ace, Rank::Two)), "TwoPair");
    assert_eq!(hand_rank_category(&HandRank::ThreeOfAKind(Rank::Ace)), "ThreeOfAKind");
    assert_eq!(hand_rank_category(&HandRank::Straight(Rank::Ace)), "Straight");
    assert_eq!(hand_rank_category(&HandRank::Flush(Rank::Ace)), "Flush");
    assert_eq!(hand_rank_category(&HandRank::FullHouse(Rank::Ace, Rank::Two)), "FullHouse");
    assert_eq!(hand_rank_category(&HandRank::FourOfAKind(Rank::Ace)), "FourOfAKind");
    assert_eq!(hand_rank_category(&HandRank::StraightFlush(Rank::Nine)), "StraightFlush");
    assert_eq!(hand_rank_category(&HandRank::RoyalFlush), "RoyalFlush");
}

#[test]
fn strength_values() {
    assert_eq!(HandRank::HighCard(Rank::Two).strength(), 30);
    assert_eq!(HandRank::TwoPair(Rank::King, Rank::Three).strength(), 648);
    assert_eq!(HandRank::FullHouse(Rank::Ace, Rank::King).strength(), 1573);
    assert_eq!(HandRank::RoyalFlush.strength(), 2025);
}

#[test]
fn carried_ranks_decide_within_a_category() {
    assert!(HandRank::Flush(Rank::King) > HandRank::Flush(Rank::Queen));
    assert!(HandRank::TwoPair(Rank::King, Rank::Three) > HandRank::TwoPair(Rank::King, Rank::Two));
    assert!(HandRank::TwoPair(Rank::King, Rank::Two) > HandRank::TwoPair(Rank::Queen, Rank::Jack));
    assert!(
        HandRank::FullHouse(Rank::Three, Rank::Two) > HandRank::FullHouse(Rank::Two, Rank::Ace)
    );
    assert!(HandRank::OnePair(Rank::Two) > HandRank::HighCard(Rank::Ace));
    assert!(HandRank::OnePair(Rank::Two) <= HandRank::OnePair(Rank::Two));
    assert!(HandRank::OnePair(Rank::Two) >= HandRank::OnePair(Rank::Two));
}
