use holdem_sim::card::{Card, Rank, Suit};
use holdem_sim::deck::Deck;
use holdem_sim::game::{
    choose_winner, deal_community_cards, deal_hole_cards, evaluate_player, is_valid_player_count,
    showdown, simulate_game, Player, BOARD_SIZE, MAX_PLAYERS,
};
use holdem_sim::hand_rank::{HandRank, CATEGORY_COUNT};
use holdem_sim::simulation::{run_simulation, SimulationError, SimulationTotals};
use holdem_sim::tally::HandRankCounts;

fn card(rank: Rank, suit: Suit) -> Card {
    Card::new(rank, suit)
}

fn royal_board() -> Vec<Card> {
    vec![
        card(Rank::Ten, Suit::Spades),
        card(Rank::Jack, Suit::Spades),
        card(Rank::Queen, Suit::Spades),
        card(Rank::King, Suit::Spades),
        card(Rank::Ace, Suit::Spades),
    ]
}

#[test]
fn player_count_limits() {
    assert!(!is_valid_player_count(0));
    assert!(is_valid_player_count(1));
    assert!(is_valid_player_count(6));
    assert!(is_valid_player_count(23));
    assert!(!is_valid_player_count(24));
    assert!(!is_valid_player_count(usize::MAX));
    assert_eq!(MAX_PLAYERS, 23);
    assert_eq!(BOARD_SIZE, 5);
}

#[test]
fn hole_cards_are_dealt_in_player_order() {
    let mut deck = Deck::new();
    let players = deal_hole_cards(&mut deck, 3);
    assert_eq!(players.len(), 3);
    assert_eq!(players[0].hand, (card(Rank::Ace, Suit::Spades), card(Rank::King, Suit::Spades)));
    assert_eq!(players[1].hand, (card(Rank::Queen, Suit::Spades), card(Rank::Jack, Suit::Spades)));
    assert_eq!(players[2].hand, (card(Rank::Ten, Suit::Spades), card(Rank::Nine, Suit::Spades)));
    assert_eq!(deck.len(), 46);
    assert_eq!(deck.cards[45], card(Rank::Eight, Suit::Spades));
}

#[test]
fn community_cards_come_in_deal_order() {
    let mut deck = Deck::new();
    let board = deal_community_cards(&mut deck);
    assert_eq!(board, vec![
        card(Rank::Ace, Suit::Spades),
        card(Rank::King, Suit::Spades),
        card(Rank::Queen, Suit::Spades),
        card(Rank::Jack, Suit::Spades),
        card(Rank::Ten, Suit::Spades),
    ]);
    assert_eq!(deck.len(), 47);
}

#[test]
fn largest_table_uses_51_cards() {
    let mut deck = Deck::new();
    let players = deal_hole_cards(&mut deck, 23);
    let board = deal_community_cards(&mut deck);
    assert_eq!(players.len(), 23);
    assert_eq!(board.len(), 5);
    assert_eq!(deck.len(), 1);
}

#[test]
fn fixed_deck_game_for_two_players() {
    let mut deck = Deck::new();
    let players = deal_hole_cards(&mut deck, 2);
    let board = deal_community_cards(&mut deck);
    assert_eq!(board, vec![
        card(Rank::Ten, Suit::Spades),
        card(Rank::Nine, Suit::Spades),
        card(Rank::Eight, Suit::Spades),
        card(Rank::Seven, Suit::Spades),
        card(Rank::Six, Suit::Spades),
    ]);
    assert_eq!(evaluate_player(&players[0], &board), HandRank::StraightFlush(Rank::Ten));
    assert_eq!(evaluate_player(&players[1], &board), HandRank::StraightFlush(Rank::Queen));
    let mut counts = HandRankCounts::new();
    let tied = showdown(&players, &board, &mut counts);
    assert_eq!(tied, vec![1]);
    assert_eq!(choose_winner(&tied), 1);
    for c in 0..CATEGORY_COUNT {
        assert_eq!(counts.count(c), if c == 8 { 2 } else { 0 });
    }
    assert_eq!(counts.sorted_by_frequency(), vec![(8, 2)]);
}

#[test]
fn fixed_deck_game_is_reproducible() {
    let mut first = None;
    for _ in 0..5 {
        let mut deck = Deck::new();
        let players = deal_hole_cards(&mut deck, 4);
        let board = deal_community_cards(&mut deck);
        let mut counts = HandRankCounts::new();
        let tied = showdown(&players, &board, &mut counts);
        let outcome = (tied, counts.counts.clone());
        match &first {
            None => first = Some(outcome),
            Some(f) => assert_eq!(*f, outcome),
        }
    }
}

#[test]
fn showdown_returns_all_tied_seats_in_order() {
    let players = vec![
        Player { hand: (card(Rank::Two, Suit::Clubs), card(Rank::Three, Suit::Clubs)) },
        Player { hand: (card(Rank::Two, Suit::Hearts), card(Rank::Three, Suit::Hearts)) },
        Player { hand: (card(Rank::Nine, Suit::Hearts), card(Rank::Nine, Suit::Clubs)) },
    ];
    let mut counts = HandRankCounts::new();
    let tied = showdown(&players, &royal_board(), &mut counts);
    assert_eq!(tied, vec![0, 1, 2]);
    assert_eq!(counts.count(9), 3);
}

#[test]
fn showdown_resets_ties_when_a_better_hand_appears() {
    let board = vec![
        card(Rank::Two, Suit::Clubs),
        card(Rank::Seven, Suit::Diamonds),
        card(Rank::Nine, Suit::Hearts),
        card(Rank::Jack, Suit::Spades),
        card(Rank::King, Suit::Clubs),
    ];
    let players = vec![
        Player { hand: (card(Rank::Three, Suit::Clubs), card(Rank::Four, Suit::Hearts)) },
        Player { hand: (card(Rank::Three, Suit::Hearts), card(Rank::Four, Suit::Spades)) },
        Player { hand: (card(Rank::King, Suit::Hearts), card(Rank::Four, Suit::Clubs)) },
        Player { hand: (card(Rank::Five, Suit::Hearts), card(Rank::Six, Suit::Clubs)) },
        Player { hand: (card(Rank::King, Suit::Spades), card(Rank::Five, Suit::Clubs)) },
    ];
    let mut counts = HandRankCounts::new();
    let tied = showdown(&players, &board, &mut counts);
    assert_eq!(tied, vec![2, 4]);
    assert_eq!(counts.count(0), 3);
    assert_eq!(counts.count(1), 2);
    assert_eq!(counts.sorted_by_frequency(), vec![(0, 3), (1, 2)]);
}

#[test]
fn showdown_with_no_players_has_no_winner() {
    let mut counts = HandRankCounts::new();
    let tied = showdown(&Vec::new(), &royal_board(), &mut counts);
    assert!(tied.is_empty());
    assert_eq!(counts.counts, vec![0; 10]);
}

#[test]
fn ties_are_broken_fairly() {
    let players = vec![
        Player { hand: (card(Rank::Two, Suit::Clubs), card(Rank::Three, Suit::Clubs)) },
        Player { hand: (card(Rank::Two, Suit::Hearts), card(Rank::Three, Suit::Hearts)) },
    ];
    let mut wins = [0usize; 2];
    let trials = 4000;
    for _ in 0..trials {
        let mut counts = HandRankCounts::new();
        let tied = showdown(&players, &royal_board(), &mut counts);
        assert_eq!(tied, vec![0, 1]);
        wins[choose_winner(&tied)] += 1;
    }
    assert_eq!(wins[0] + wins[1], trials);
    assert!(wins[0] > trials * 2 / 5, "seat 0 won {} of {}", wins[0], trials);
    assert!(wins[1] > trials * 2 / 5, "seat 1 won {} of {}", wins[1], trials);
}

#[test]
fn choose_winner_returns_one_of_the_tied() {
    assert_eq!(choose_winner(&vec![7]), 7);
    let tied = vec![3, 9, 11];
    let mut seen = [false; 3];
    for _ in 0..500 {
        let w = choose_winner(&tied);
        let at = tied.iter().position(|&t| t == w).unwrap();
        seen[at] = true;
    }
    assert_eq!(seen, [true, true, true]);
}

#[test]
fn simulate_game_counts_one_hand_per_player() {
    for n in [1usize, 2, 6, 23] {
        let mut counts = HandRankCounts::new();
        for game in 1..=20usize {
            let winner = simulate_game(n, &mut counts);
            assert!(winner < n);
            assert_eq!(counts.counts.iter().sum::<usize>(), game * n);
        }
    }
}

#[test]
fn simulated_seats_all_win_sometimes() {
    let mut wins = [0usize; 3];
    let mut counts = HandRankCounts::new();
    for _ in 0..600 {
        wins[simulate_game(3, &mut counts)] += 1;
    }
    assert_eq!(wins.iter().sum::<usize>(), 600);
    for w in wins {
        assert!(w > 100, "wins {:?}", wins);
    }
}

#[test]
fn simulation_totals_add_up() {
    let totals = run_simulation(200, 6).unwrap();
    assert_eq!(totals.games, 200);
    assert_eq!(totals.wins.len(), 6);
    assert_eq!(totals.wins.iter().sum::<usize>(), 200);
    assert_eq!(totals.hand_rank_counts.counts.iter().sum::<usize>(), 1200);
    let table = totals.hand_rank_counts.sorted_by_frequency();
    assert_eq!(table.iter().map(|e| e.1).sum::<usize>(), 1200);
    for pair in table.windows(2) {
        assert!(pair[0].1 > pair[1].1 || (pair[0].1 == pair[1].1 && pair[0].0 < pair[1].0));
    }
}

#[test]
fn simulation_of_no_games() {
    let totals = run_simulation(0, 4).unwrap();
    assert_eq!(totals.games, 0);
    assert_eq!(totals.wins, vec![0; 4]);
    assert!(totals.hand_rank_counts.sorted_by_frequency().is_empty());
}

#[test]
fn simulation_rejects_invalid_tables() {
    assert_eq!(run_simulation(10, 0).err(), Some(SimulationError::InvalidPlayerCount));
    assert_eq!(run_simulation(10, 24).err(), Some(SimulationError::InvalidPlayerCount));
    assert_eq!(run_simulation(0, 0).err(), Some(SimulationError::InvalidPlayerCount));
    assert_eq!(run_simulation(usize::MAX, 100).err(), Some(SimulationError::InvalidPlayerCount));
}

#[test]
fn simulation_rejects_too_many_hands() {
    assert_eq!(run_simulation(usize::MAX, 2).err(), Some(SimulationError::TooManyHands));
    assert_eq!(run_simulation(usize::MAX / 23 + 1, 23).err(), Some(SimulationError::TooManyHands));
}

#[test]
fn record_game_adds_a_win_and_the_counts() {
    let mut totals = SimulationTotals::new(3);
    let mut game = HandRankCounts::new();
    game.record(&HandRank::Flush(Rank::Ace));
    game.record(&HandRank::OnePair(Rank::Two));
    game.record(&HandRank::OnePair(Rank::King));
    totals.record_game(2, &game);
    totals.record_game(2, &game);
    totals.record_game(0, &game);
    assert_eq!(totals.games, 3);
    assert_eq!(totals.wins, vec![1, 0, 2]);
    assert_eq!(totals.hand_rank_counts.count(1), 6);
    assert_eq!(totals.hand_rank_counts.count(5), 3);
    assert_eq!(totals.hand_rank_counts.sorted_by_frequency(), vec![(1, 6), (5, 3)]);
}

#[test]
fn tally_records_and_merges() {
    let mut a = HandRankCounts::new();
    assert_eq!(a.counts, vec![0; 10]);
    a.record(&HandRank::RoyalFlush);
    a.record(&HandRank::HighCard(Rank::Nine));
    a.record(&HandRank::HighCard(Rank::Ten));
    let mut b = HandRankCounts::new();
    b.record(&HandRank::TwoPair(Rank::Nine, Rank::Two));
    b.record(&HandRank::HighCard(Rank::Ace));
    a.merge(&b);
    assert_eq!(a.counts, vec![3, 0, 1, 0, 0, 0, 0, 0, 0, 1]);
    assert_eq!(b.counts, vec![1, 0, 1, 0, 0, 0, 0, 0, 0, 0]);
}

#[test]
fn frequency_table_orders_by_count_then_category() {
    let tally = HandRankCounts { counts: vec![5, 0, 7, 5, 0, 1, 7, 0, 0, 2] };
    assert_eq!(
        tally.sorted_by_frequency(),
        vec![(2, 7), (6, 7), (0, 5), (3, 5), (9, 2), (5, 1)]
    );
    assert!(HandRankCounts::new().sorted_by_frequency().is_empty());
}
