//! One showdown: dealing to the players and the board, ranking every
//! player's seven cards, and finding who holds the best hand.

use crate::card::{Card, Rank};
use crate::deck::{
    dealt_from, full_deck, lemma_deal_one_more, remaining_after, Deck,
};
use crate::evaluator::{best_rank, evaluate_hand};
use crate::hand_rank::{lemma_high_card_two_is_bottom, lemma_order_total, HandRank};
use crate::random::{choose_one, shuffle};
use crate::tally::HandRankCounts;
use vstd::prelude::*;

verus! {

/// Number of community cards.
pub const BOARD_SIZE: usize = 5;

/// The largest table a single deck serves: two cards each and five on the
/// board.
pub const MAX_PLAYERS: usize = 23;

/// A player at the table, holding two hole cards for one game.
#[derive(Debug, Clone, Copy)]
pub struct Player {
    pub hand: (Card, Card),
}

/// A table of `n` players can be dealt from one deck: there is at least one
/// player, and two cards each plus the board do not exceed the deck.
pub open spec fn valid_player_count(n: int) -> bool {
    1 <= n && 2 * n + 5 <= 52
}

/// The seven cards a player chooses from: the two hole cards, then the board.
pub open spec fn seven_cards(player: Player, board: Seq<Card>) -> Seq<Card> {
    seq![player.hand.0, player.hand.1] + board
}

/// The rank of a player's best hand on a board.
pub open spec fn player_rank(player: Player, board: Seq<Card>) -> HandRank {
    best_rank(seven_cards(player, board))
}

/// The player at seat `i` holds a hand that no player's hand beats.
pub open spec fn is_winner(players: Seq<Player>, board: Seq<Card>, i: int) -> bool {
    &&& 0 <= i < players.len()
    &&& forall|j: int|
        0 <= j < players.len() ==> !(#[trigger] player_rank(players[j], board)).spec_beats(
            player_rank(players[i], board),
        )
}

/// The hole cards of `n` players dealt from the top of `deck`: each player
/// in turn takes two cards.
pub open spec fn dealt_players(deck: Seq<Card>, n: nat) -> Seq<Player> {
    Seq::new(
        n,
        |i: int| Player { hand: (deck[deck.len() - 1 - 2 * i], deck[deck.len() - 2 - 2 * i]) },
    )
}

/// The board dealt from `deck` after `n` players took their hole cards.
pub open spec fn community_cards(deck: Seq<Card>, n: nat) -> Seq<Card> {
    dealt_from(remaining_after(deck, 2 * n), 5)
}

/// The category counts after counting the hand of every player once.
pub open spec fn tally_after(counts: Seq<usize>, players: Seq<Player>, board: Seq<Card>) -> Seq<
    usize,
>
    decreases players.len(),
{
    if players.len() == 0 {
        counts
    } else {
        let prev = tally_after(counts, players.drop_last(), board);
        let c = player_rank(players.last(), board).spec_category_index();
        prev.update(c, (prev[c] + 1) as usize)
    }
}

/// What one game can come to: some ordering `deck` of the full deck was
/// dealt, the players who took their hole cards from it sat down in some
/// order `seats`, every seat's hand was counted into the tally, and `winner`
/// is a seat whose hand no other beats.
pub open spec fn is_game_outcome(
    deck: Seq<Card>,
    seats: Seq<Player>,
    n: nat,
    before: Seq<usize>,
    after: Seq<usize>,
    winner: int,
) -> bool {
    &&& deck.to_multiset() == full_deck().to_multiset()
    &&& seats.to_multiset() == dealt_players(deck, n).to_multiset()
    &&& is_winner(seats, community_cards(deck, n), winner)
    &&& after == tally_after(before, seats, community_cards(deck, n))
}

/// Whether a table of `num_players` can be dealt from one deck.
pub fn is_valid_player_count(num_players: usize) -> (ok: bool)
    ensures
        ok == valid_player_count(num_players as int),
{
    1 <= num_players && num_players <= MAX_PLAYERS
}

/// Deals two hole cards to each of `num_players` players, in player order.
pub fn deal_hole_cards(deck: &mut Deck, num_players: usize) -> (players: Vec<Player>)
    requires
        2 * num_players <= old(deck)@.len(),
    ensures
        players@ == dealt_players(old(deck)@, num_players as nat),
        final(deck)@ == remaining_after(old(deck)@, (2 * num_players) as nat),
        old(deck).well_formed() ==> final(deck).well_formed(),
{
    let ghost start = deck@;
    let mut players: Vec<Player> = Vec::new();
    let mut i: usize = 0;
    proof {
        assert(deck@ == remaining_after(start, 0));
    }
    while i < num_players
        invariant
            i <= num_players,
            2 * num_players <= start.len(),
            deck@ == remaining_after(start, (2 * i) as nat),
            players@ == dealt_players(start, i as nat),
            old(deck).well_formed() ==> deck.well_formed(),
            start == old(deck)@,
        decreases num_players - i,
    {
        proof {
            lemma_deal_one_more(start, (2 * i) as nat);
            lemma_deal_one_more(start, (2 * i + 1) as nat);
        }
        let first = deck.deal().unwrap();
        let second = deck.deal().unwrap();
        players.push(Player { hand: (first, second) });
        i += 1;
        proof {
            assert(players@ =~= dealt_players(start, i as nat));
        }
    }
    players
}

/// Deals the five community cards.
pub fn deal_community_cards(deck: &mut Deck) -> (board: Vec<Card>)
    requires
        old(deck)@.len() >= 5,
    ensures
        board@ == dealt_from(old(deck)@, 5),
        final(deck)@ == remaining_after(old(deck)@, 5),
        old(deck).well_formed() ==> final(deck).well_formed(),
{
    let ghost start = deck@;
    let mut board: Vec<Card> = Vec::with_capacity(5);
    let mut i: usize = 0;
    proof {
        assert(deck@ == remaining_after(start, 0));
    }
    while i < BOARD_SIZE
        invariant
            i <= BOARD_SIZE,
            start.len() >= 5,
            deck@ == remaining_after(start, i as nat),
            board@ == dealt_from(start, i as nat),
            old(deck).well_formed() ==> deck.well_formed(),
            start == old(deck)@,
        decreases BOARD_SIZE - i,
    {
        proof {
            lemma_deal_one_more(start, i as nat);
        }
        let card = deck.deal().unwrap();
        board.push(card);
        i += 1;
    }
    board
}

/// Ranks the best hand a player can make with the community cards.
pub fn evaluate_player(player: &Player, community_cards: &Vec<Card>) -> (hand_rank: HandRank)
    ensures
        hand_rank == player_rank(*player, community_cards@),
{
    let mut all_cards: Vec<Card> = Vec::new();
    all_cards.push(player.hand.0);
    all_cards.push(player.hand.1);
    let mut k: usize = 0;
    while k < community_cards.len()
        invariant
            k <= community_cards@.len(),
            all_cards@ == seq![player.hand.0, player.hand.1] + community_cards@.take(k as int),
        decreases community_cards@.len() - k,
    {
        all_cards.push(community_cards[k]);
        k += 1;
        proof {
            assert(all_cards@ =~= seq![player.hand.0, player.hand.1] + community_cards@.take(
                k as int,
            ));
        }
    }
    proof {
        assert(community_cards@.take(community_cards@.len() as int) == community_cards@);
    }
    evaluate_hand(all_cards.as_slice())
}

/// Ranks every player's best hand, counts its category into
/// `hand_rank_counts`, and returns the seats that hold the best hand, in
/// seat order. More than one seat is returned exactly when the best hand is
/// tied.
pub fn showdown(
    players: &Vec<Player>,
    community_cards: &Vec<Card>,
    hand_rank_counts: &mut HandRankCounts,
) -> (tied: Vec<usize>)
    requires
        old(hand_rank_counts).well_formed(),
        old(hand_rank_counts).spec_total() + players@.len() <= usize::MAX,
    ensures
        final(hand_rank_counts).well_formed(),
        final(hand_rank_counts).counts@ == tally_after(
            old(hand_rank_counts).counts@,
            players@,
            community_cards@,
        ),
        final(hand_rank_counts).spec_total() == old(hand_rank_counts).spec_total()
            + players@.len(),
        forall|w: usize| tied@.contains(w) <==> is_winner(players@, community_cards@, w as int),
        forall|a: int, b: int| 0 <= a < b < tied@.len() ==> tied@[a] < tied@[b],
        players@.len() > 0 ==> tied@.len() > 0,
{
    let ghost board = community_cards@;
    let ghost before = hand_rank_counts.counts@;
    let mut best_hand_rank = HandRank::HighCard(Rank::Two);
    let mut winner_indices: Vec<usize> = Vec::new();
    let mut i: usize = 0;
    while i < players.len()
        invariant
            i <= players@.len(),
            board == community_cards@,
            before == old(hand_rank_counts).counts@,
            hand_rank_counts.well_formed(),
            hand_rank_counts.counts@ == tally_after(before, players@.take(i as int), board),
            hand_rank_counts.spec_total() == old(hand_rank_counts).spec_total() + i,
            old(hand_rank_counts).spec_total() + players@.len() <= usize::MAX,
            forall|j: int|
                0 <= j < i ==> !(#[trigger] player_rank(players@[j], board)).spec_beats(
                    best_hand_rank,
                ),
            i == 0 ==> best_hand_rank == HandRank::HighCard(Rank::Two) && winner_indices@.len()
                == 0,
            i > 0 ==> winner_indices@.len() > 0,
            forall|k: int|
                0 <= k < winner_indices@.len() ==> (#[trigger] winner_indices@[k]) < i
                    && player_rank(players@[winner_indices@[k] as int], board) == best_hand_rank,
            forall|j: int|
                0 <= j < i && #[trigger] player_rank(players@[j], board) == best_hand_rank
                    ==> winner_indices@.contains(j as usize),
            forall|a: int, b: int|
                0 <= a < b < winner_indices@.len() ==> winner_indices@[a] < winner_indices@[b],
        decreases players@.len() - i,
    {
        let hand_rank = evaluate_player(&players[i], community_cards);
        proof {
            assert(players@.take(i + 1).drop_last() == players@.take(i as int));
            assert(players@.take(i + 1).last() == players@[i as int]);
        }
        hand_rank_counts.record(&hand_rank);
        let ghost previous = winner_indices@;
        if hand_rank.beats(&best_hand_rank) {
            best_hand_rank = hand_rank;
            winner_indices.clear();
            winner_indices.push(i);
            proof {
                assert(winner_indices@[0] == i);
                assert forall|j: int|
                    0 <= j < i + 1 && #[trigger] player_rank(players@[j], board)
                        == best_hand_rank implies winner_indices@.contains(j as usize) by {
                    if j < i {
                        assert(!player_rank(players@[j], board).spec_beats(hand_rank));
                    }
                }
            }
        } else if hand_rank == best_hand_rank {
            winner_indices.push(i);
            proof {
                assert(winner_indices@[previous.len() as int] == i);
                assert forall|j: int|
                    0 <= j < i + 1 && #[trigger] player_rank(players@[j], board)
                        == best_hand_rank implies winner_indices@.contains(j as usize) by {
                    if j < i {
                        let k = choose|k: int| 0 <= k < previous.len() && previous[k] == j as usize;
                        assert(winner_indices@[k] == j as usize);
                    }
                }
            }
        } else {
            proof {
                lemma_order_total(hand_rank, best_hand_rank);
                if i == 0 {
                    lemma_high_card_two_is_bottom(hand_rank);
                }
            }
        }
        i += 1;
    }
    proof {
        assert(players@.take(players@.len() as int) == players@);
        assert forall|w: usize| winner_indices@.contains(w) <==> is_winner(
            players@,
            board,
            w as int,
        ) by {
            if winner_indices@.contains(w) {
                let k = choose|k: int| 0 <= k < winner_indices@.len() && winner_indices@[k] == w;
                assert(player_rank(players@[winner_indices@[k] as int], board) == best_hand_rank);
            }
            if is_winner(players@, board, w as int) {
                let k0 = winner_indices@[0] as int;
                let top = player_rank(players@[k0], board);
                assert(top == best_hand_rank);
                assert(!top.spec_beats(player_rank(players@[w as int], board)));
                assert(!player_rank(players@[w as int], board).spec_beats(best_hand_rank));
                lemma_order_total(player_rank(players@[w as int], board), best_hand_rank);
            }
        }
    }
    winner_indices
}

/// Picks the winner among the seats tied for the best hand, each with the
/// same chance.
pub fn choose_winner(tied: &Vec<usize>) -> (winner: usize)
    requires
        tied@.len() > 0,
    ensures
        tied@.contains(winner),
{
    match choose_one(tied) {
        Some(winner) => winner,
        None => tied[0],
    }
}

/// Plays one game for `num_players` players and returns the winning seat.
///
/// A fresh deck is shuffled, two hole cards are dealt to each player in
/// turn, the players are seated in random order, five community cards are
/// dealt, every seat's best hand is counted into `hand_rank_counts`, and a
/// tie for the best hand is broken at random.
pub fn simulate_game(num_players: usize, hand_rank_counts: &mut HandRankCounts) -> (winner: usize)
    requires
        valid_player_count(num_players as int),
        old(hand_rank_counts).well_formed(),
        old(hand_rank_counts).spec_total() + num_players <= usize::MAX,
    ensures
        winner < num_players,
        final(hand_rank_counts).well_formed(),
        final(hand_rank_counts).spec_total() == old(hand_rank_counts).spec_total() + num_players,
        exists|deck: Seq<Card>, seats: Seq<Player>|
            is_game_outcome(
                deck,
                seats,
                num_players as nat,
                old(hand_rank_counts).counts@,
                final(hand_rank_counts).counts@,
                winner as int,
            ),
{
    let mut deck = Deck::new();
    deck.shuffle();
    let ghost shuffled = deck@;

    let mut players = deal_hole_cards(&mut deck, num_players);
    let ghost dealt = players@;
    shuffle(&mut players);
    proof {
        dealt.to_multiset_ensures();
        players@.to_multiset_ensures();
    }

    let community_cards = deal_community_cards(&mut deck);
    let tied = showdown(&players, &community_cards, hand_rank_counts);
    let winner = choose_winner(&tied);
    proof {
        assert(is_game_outcome(
            shuffled,
            players@,
            num_players as nat,
            old(hand_rank_counts).counts@,
            hand_rank_counts.counts@,
            winner as int,
        ));
    }
    winner
}

} // verus!
