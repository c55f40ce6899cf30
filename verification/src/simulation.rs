//! Running many games and adding up their results.

use crate::hand_rank::CATEGORY_COUNT;
use crate::game::{is_valid_player_count, simulate_game, valid_player_count};
use crate::tally::{lemma_sum_bounds_entry, lemma_sum_update, sum_counts, HandRankCounts};
use vstd::prelude::*;

verus! {

/// Why a simulation cannot be run.
#[derive(Debug, Clone, Copy, PartialEq, Eq, Structural)]
pub enum SimulationError {
    /// The table cannot be dealt from one deck: there is no player, or two
    /// cards each plus the board exceed fifty-two.
    InvalidPlayerCount,
    /// The number of hands to count, games times players, does not fit the
    /// counters.
    TooManyHands,
}

/// The results of a number of games at one table: how often each seat won,
/// and how often each hand category was seen over all seats and games.
pub struct SimulationTotals {
    /// Wins per seat.
    pub wins: Vec<usize>,
    /// Hands seen per category.
    pub hand_rank_counts: HandRankCounts,
    /// Games recorded.
    pub games: usize,
}

impl SimulationTotals {
    /// Number of seats at the table.
    pub open spec fn spec_num_players(&self) -> nat {
        self.wins@.len()
    }

    /// Every game has one winner and counts one hand for each seat: the wins
    /// add up to the number of games, and the category counts to the number
    /// of games times the number of seats.
    pub open spec fn well_formed(&self) -> bool {
        &&& self.hand_rank_counts.well_formed()
        &&& sum_counts(self.wins@) == self.games
        &&& self.hand_rank_counts.spec_total() == self.games * self.wins@.len()
    }

    /// Totals of no games at a table of `num_players` seats.
    pub fn new(num_players: usize) -> (totals: SimulationTotals)
        ensures
            totals.well_formed(),
            totals.spec_num_players() == num_players,
            totals.games == 0,
            totals.wins@ == Seq::new(num_players as nat, |seat: int| 0usize),
            totals.hand_rank_counts.counts@ == Seq::new(CATEGORY_COUNT as nat, |c: int| 0usize),
    {
        let mut wins: Vec<usize> = Vec::new();
        let mut k: usize = 0;
        while k < num_players
            invariant
                k <= num_players,
                wins@.len() == k,
                forall|j: int| 0 <= j < k ==> wins@[j] == 0,
                sum_counts(wins@) == 0,
            decreases num_players - k,
        {
            proof {
                assert(wins@.push(0usize).drop_last() == wins@);
            }
            wins.push(0);
            k += 1;
        }
        proof {
            assert(wins@ =~= Seq::new(num_players as nat, |seat: int| 0usize));
        }
        SimulationTotals { wins, hand_rank_counts: HandRankCounts::new(), games: 0 }
    }

    /// Adds the result of one game: a win for the seat `winner`, and the
    /// categories counted in that game.
    pub fn record_game(&mut self, winner: usize, game_counts: &HandRankCounts)
        requires
            old(self).well_formed(),
            game_counts.well_formed(),
            winner < old(self).spec_num_players(),
            game_counts.spec_total() == old(self).spec_num_players(),
            old(self).games < usize::MAX,
            old(self).hand_rank_counts.spec_total() + game_counts.spec_total() <= usize::MAX,
        ensures
            final(self).well_formed(),
            final(self).games == old(self).games + 1,
            final(self).wins@ == old(self).wins@.update(
                winner as int,
                (old(self).wins@[winner as int] + 1) as usize,
            ),
            forall|c: int|
                0 <= c < CATEGORY_COUNT ==> #[trigger] final(self).hand_rank_counts.spec_count(c)
                    == old(self).hand_rank_counts.spec_count(c) + game_counts.spec_count(c),
    {
        proof {
            lemma_sum_bounds_entry(self.wins@, winner as int);
            lemma_sum_update(self.wins@, winner as int, (self.wins@[winner as int] + 1) as usize);
            assert((self.games + 1) * self.wins@.len() == self.games * self.wins@.len()
                + self.wins@.len()) by (nonlinear_arith);
        }
        let n = self.wins[winner];
        self.wins.set(winner, n + 1);
        self.hand_rank_counts.merge(game_counts);
        self.games = self.games + 1;
    }
}

/// Plays `num_games` independent games at a table of `num_players` and adds
/// up the results.
///
/// The table is checked before any game is played. On success the wins of
/// all seats add up to `num_games` and the category counts to `num_games`
/// times `num_players`.
pub fn run_simulation(num_games: usize, num_players: usize) -> (result: Result<
    SimulationTotals,
    SimulationError,
>)
    ensures
        !valid_player_count(num_players as int) ==> result == Err::<
            SimulationTotals,
            SimulationError,
        >(SimulationError::InvalidPlayerCount),
        valid_player_count(num_players as int) && num_games * num_players > usize::MAX ==> result
            == Err::<SimulationTotals, SimulationError>(SimulationError::TooManyHands),
        valid_player_count(num_players as int) && num_games * num_players <= usize::MAX
            ==> result is Ok,
        result matches Ok(totals) ==> totals.well_formed() && totals.games == num_games
            && totals.spec_num_players() == num_players && sum_counts(totals.wins@) == num_games
            && totals.hand_rank_counts.spec_total() == num_games * num_players,
{
    if !is_valid_player_count(num_players) {
        return Err(SimulationError::InvalidPlayerCount);
    }
    if num_games.checked_mul(num_players).is_none() {
        return Err(SimulationError::TooManyHands);
    }
    let mut totals = SimulationTotals::new(num_players);
    let mut game: usize = 0;
    while game < num_games
        invariant
            game <= num_games,
            valid_player_count(num_players as int),
            num_games * num_players <= usize::MAX,
            totals.well_formed(),
            totals.games == game,
            totals.spec_num_players() == num_players,
        decreases num_games - game,
    {
        proof {
            assert((game + 1) * num_players <= num_games * num_players) by (nonlinear_arith)
                requires
                    game + 1 <= num_games,
                    num_players >= 0,
            ;
            assert((game + 1) * num_players == game * num_players + num_players)
                by (nonlinear_arith);
        }
        let mut game_counts = HandRankCounts::new();
        let winner = simulate_game(num_players, &mut game_counts);
        totals.record_game(winner, &game_counts);
        game += 1;
    }
    Ok(totals)
}

} // verus!
