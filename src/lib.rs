//! Exact heads-up poker equity: a bitset model of cards, a table-driven
//! seven-card hand evaluator and an enumeration of every completion of a deal.
pub mod poker;
pub mod utils;

pub use crate::poker::Game;

use vstd::prelude::*;
use crate::poker::game::{as_counts, outcome_counts, valid_deal};
use crate::poker::hand::parse_hand;

verus! {

/// Wins, losses and ties of the first hand; all zero for a deal that
/// cannot be solved.
#[derive(Debug, Clone, Copy, PartialEq, Eq, Structural)]
pub struct GameResult {
    pub win: usize,
    pub lose: usize,
    pub tie: usize,
}

/// Solves the deal written as three hands of notation with `game`'s
/// evaluator; a deal that is not valid gives zero counts.
pub fn solve(game: &mut Game, hand_a: &str, hand_b: &str, community: &str) -> (r: GameResult)
    requires
        old(game).evaluator.wf(),
    ensures
        final(game).wf(),
        ({
            let (a, b, c) = (parse_hand(hand_a@), parse_hand(hand_b@), parse_hand(community@));
            if valid_deal(a, b, c) {
                (r.win, r.lose, r.tie) == as_counts(outcome_counts(a, b, c))
            } else {
                r == (GameResult { win: 0, lose: 0, tie: 0 })
            }
        }),
{
    match game.solve_by(hand_a, hand_b, community) {
        Ok((win, lose, tie)) => GameResult { win, lose, tie },
        Err(_) => GameResult { win: 0, lose: 0, tie: 0 },
    }
}

} // verus!
