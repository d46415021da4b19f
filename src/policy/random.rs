//! A player that picks one of the legal moves at random.
use super::{choose_index, Policy};
use crate::game::{lemma_legal_moves, Board};
use rand::rngs::SmallRng;
use vstd::prelude::*;

verus! {

pub struct RandomPolicy {
    rng: SmallRng,
}

impl RandomPolicy {
    pub fn new(rng: SmallRng) -> (r: RandomPolicy) {
        RandomPolicy { rng }
    }
}

impl Policy for RandomPolicy {
    fn play(&mut self, board: &Board) -> (r: Board) {
        let moves = board.possible_moves();
        proof {
            lemma_legal_moves(*board);
        }
        let k = match choose_index(&mut self.rng, moves.len()) {
            Some(k) => k,
            None => 0,
        };
        let next_move = moves[k];
        let mut next = *board;
        next.apply_move(next_move);
        next
    }
}

} // verus!
