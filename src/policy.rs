//! Players: the capability every player offers, and the shared source of
//! random choices.
pub mod mcts;
pub mod random;

use crate::game::{move_of, Board, Move};
use rand::seq::IteratorRandom;
use vstd::prelude::*;

pub use mcts::MctsPolicy;
pub use random::RandomPolicy;

verus! {

/// rand's `SmallRng`, the source of the random choices; carried through
/// unopened.
#[verifier::external_type_specification]
#[verifier::external_body]
pub struct ExSmallRng(rand::rngs::SmallRng);

/// Relies on rand's `IteratorRandom::choose` over `0..len`: `None` for an
/// empty range, else one index of the range.
#[verifier::external_body]
pub(crate) fn choose_index(rng: &mut rand::rngs::SmallRng, len: usize) -> (r: Option<usize>)
    ensures
        r is None <==> len == 0,
        r matches Some(i) ==> i < len,
{
    (0..len).choose(rng)
}

/// The characters with Unicode's White_Space property.
pub open spec fn is_white_space(c: char) -> bool {
    ('\u{9}' <= c <= '\u{d}') || c == ' ' || c == '\u{85}' || c == '\u{a0}' || c == '\u{1680}'
        || ('\u{2000}' <= c <= '\u{200a}') || c == '\u{2028}' || c == '\u{2029}' || c
        == '\u{202f}' || c == '\u{205f}' || c == '\u{3000}'
}

/// `s` without its leading white space.
pub open spec fn trim_start(s: Seq<char>) -> Seq<char>
    decreases s.len(),
{
    if s.len() > 0 && is_white_space(s[0]) {
        trim_start(s.skip(1))
    } else {
        s
    }
}

/// `s` without its trailing white space.
pub open spec fn trim_end(s: Seq<char>) -> Seq<char>
    decreases s.len(),
{
    if s.len() > 0 && is_white_space(s.last()) {
        trim_end(s.drop_last())
    } else {
        s
    }
}

/// `s` without its leading and trailing white space.
pub open spec fn trimmed(s: Seq<char>) -> Seq<char> {
    trim_end(trim_start(s))
}

/// Relies on `str::trim`: the text without its leading and trailing white
/// space, white space being the characters with Unicode's White_Space
/// property.
#[verifier::external_body]
fn trim(s: &str) -> (r: &str)
    ensures
        r@ == trimmed(s@),
{
    s.trim()
}

/// A player at the keyboard: each line typed names a house by its number.
pub struct HumanPolicy;

impl HumanPolicy {
    /// The board after the move that `line` names, or `None` where the line,
    /// once trimmed, names no house number `1..=6` or names an empty house.
    pub fn respond(&self, board: &Board, line: &str) -> (r: Option<Board>)
        requires
            board.wf(),
        ensures
            r is Some <==> (move_of(trimmed(line@)) matches Some(m) && board.spec_is_valid_move(
                m.0 as int,
            )),
            r matches Some(b) ==> board.is_successor(b, (move_of(trimmed(line@))->0).0 as int),
    {
        match Move::from_text(trim(line)) {
            Some(next_move) => {
                if board.is_valid_move(next_move) {
                    let mut next = *board;
                    next.apply_move(next_move);
                    Some(next)
                } else {
                    None
                }
            },
            None => None,
        }
    }
}

/// A player: given the board on which it is to move, it answers with the
/// board after one legal move of its own.
pub trait Policy {
    fn play(&mut self, board: &Board) -> (r: Board)
        requires
            board.wf(),
            !board.spec_is_game_over(),
        ensures
            exists|m: int| board.spec_is_valid_move(m) && board.is_successor(r, m),
    ;

    /// Tells the player the board that the other side's move produced.
    fn on_opponents_move(&mut self, board: &Board) {
    }
}

} // verus!
