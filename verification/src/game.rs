//! The turn engine: what one player action does to the board and what the
//! surrounding interface layer has to show for it.

use vstd::prelude::*;

use crate::board::{
    lemma_move_keeps_original, lemma_move_preserves_inv, lemma_reset_idempotent, Board, BoardModel,
};
use crate::movable::Direction;

verus! {

/// How the game should be presented.
#[derive(Clone, Copy, Debug, PartialEq, Eq)]
pub enum DisplayKind {
    /// Basic terminal prompt.
    CLI,
    /// Dynamic terminal display.
    TUI,
}

/// An action the interface layer hands to the turn engine.
#[derive(Clone, Copy, Debug, PartialEq, Eq)]
pub enum Action {
    /// Move the player (possibly pushing a crate).
    Movement(Direction),
    /// Put the player and the crates back to the original layout.
    ResetLevel,
    /// Quit the game.
    Quit,
}

/// What one action did, for the interface layer to act upon.
#[derive(Clone, Copy, Debug, PartialEq, Eq)]
pub enum StepOutcome {
    /// The move attempt ended with this result (`None` = blocked,
    /// `Some(None)` = plain step, `Some(Some(k))` = crate `k` pushed); show
    /// it and keep playing.
    Moved(Option<Option<usize>>),
    /// The move pushed a crate and now every crate rests on a target: show
    /// the final move, celebrate, and end the game.
    Won(Option<Option<usize>>),
    /// The board was put back to its original layout; keep playing.
    Reset,
    /// The player asked to quit; end the game.
    Quit,
}

/// The state one action leaves behind, as a pure state transformation.
pub open spec fn step_model(m: BoardModel, a: Action) -> BoardModel {
    match a {
        Action::Movement(d) => m.move_result(d).0,
        Action::ResetLevel => m.reset_state(),
        Action::Quit => m,
    }
}

/// The state a whole sequence of actions leaves behind.
pub open spec fn run_model(m: BoardModel, acts: Seq<Action>) -> BoardModel
    decreases acts.len(),
{
    if acts.len() == 0 {
        m
    } else {
        run_model(step_model(m, acts[0]), acts.drop_first())
    }
}

/// After any sequence of moves and resets on a board whose current and saved
/// layouts satisfy the board invariants, the invariants still hold: no two
/// crates share a cell, the player shares a cell with no crate, and the
/// player and every crate rest on crossable ground.
pub proof fn lemma_action_sequences_preserve_inv(m: BoardModel, acts: Seq<Action>)
    requires
        m.inv(),
        m.original_inv(),
    ensures
        run_model(m, acts).inv(),
        run_model(m, acts).original_inv(),
    decreases acts.len(),
{
    if acts.len() > 0 {
        let m1 = step_model(m, acts[0]);
        match acts[0] {
            Action::Movement(d) => {
                lemma_move_preserves_inv(m, d);
                lemma_move_keeps_original(m, d);
            },
            Action::ResetLevel => {
                lemma_reset_idempotent(m);
            },
            Action::Quit => {},
        }
        lemma_action_sequences_preserve_inv(m1, acts.drop_first());
    }
}

/// Applies one action to the board and says what to do next: this is the
/// decision core of a game loop. A movement mutates the board as
/// [`Board::do_move_player`] does and ends the game exactly when it pushed a
/// crate and every crate now rests on a target; a reset restores the original
/// layout; quitting changes nothing. Board invariants are preserved.
pub fn apply_action(board: &mut Board, action: Action) -> (r: StepOutcome)
    ensures
        match action {
            Action::Movement(d) => {
                &&& final (board)@ == old(board)@.move_result(d).0
                &&& ({
                    let out = old(board)@.move_result(d).1;
                    r == (if (out matches Some(Some(_))) && final (board)@.won() {
                        StepOutcome::Won(out)
                    } else {
                        StepOutcome::Moved(out)
                    })
                })
            },
            Action::ResetLevel => final (board)@ == old(board)@.reset_state() && r
                == StepOutcome::Reset,
            Action::Quit => final (board)@ == old(board)@ && r == StepOutcome::Quit,
        },
        final (board)@ == step_model(old(board)@, action),
        old(board)@.inv() && old(board)@.original_inv() ==> final (board)@.inv(),
        old(board)@.original_inv() ==> final (board)@.original_inv(),
{
    match action {
        Action::Movement(d) => {
            let out = board.do_move_player(d);
            let pushed = match out {
                Some(Some(_)) => true,
                _ => false,
            };
            if pushed && board.has_won() {
                StepOutcome::Won(out)
            } else {
                StepOutcome::Moved(out)
            }
        },
        Action::ResetLevel => {
            board.reset();
            StepOutcome::Reset
        },
        Action::Quit => StepOutcome::Quit,
    }
}

} // verus!
