//! Things that move on the board: the push directions and the crates.

use vstd::prelude::*;

use crate::board::Board;
use crate::map::CellKind;

verus! {

/// A direction the player can be moved in. Each maps to a unit step on one
/// axis.
#[derive(Clone, Copy, Debug, PartialEq, Eq, Structural)]
pub enum Direction {
    Left,
    Right,
    Up,
    Down,
}

impl Default for Direction {
    /// The direction used before any input arrived.
    fn default() -> (r: Self)
        ensures
            r == Direction::Down,
    {
        Direction::Down
    }
}

/// One step from `p` in direction `d`. The step saturates: it clamps at `0`
/// on the low side and at `u32::MAX` on the high side instead of wrapping.
pub open spec fn dir_step(d: Direction, p: (u32, u32)) -> (u32, u32) {
    match d {
        Direction::Left => ((if p.0 == 0 {
            0u32
        } else {
            (p.0 - 1) as u32
        }), p.1),
        Direction::Right => ((if p.0 == u32::MAX {
            u32::MAX
        } else {
            (p.0 + 1) as u32
        }), p.1),
        Direction::Up => (p.0, (if p.1 == 0 {
            0u32
        } else {
            (p.1 - 1) as u32
        })),
        Direction::Down => (p.0, (if p.1 == u32::MAX {
            u32::MAX
        } else {
            (p.1 + 1) as u32
        })),
    }
}

/// Stepping further left from column `0`, or further up from row `0`, leaves
/// the position unchanged: the board edge clamps, it never wraps or fails.
pub proof fn lemma_dir_step_clamps(p: (u32, u32))
    ensures
        p.0 == 0 ==> dir_step(Direction::Left, p) == p,
        p.1 == 0 ==> dir_step(Direction::Up, p) == p,
{
}

impl Direction {
    /// The coordinates one step away from `(i, j)` in this direction,
    /// clamped at the low board edge (and at `u32::MAX`) instead of wrapping.
    pub fn to_coords(self, i: u32, j: u32) -> (r: (u32, u32))
        ensures
            r == dir_step(self, (i, j)),
    {
        match self {
            Direction::Left => (i.saturating_sub(1), j),
            Direction::Right => (i.saturating_add(1), j),
            Direction::Up => (i, j.saturating_sub(1)),
            Direction::Down => (i, j.saturating_add(1)),
        }
    }
}

/// A crate: a movable box that the player pushes around. It is identified by
/// its index in the board's crate sequence and carries only its position.
#[derive(Clone, Copy, Debug, PartialEq, Eq, Structural)]
pub struct Crate {
    i: u32,
    j: u32,
}

impl View for Crate {
    type V = (u32, u32);

    closed spec fn view(&self) -> (u32, u32) {
        (self.i, self.j)
    }
}

impl Crate {
    /// A crate sitting at column `i`, row `j`.
    pub fn new(i: u32, j: u32) -> (r: Self)
        ensures
            r@ == (i, j),
    {
        Crate { i, j }
    }

    /// The crate's position as `(column, row)`.
    pub fn pos(&self) -> (r: (u32, u32))
        ensures
            r == self@,
    {
        (self.i, self.j)
    }

    /// Places the crate at `(i, j)`. The caller is responsible for handing in
    /// coordinates that keep the board's invariants.
    pub fn do_move(&mut self, i: u32, j: u32)
        ensures
            final (self)@ == (i, j),
    {
        self.i = i;
        self.j = j;
    }

    /// Whether the crate rests on a `Target` cell of the given board's map.
    pub fn is_placed(&self, board: &Board) -> (r: bool)
        ensures
            r == (board@.grid.cell(self@.0 as int, self@.1 as int) is Target),
    {
        matches!(board.get(self.i, self.j).1, CellKind::Target)
    }
}

} // verus!
