//! A Sokoban-style board game core: a rectangular map of terrain cells, a
//! player that pushes crates onto target cells, a win condition, a reset to
//! the initial layout, and a parser for a plain-text level format.
//!
//! Every operation carries a contract stating exactly what it computes; the
//! board invariants (no two crates on one cell, everything on crossable
//! ground) are proved to be preserved by every move.

pub mod board;
pub mod game;
pub mod map;
pub mod movable;
pub mod parse;
pub mod textutil;

pub use board::{Board, BoardElem, BoardModel, MovableItem};
pub use game::{apply_action, Action, DisplayKind, StepOutcome};
pub use map::{CellKind, Grid, GridModel, MapError};
pub use movable::{Crate, Direction};
pub use parse::{parse_level, LevelParseError, ParseFail};
