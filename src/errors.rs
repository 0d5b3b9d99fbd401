//! The errors that constructing, playing on, or undoing moves on a board can return.
use vstd::prelude::*;
use crate::tiles::Tile;

verus! {

/// Why a board could not be created.
#[derive(Copy, Clone, Debug, PartialEq, Eq, Structural)]
pub enum NewBoardError {
    /// More mines than the board has room for, or than leaves a clearing.
    BombOverflow,
    /// One of the dimensions was zero.
    ZeroDimension,
    /// A dimension or the mine count is over its limit, or the clearing is off the board.
    SizeConstraintOverflow,
}

/// Why a move could not be played; a mine hit ends the game.
#[derive(Copy, Clone, Debug, PartialEq, Eq, Structural)]
pub enum UnopenableError {
    BombHit,
    AlreadyOpen,
    FlaggedTile,
    OutOfBounds,
    FlagCountMismatch,
    GameOver,
    /// The first move's clearing cannot be kept free of mines on this board.
    NoRoomForClearing,
}

/// Why a recorded move could not be undone.
#[derive(Copy, Clone, Debug, PartialEq, Eq, Structural)]
pub enum UndoError {
    OutOfBounds,
    AlreadyClosed,
    AlreadyOpen,
}

impl NewBoardError {
    /// A message that describes the error.
    pub fn message(&self) -> &'static str {
        match self {
            NewBoardError::BombOverflow => "the count of bombs was greater than the size of the board, or was negative",
            NewBoardError::ZeroDimension => "one or more passed dimensions was zero",
            NewBoardError::SizeConstraintOverflow => "exceeded one or more dimensional limits (10k max x/y, 100m max bombs), or clearing zone was out of bounds",
        }
    }
}

impl UnopenableError {
    /// A message that describes the error.
    pub fn message(&self) -> &'static str {
        match self {
            UnopenableError::BombHit => "a bomb was under this tile",
            UnopenableError::AlreadyOpen => "this tile is already open",
            UnopenableError::FlaggedTile => "this tile is flagged",
            UnopenableError::OutOfBounds => "this tile is out of bounds",
            UnopenableError::FlagCountMismatch => "flag count does not match count of tile",
            UnopenableError::GameOver => "game has already ended",
            UnopenableError::NoRoomForClearing => "too many mines for this board to leave a clearing around this tile",
        }
    }
}

impl UndoError {
    /// A message that describes the error.
    pub fn message(&self) -> &'static str {
        match self {
            UndoError::OutOfBounds => "a tile is out of bounds",
            UndoError::AlreadyClosed => "this tile is already closed, cannot unopen",
            UndoError::AlreadyOpen => "this tile is open, cannot toggle flag",
        }
    }
}

/// Fails with a mine hit when the tile is a mine.
pub fn assert_not_bomb(t: Tile) -> (r: Result<(), UnopenableError>)
    ensures
        r == (if t == Tile::Bomb { Err(UnopenableError::BombHit) } else { Ok::<(), UnopenableError>(()) }),
{
    if t.is_bomb() {
        Err(UnopenableError::BombHit)
    } else {
        Ok(())
    }
}

} // verus!
