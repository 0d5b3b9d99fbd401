//! A minesweeper board engine: a dense grid of tiles, safe mine placement
//! around a first move, flood-fill reveals, chorded opening, flagging and
//! reversible move records, with deferred-initialisation and move-logging
//! board variants sharing one board contract.
#![allow(deprecated)]

pub mod counting;
pub mod tiles;
pub mod errors;
pub mod flatboard;
pub mod gameboard;
pub mod interface;
pub mod lazy;
pub mod logged;

pub use errors::{assert_not_bomb, NewBoardError, UndoError, UnopenableError};
pub use flatboard::{FlatBoard, IterBacking, IterBackingMut};
pub use tiles::{BoardTile, Tile, Visibility, VisibleTile};
pub use gameboard::{widening_mul, GameBoard};
pub use interface::{BaseGameBoard, BaseGameBoard_do_event, GameBoardEvent, KeyEvent};
pub use lazy::LazyGameBoard;
pub use logged::{KeyEventEffect, LogFrame, LoggedGameBoard};
