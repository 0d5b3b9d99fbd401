//! The contract that every board variant meets, the move records it hands
//! out, and the pointer events it handles.
use vstd::prelude::*;
use crate::errors::{NewBoardError, UndoError, UnopenableError};
use crate::flatboard::FlatBoard;
use crate::gameboard::{config_check, listed, widening_mul, MAX_SIDE};
use crate::tiles::VisibleTile;

verus! {

/// A move, recorded with what it takes to undo it.
#[derive(Clone, Debug, PartialEq, Eq)]
pub enum GameBoardEvent {
    /// The cells that one move opened, the flood fill included.
    OpenCell(Vec<(u16, u16)>),
    /// A flag put on or taken off a cell.
    ToggleFlagCell(u16, u16),
}

impl GameBoardEvent {
    /// The record of a flag toggle at `(x, y)`.
    pub fn flag_tile(x: u16, y: u16) -> (r: Self)
        ensures
            r == GameBoardEvent::ToggleFlagCell(x, y),
    {
        GameBoardEvent::ToggleFlagCell(x, y)
    }
}

impl GameBoardEvent {
    /// A record of the same move as this one.
    pub fn duplicate(&self) -> (r: Self)
        ensures
            same_record(r, *self),
    {
        match self {
            GameBoardEvent::OpenCell(v) => {
                let mut out: Vec<(u16, u16)> = Vec::with_capacity(v.len());
                let mut i: usize = 0;
                while i < v.len()
                    invariant
                        i <= v.len(),
                        out@ == v@.subrange(0, i as int),
                    decreases v.len() - i,
                {
                    out.push(v[i]);
                    i = i + 1;
                    assert(out@ =~= v@.subrange(0, i as int));
                }
                assert(out@ =~= v@);
                GameBoardEvent::OpenCell(out)
            },
            GameBoardEvent::ToggleFlagCell(x, y) => GameBoardEvent::ToggleFlagCell(*x, *y),
        }
    }
}

impl From<Vec<(u16, u16)>> for GameBoardEvent {
    /// The record of opening the listed cells.
    fn from(v: Vec<(u16, u16)>) -> (r: Self) {
        GameBoardEvent::OpenCell(v)
    }
}

impl vstd::std_specs::convert::FromSpecImpl<Vec<(u16, u16)>> for GameBoardEvent {
    open spec fn obeys_from_spec() -> bool {
        true
    }

    open spec fn from_spec(v: Vec<(u16, u16)>) -> Self {
        GameBoardEvent::OpenCell(v)
    }
}

/// A pointer or control event: a primary or secondary press at a cell, or a
/// pause, a resume or an idle tick.
#[derive(Copy, Clone, Debug, PartialEq, Eq, Structural)]
pub enum KeyEvent {
    Mouse1(u16, u16),
    Mouse2(u16, u16),
    Pause,
    UnPause,
    Idle,
}

/// Whether two records describe the same move.
pub open spec fn same_record(a: GameBoardEvent, b: GameBoardEvent) -> bool {
    match a {
        GameBoardEvent::OpenCell(v) => b is OpenCell && opened_cells(b) == v@,
        GameBoardEvent::ToggleFlagCell(x, y) => b == GameBoardEvent::ToggleFlagCell(x, y),
    }
}

/// The cells of a move record that opened cells; none for a flag toggle.
pub open spec fn opened_cells(e: GameBoardEvent) -> Seq<(u16, u16)> {
    match e {
        GameBoardEvent::OpenCell(v) => v@,
        GameBoardEvent::ToggleFlagCell(_, _) => Seq::empty(),
    }
}

/// What a player sees of a cell after a flag toggle: closed and flagged
/// swap, an open cell stays open.
pub open spec fn vis_toggled(v: VisibleTile) -> VisibleTile {
    match v {
        VisibleTile::NotVisible => VisibleTile::Flagged,
        VisibleTile::Flagged => VisibleTile::NotVisible,
        VisibleTile::Visible(t) => VisibleTile::Visible(t),
    }
}

/// What every board variant offers: its dimensions and mine count, what a
/// player sees of each cell, and the moves of the game.
pub trait BaseGameBoard: Sized {
    /// The board is in a state its operations accept.
    spec fn spec_inv(&self) -> bool;

    /// The number of columns.
    spec fn spec_width(&self) -> nat;

    /// The number of rows.
    spec fn spec_height(&self) -> nat;

    /// The number of mines.
    spec fn spec_bombs(&self) -> nat;

    /// What a player sees at `(x, y)`, or `None` off the board.
    spec fn spec_tile(&self, x: int, y: int) -> Option<VisibleTile>;

    /// The number of open cells.
    spec fn spec_opened(&self) -> nat;

    /// The number of flagged cells.
    spec fn spec_flagged(&self) -> nat;

    /// The error that opening `(x, y)` fails with, if any.
    spec fn spec_open_error(&self, x: int, y: int) -> Option<UnopenableError>;

    /// The error that a chorded open at `(x, y)` fails with, if any.
    spec fn spec_chord_error(&self, x: int, y: int) -> Option<UnopenableError>;

    /// The error that toggling a flag at `(x, y)` fails with, if any.
    spec fn spec_flag_error(&self, x: int, y: int) -> Option<UnopenableError>;

    /// The error that undoing a recorded move fails with, if any.
    spec fn spec_undo_error(&self, e: GameBoardEvent) -> Option<UndoError>;

    /// Whether a board made by `with_clearing` has already opened its
    /// clearing cell; otherwise every cell of it is closed.
    spec fn spec_opens_clearing() -> bool;

    /// The open cells and the mines fit on the board together; so do the flags.
    proof fn lemma_counts(&self)
        requires
            self.spec_inv(),
        ensures
            self.spec_opened() + self.spec_bombs() <= self.spec_width() * self.spec_height(),
            self.spec_flagged() <= self.spec_width() * self.spec_height(),
            self.spec_width() <= MAX_SIDE,
            self.spec_height() <= MAX_SIDE,
    ;

    /// The dimensions, as (columns, rows).
    fn dimensions(&self) -> (r: (u16, u16))
        requires
            self.spec_inv(),
        ensures
            r.0 == self.spec_width(),
            r.1 == self.spec_height(),
    ;

    /// The number of mines.
    fn bomb_count(&self) -> (r: u32)
        requires
            self.spec_inv(),
        ensures
            r == self.spec_bombs(),
    ;

    /// The number of open cells.
    fn opened(&self) -> (r: u32)
        requires
            self.spec_inv(),
        ensures
            r == self.spec_opened(),
    ;

    /// The number of flagged cells.
    fn flagged(&self) -> (r: u32)
        requires
            self.spec_inv(),
        ensures
            r == self.spec_flagged(),
    ;

    /// A board of `x` columns, `y` rows and `bombs` mines, with no mine in
    /// the clearing around `(clear_x, clear_y)`. Fails exactly when the
    /// configuration does not pass the checks of `validate_board`.
    fn with_clearing(x: u16, y: u16, bombs: u32, clear_x: u16, clear_y: u16) -> (r: Result<
        Self,
        NewBoardError,
    >)
        ensures
            r is Err <==> config_check(x, y, bombs, true, Some((clear_x, clear_y))) is Err,
            r is Err ==> r->Err_0 == config_check(x, y, bombs, true, Some((clear_x, clear_y)))->Err_0,
            r is Ok ==> r->Ok_0.spec_inv() && r->Ok_0.spec_width() == x && r->Ok_0.spec_height() == y
                && r->Ok_0.spec_bombs() == bombs,
            r is Ok && !Self::spec_opens_clearing() ==> {
                &&& r->Ok_0.spec_open_error(clear_x as int, clear_y as int) is None
                &&& r->Ok_0.spec_chord_error(clear_x as int, clear_y as int) is None
                &&& r->Ok_0.spec_flag_error(clear_x as int, clear_y as int) is None
                &&& forall|a: int, b: int|
                    #[trigger] r->Ok_0.spec_tile(a, b) == if 0 <= a < x && 0 <= b < y {
                        Some(VisibleTile::NotVisible)
                    } else {
                        None
                    }
            },
            r is Ok && Self::spec_opens_clearing() ==> {
                &&& forall|a: int, b: int|
                    !(0 <= a < x && 0 <= b < y) ==> #[trigger] r->Ok_0.spec_tile(a, b) == None::<VisibleTile>
                &&& forall|a: int, b: int|
                    0 <= a < x && 0 <= b < y ==> (#[trigger] r->Ok_0.spec_tile(a, b) == Some(VisibleTile::NotVisible)
                        || r->Ok_0.spec_tile(a, b) matches Some(VisibleTile::Visible(_)))
                &&& r->Ok_0.spec_tile(clear_x as int, clear_y as int) matches Some(VisibleTile::Visible(_))
                &&& r->Ok_0.spec_open_error(clear_x as int, clear_y as int) == Some(UnopenableError::AlreadyOpen)
                &&& r->Ok_0.spec_flag_error(clear_x as int, clear_y as int) == Some(UnopenableError::AlreadyOpen)
            },
    ;

    /// Opens a closed cell and whatever flood fill opens from it.
    fn open_tile(&mut self, x: u16, y: u16) -> (r: Result<GameBoardEvent, UnopenableError>)
        requires
            old(self).spec_inv(),
        ensures
            final(self).spec_inv(),
            final(self).spec_width() == old(self).spec_width(),
            final(self).spec_height() == old(self).spec_height(),
            final(self).spec_bombs() == old(self).spec_bombs(),
            r is Err <==> old(self).spec_open_error(x as int, y as int) is Some,
            r is Err ==> r->Err_0 == old(self).spec_open_error(x as int, y as int)->Some_0,
            r == Err::<GameBoardEvent, UnopenableError>(UnopenableError::OutOfBounds) ==> *final(self) == *old(self),
            r is Ok ==> r->Ok_0 is OpenCell && (final(self).spec_tile(x as int, y as int) matches Some(VisibleTile::Visible(_))),
            r is Ok ==> final(self).spec_open_error(x as int, y as int) == Some(UnopenableError::AlreadyOpen)
                && final(self).spec_flag_error(x as int, y as int) == Some(UnopenableError::AlreadyOpen),
            r is Ok ==> forall|a: int, b: int|
                #[trigger] listed(opened_cells(r->Ok_0), (a, b)) ==> old(self).spec_tile(a, b) == Some(VisibleTile::NotVisible)
                    && (final(self).spec_tile(a, b) matches Some(VisibleTile::Visible(_))),
            r is Ok ==> forall|a: int, b: int|
                #[trigger] final(self).spec_tile(a, b) != old(self).spec_tile(a, b) ==> listed(opened_cells(r->Ok_0), (a, b)),
            r == Err::<GameBoardEvent, UnopenableError>(UnopenableError::OutOfBounds) <==> !((x as int) < old(self).spec_width() && (y as int) < old(self).spec_height()),
    ;

    /// Opens the closed neighbours of a cell whose hint matches the flags around it.
    fn open_around(&mut self, x: u16, y: u16) -> (r: Result<GameBoardEvent, UnopenableError>)
        requires
            old(self).spec_inv(),
        ensures
            final(self).spec_inv(),
            final(self).spec_width() == old(self).spec_width(),
            final(self).spec_height() == old(self).spec_height(),
            final(self).spec_bombs() == old(self).spec_bombs(),
            r is Err <==> old(self).spec_chord_error(x as int, y as int) is Some,
            r is Err ==> r->Err_0 == old(self).spec_chord_error(x as int, y as int)->Some_0,
            r == Err::<GameBoardEvent, UnopenableError>(UnopenableError::OutOfBounds) ==> *final(self) == *old(self),
            r is Ok ==> r->Ok_0 is OpenCell,
            r is Ok ==> forall|a: int, b: int|
                #[trigger] listed(opened_cells(r->Ok_0), (a, b)) ==> old(self).spec_tile(a, b) == Some(VisibleTile::NotVisible)
                    && (final(self).spec_tile(a, b) matches Some(VisibleTile::Visible(_))),
            r is Ok ==> forall|a: int, b: int|
                #[trigger] final(self).spec_tile(a, b) != old(self).spec_tile(a, b) ==> old(self).spec_tile(a, b) == Some(VisibleTile::NotVisible)
                    && (final(self).spec_tile(a, b) matches Some(VisibleTile::Visible(_))),
            r == Err::<GameBoardEvent, UnopenableError>(UnopenableError::OutOfBounds) <==> !((x as int) < old(self).spec_width() && (y as int) < old(self).spec_height()),
    ;

    /// Puts a flag on a closed cell or takes it off a flagged one.
    fn flag_tile(&mut self, x: u16, y: u16) -> (r: Result<GameBoardEvent, UnopenableError>)
        requires
            old(self).spec_inv(),
        ensures
            final(self).spec_inv(),
            final(self).spec_width() == old(self).spec_width(),
            final(self).spec_height() == old(self).spec_height(),
            final(self).spec_bombs() == old(self).spec_bombs(),
            r is Err <==> old(self).spec_flag_error(x as int, y as int) is Some,
            r is Err ==> r->Err_0 == old(self).spec_flag_error(x as int, y as int)->Some_0,
            r == Err::<GameBoardEvent, UnopenableError>(UnopenableError::OutOfBounds) ==> *final(self) == *old(self),
            r is Ok ==> r == Ok::<GameBoardEvent, UnopenableError>(GameBoardEvent::ToggleFlagCell(x, y))
                && old(self).spec_tile(x as int, y as int) is Some
                && final(self).spec_tile(x as int, y as int) == Some(vis_toggled(old(self).spec_tile(x as int, y as int)->Some_0)),
            r is Ok ==> forall|a: int, b: int|
                !(a == x && b == y) ==> #[trigger] final(self).spec_tile(a, b) == old(self).spec_tile(a, b),
            r == Err::<GameBoardEvent, UnopenableError>(UnopenableError::OutOfBounds) <==> !((x as int) < old(self).spec_width() && (y as int) < old(self).spec_height()),
    ;

    /// Undoes a recorded move: toggles the flag back, or closes every cell
    /// of an opening at once; a failed undo changes nothing.
    fn undo_move(&mut self, event: &GameBoardEvent) -> (r: Result<(), UndoError>)
        requires
            old(self).spec_inv(),
        ensures
            final(self).spec_inv(),
            final(self).spec_width() == old(self).spec_width(),
            final(self).spec_height() == old(self).spec_height(),
            final(self).spec_bombs() == old(self).spec_bombs(),
            r is Err <==> old(self).spec_undo_error(*event) is Some,
            r is Err ==> r->Err_0 == old(self).spec_undo_error(*event)->Some_0 && *final(self) == *old(self),
            event matches GameBoardEvent::ToggleFlagCell(x, y) ==> (r is Ok ==> {
                &&& old(self).spec_tile(x as int, y as int) is Some
                &&& final(self).spec_tile(x as int, y as int) == Some(vis_toggled(old(self).spec_tile(x as int, y as int)->Some_0))
                &&& forall|a: int, b: int|
                    !(a == x && b == y) ==> #[trigger] final(self).spec_tile(a, b) == old(self).spec_tile(a, b)
            }),
            event matches GameBoardEvent::OpenCell(v) ==> (r is Ok ==> forall|a: int, b: int|
                #[trigger] final(self).spec_tile(a, b) == if listed(v@, (a, b)) {
                    Some(VisibleTile::NotVisible)
                } else {
                    old(self).spec_tile(a, b)
                }),
    ;

    /// What a player sees at `(x, y)`, or `None` off the board.
    fn get_board_tile(&self, x: u16, y: u16) -> (r: Option<VisibleTile>)
        requires
            self.spec_inv(),
        ensures
            r == self.spec_tile(x as int, y as int),
            r is Some <==> ((x as int) < self.spec_width() && (y as int) < self.spec_height()),
    ;

    /// Ends the game as lost.
    fn lose_game(&mut self)
        requires
            old(self).spec_inv(),
        ensures
            final(self).spec_inv(),
            final(self).spec_width() == old(self).spec_width(),
            final(self).spec_height() == old(self).spec_height(),
            final(self).spec_bombs() == old(self).spec_bombs(),
    ;

    /// Ends the game as won when every cell without a mine is open; otherwise
    /// fails with the number of such cells still closed.
    fn win_game(&mut self) -> (r: Result<(), u32>)
        requires
            old(self).spec_inv(),
        ensures
            final(self).spec_inv(),
            final(self).spec_width() == old(self).spec_width(),
            final(self).spec_height() == old(self).spec_height(),
            final(self).spec_bombs() == old(self).spec_bombs(),
    ;

    /// What a player sees of every cell, as rows of columns.
    fn render(&self) -> (r: FlatBoard<VisibleTile>)
        requires
            self.spec_inv(),
        ensures
            r.wf(),
            r.rows() == self.spec_height(),
            r.cols() == self.spec_width(),
            forall|x: int, y: int|
                (0 <= x < self.spec_width() && 0 <= y < self.spec_height()) ==> self.spec_tile(x, y) == Some(#[trigger] r.at(y, x)),
    ;

    /// Plays a pointer event: see `BaseGameBoard_do_event`.
    fn do_event(&mut self, k: KeyEvent) -> (r: Result<(), UnopenableError>)
        requires
            old(self).spec_inv(),
        ensures
            final(self).spec_inv(),
            final(self).spec_width() == old(self).spec_width(),
            final(self).spec_height() == old(self).spec_height(),
            final(self).spec_bombs() == old(self).spec_bombs(),
            (k matches KeyEvent::Mouse1(x, y) && !((x as int) < old(self).spec_width() && (y as int) < old(self).spec_height())) ==> r == Err::<(), UnopenableError>(UnopenableError::OutOfBounds) && *final(self) == *old(self),
            (k matches KeyEvent::Mouse2(x, y) && !((x as int) < old(self).spec_width() && (y as int) < old(self).spec_height())) ==> r == Err::<(), UnopenableError>(UnopenableError::OutOfBounds) && *final(self) == *old(self),
            k matches KeyEvent::Mouse1(x, y) ==> (old(self).spec_tile(x as int, y as int) == Some(VisibleTile::NotVisible) ==> {
                &&& r is Err <==> old(self).spec_open_error(x as int, y as int) is Some
                &&& r is Err ==> r->Err_0 == old(self).spec_open_error(x as int, y as int)->Some_0
                &&& r is Ok ==> (final(self).spec_tile(x as int, y as int) matches Some(VisibleTile::Visible(_)))
                &&& r is Ok ==> forall|a: int, b: int|
                    #[trigger] final(self).spec_tile(a, b) != old(self).spec_tile(a, b) ==> old(self).spec_tile(a, b) == Some(VisibleTile::NotVisible)
                        && (final(self).spec_tile(a, b) matches Some(VisibleTile::Visible(_)))
            }),
            k matches KeyEvent::Mouse1(x, y) ==> (old(self).spec_tile(x as int, y as int) matches Some(VisibleTile::Visible(_)) ==> {
                &&& r is Err <==> old(self).spec_chord_error(x as int, y as int) is Some
                &&& r is Err ==> r->Err_0 == old(self).spec_chord_error(x as int, y as int)->Some_0
                &&& r is Ok ==> forall|a: int, b: int|
                    #[trigger] final(self).spec_tile(a, b) != old(self).spec_tile(a, b) ==> old(self).spec_tile(a, b) == Some(VisibleTile::NotVisible)
                        && (final(self).spec_tile(a, b) matches Some(VisibleTile::Visible(_)))
            }),
            k matches KeyEvent::Mouse1(x, y) ==> (old(self).spec_tile(x as int, y as int) == Some(VisibleTile::Flagged) ==> r is Ok && *final(self) == *old(self)),
            k matches KeyEvent::Mouse2(x, y) ==> ((old(self).spec_tile(x as int, y as int) == Some(VisibleTile::NotVisible) || old(self).spec_tile(x as int, y as int) == Some(VisibleTile::Flagged)) ==> {
                &&& r is Err <==> old(self).spec_flag_error(x as int, y as int) is Some
                &&& r is Err ==> r->Err_0 == old(self).spec_flag_error(x as int, y as int)->Some_0
                &&& r is Ok ==> final(self).spec_tile(x as int, y as int) == Some(vis_toggled(old(self).spec_tile(x as int, y as int)->Some_0))
                &&& r is Ok ==> forall|a: int, b: int|
                    !(a == x && b == y) ==> #[trigger] final(self).spec_tile(a, b) == old(self).spec_tile(a, b)
            }),
            k matches KeyEvent::Mouse2(x, y) ==> (old(self).spec_tile(x as int, y as int) matches Some(VisibleTile::Visible(_)) ==> r is Ok && *final(self) == *old(self)),
            (k is Pause || k is UnPause || k is Idle) ==> r is Ok && forall|a: int, b: int| #[trigger] final(self).spec_tile(a, b) == old(self).spec_tile(a, b),
    ;

    /// The number of cells, computed without overflow.
    fn area(&self) -> (r: u32)
        requires
            self.spec_inv(),
        ensures
            r == self.spec_width() * self.spec_height(),
    {
        let (x, y) = self.dimensions();
        widening_mul(x, y)
    }

    /// The number of columns.
    fn get_x(&self) -> (r: u16)
        requires
            self.spec_inv(),
        ensures
            r == self.spec_width(),
    {
        self.dimensions().0
    }

    /// The number of rows.
    fn get_y(&self) -> (r: u16)
        requires
            self.spec_inv(),
        ensures
            r == self.spec_height(),
    {
        self.dimensions().1
    }

    /// The number of cells without a mine that are still to open: the area
    /// less the mines and the open cells. It is never negative.
    fn tiles_left(&self) -> (r: u32)
        requires
            self.spec_inv(),
        ensures
            r == self.spec_width() * self.spec_height() - self.spec_bombs() - self.spec_opened(),
    {
        proof {
            self.lemma_counts();
        }
        self.area() - self.bomb_count() - self.opened()
    }

    /// The mines less the flags, or zero when there are more flags than mines.
    fn unflagged_bombs(&self) -> (r: u32)
        requires
            self.spec_inv(),
        ensures
            r == if self.spec_flagged() <= self.spec_bombs() {
                self.spec_bombs() - self.spec_flagged()
            } else {
                0
            },
    {
        let b = self.bomb_count();
        let f = self.flagged();
        if f <= b {
            b - f
        } else {
            0
        }
    }
}

/// Plays a pointer event on a board: a primary press opens a closed cell, or
/// makes a chorded open on an open one, and does nothing on a flagged one; a
/// secondary press toggles the flag of a closed or flagged cell and does
/// nothing on an open one. A press off the board fails; control events do
/// nothing.
#[allow(non_snake_case)]
pub fn BaseGameBoard_do_event<T: BaseGameBoard>(t: &mut T, k: KeyEvent) -> (r: Result<
    (),
    UnopenableError,
>)
    requires
        old(t).spec_inv(),
    ensures
        final(t).spec_inv(),
        final(t).spec_width() == old(t).spec_width(),
        final(t).spec_height() == old(t).spec_height(),
        final(t).spec_bombs() == old(t).spec_bombs(),
        (k matches KeyEvent::Mouse1(x, y) && !((x as int) < old(t).spec_width() && (y as int) < old(t).spec_height())) ==> r == Err::<(), UnopenableError>(UnopenableError::OutOfBounds) && *final(t) == *old(t),
        (k matches KeyEvent::Mouse2(x, y) && !((x as int) < old(t).spec_width() && (y as int) < old(t).spec_height())) ==> r == Err::<(), UnopenableError>(UnopenableError::OutOfBounds) && *final(t) == *old(t),
        k matches KeyEvent::Mouse1(x, y) ==> (old(t).spec_tile(x as int, y as int) == Some(VisibleTile::NotVisible) ==> {
            &&& r is Err <==> old(t).spec_open_error(x as int, y as int) is Some
            &&& r is Err ==> r->Err_0 == old(t).spec_open_error(x as int, y as int)->Some_0
                &&& r is Ok ==> (final(t).spec_tile(x as int, y as int) matches Some(VisibleTile::Visible(_)))
            &&& r is Ok ==> forall|a: int, b: int|
                #[trigger] final(t).spec_tile(a, b) != old(t).spec_tile(a, b) ==> old(t).spec_tile(a, b) == Some(VisibleTile::NotVisible)
                    && (final(t).spec_tile(a, b) matches Some(VisibleTile::Visible(_)))
            }),
        k matches KeyEvent::Mouse1(x, y) ==> (old(t).spec_tile(x as int, y as int) matches Some(VisibleTile::Visible(_)) ==> {
            &&& r is Err <==> old(t).spec_chord_error(x as int, y as int) is Some
            &&& r is Err ==> r->Err_0 == old(t).spec_chord_error(x as int, y as int)->Some_0
            &&& r is Ok ==> forall|a: int, b: int|
                #[trigger] final(t).spec_tile(a, b) != old(t).spec_tile(a, b) ==> old(t).spec_tile(a, b) == Some(VisibleTile::NotVisible)
                    && (final(t).spec_tile(a, b) matches Some(VisibleTile::Visible(_)))
        }),
        k matches KeyEvent::Mouse1(x, y) ==> (old(t).spec_tile(x as int, y as int) == Some(VisibleTile::Flagged) ==> r is Ok && *final(t) == *old(t)),
        k matches KeyEvent::Mouse2(x, y) ==> ((old(t).spec_tile(x as int, y as int) == Some(VisibleTile::NotVisible) || old(t).spec_tile(x as int, y as int) == Some(VisibleTile::Flagged)) ==> {
            &&& r is Err <==> old(t).spec_flag_error(x as int, y as int) is Some
            &&& r is Err ==> r->Err_0 == old(t).spec_flag_error(x as int, y as int)->Some_0
            &&& r is Ok ==> final(t).spec_tile(x as int, y as int) == Some(vis_toggled(old(t).spec_tile(x as int, y as int)->Some_0))
            &&& r is Ok ==> forall|a: int, b: int|
                !(a == x && b == y) ==> #[trigger] final(t).spec_tile(a, b) == old(t).spec_tile(a, b)
        }),
        k matches KeyEvent::Mouse2(x, y) ==> (old(t).spec_tile(x as int, y as int) matches Some(VisibleTile::Visible(_)) ==> r is Ok && *final(t) == *old(t)),
        (k is Pause || k is UnPause || k is Idle) ==> r is Ok && *final(t) == *old(t),
{
    match k {
        KeyEvent::Mouse1(x, y) => {
            let tile = match t.get_board_tile(x, y) {
                Some(v) => v,
                None => {
                    return Err(UnopenableError::OutOfBounds);
                },
            };
            match tile {
                VisibleTile::NotVisible => {
                    t.open_tile(x, y)?;
                },
                VisibleTile::Visible(_) => {
                    t.open_around(x, y)?;
                },
                VisibleTile::Flagged => {},
            }
        },
        KeyEvent::Mouse2(x, y) => {
            let tile = match t.get_board_tile(x, y) {
                Some(v) => v,
                None => {
                    return Err(UnopenableError::OutOfBounds);
                },
            };
            match tile {
                VisibleTile::NotVisible => {
                    t.flag_tile(x, y)?;
                },
                VisibleTile::Flagged => {
                    t.flag_tile(x, y)?;
                },
                VisibleTile::Visible(_) => {},
            }
        },
        _ => {},
    }
    Ok(())
}

} // verus!
