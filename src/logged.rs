//! A board that records every move that succeeds, with the time it was
//! played, so that a game can be replayed or undone.
use vstd::prelude::*;
use crate::errors::{NewBoardError, UndoError, UnopenableError};
use crate::flatboard::FlatBoard;
use crate::gameboard::listed;
use crate::interface::{opened_cells, same_record, BaseGameBoard, GameBoardEvent, KeyEvent};
use crate::tiles::VisibleTile;

verus! {

#[verifier::external_type_specification]
#[verifier::external_body]
pub struct ExInstant(time::Instant);

#[verifier::external_type_specification]
#[verifier::external_body]
pub struct ExOffsetDateTime(time::OffsetDateTime);

/// Relies on time's `OffsetDateTime::now_utc`: the current date and time in UTC.
#[verifier::external_body]
fn utc_now() -> time::OffsetDateTime {
    time::OffsetDateTime::now_utc()
}

/// Relies on time's `Instant::now`: a reading of the monotonic clock.
#[verifier::external_body]
fn monotonic_now() -> time::Instant {
    time::Instant::now()
}

/// Relies on time's `Instant::elapsed` and `SignedDuration::whole_microseconds`:
/// the whole microseconds from `start` to now. `elapsed` panics only when the
/// span overflows a duration, some hundred billion years.
#[verifier::external_body]
fn micros_since(start: time::Instant) -> i128 {
    start.elapsed().whole_microseconds()
}

/// A pointer or control event, with the move record of the change it made.
#[derive(Clone, Debug, PartialEq, Eq)]
pub enum KeyEventEffect {
    Mouse1(u16, u16, GameBoardEvent),
    Mouse2(u16, u16, GameBoardEvent),
    /// A recorded move that was undone.
    Undo(GameBoardEvent),
    Pause,
    UnPause,
    Idle,
}

/// A control event has no effect on the board and is logged as it is;
/// `None` for a press.
pub fn control_effect(k: KeyEvent) -> (r: Option<KeyEventEffect>)
    ensures
        k is Pause ==> r == Some(KeyEventEffect::Pause),
        k is UnPause ==> r == Some(KeyEventEffect::UnPause),
        k is Idle ==> r == Some(KeyEventEffect::Idle),
        (k is Mouse1 || k is Mouse2) ==> r is None,
{
    match k {
        KeyEvent::Mouse1(_, _) | KeyEvent::Mouse2(_, _) => None,
        KeyEvent::Pause => Some(KeyEventEffect::Pause),
        KeyEvent::UnPause => Some(KeyEventEffect::UnPause),
        KeyEvent::Idle => Some(KeyEventEffect::Idle),
    }
}

/// One entry of the log: when it happened, in microseconds since the game
/// started, and what happened.
#[derive(Clone, Debug, PartialEq, Eq)]
pub struct LogFrame {
    pub time_offset_micros: u64,
    pub trace: KeyEventEffect,
}

/// A board that logs every move that succeeds and every control event.
pub struct LoggedGameBoard<GB: BaseGameBoard> {
    start_time: time::OffsetDateTime,
    start_mono: time::Instant,
    board: GB,
    events: Vec<LogFrame>,
}

/// A count of microseconds as a `u64`: zero for a negative count, the largest
/// `u64` for one too large.
pub fn clamp_micros(m: i128) -> (r: u64)
    ensures
        m < 0 ==> r == 0,
        0 <= m <= u64::MAX ==> r == m,
        m > u64::MAX ==> r == u64::MAX,
{
    if m < 0 {
        0
    } else if m > u64::MAX as i128 {
        u64::MAX
    } else {
        m as u64
    }
}

impl<T: BaseGameBoard> LoggedGameBoard<T> {
    /// The board that is logged.
    pub closed spec fn inner(&self) -> T {
        self.board
    }

    /// The entries of the log, oldest first.
    pub closed spec fn log(&self) -> Seq<LogFrame> {
        self.events@
    }

    /// A board of `x` columns, `y` rows and `bombs` mines with its clearing at
    /// `(opening_x, opening_y)`, on which that cell is opened at once; the
    /// opening is the first entry of the log. When the inner board opens its
    /// clearing itself as it is made, there is nothing left to open or log.
    pub fn start_new(x: u16, y: u16, bombs: u32, opening_x: u16, opening_y: u16) -> (r: Result<
        Self,
        NewBoardError,
    >)
        ensures
            r is Err <==> crate::gameboard::config_check(x, y, bombs, true, Some((opening_x, opening_y))) is Err,
            r is Err ==> r->Err_0 == crate::gameboard::config_check(x, y, bombs, true, Some((opening_x, opening_y)))->Err_0,
            r is Ok ==> r->Ok_0.spec_inv() && r->Ok_0.spec_width() == x && r->Ok_0.spec_height() == y
                && r->Ok_0.spec_bombs() == bombs,
            r is Ok ==> (r->Ok_0.spec_tile(opening_x as int, opening_y as int) matches Some(VisibleTile::Visible(_))),
            r is Ok ==> r->Ok_0.spec_open_error(opening_x as int, opening_y as int) == Some(UnopenableError::AlreadyOpen)
                && r->Ok_0.spec_flag_error(opening_x as int, opening_y as int) == Some(UnopenableError::AlreadyOpen),
            r is Ok ==> forall|a: int, b: int|
                !(0 <= a < x && 0 <= b < y) ==> #[trigger] r->Ok_0.spec_tile(a, b) == None::<VisibleTile>,
            r is Ok ==> forall|a: int, b: int|
                0 <= a < x && 0 <= b < y ==> (#[trigger] r->Ok_0.spec_tile(a, b) == Some(VisibleTile::NotVisible)
                    || r->Ok_0.spec_tile(a, b) matches Some(VisibleTile::Visible(_))),
            r is Ok && T::spec_opens_clearing() ==> r->Ok_0.log().len() == 0,
            r is Ok && !T::spec_opens_clearing() ==> r->Ok_0.log().len() == 1 && (r->Ok_0.log()[0].trace matches KeyEventEffect::Mouse1(
                fx,
                fy,
                ev,
            ) && fx == opening_x && fy == opening_y && listed(opened_cells(ev), (opening_x as int, opening_y as int))
                && forall|a: int, b: int|
                #[trigger] listed(opened_cells(ev), (a, b)) <==> (r->Ok_0.spec_tile(a, b) matches Some(VisibleTile::Visible(_)))),
    {
        let start_time = utc_now();
        let start_mono = monotonic_now();
        let mut board = T::with_clearing(x, y, bombs, opening_x, opening_y)?;
        let mut events: Vec<LogFrame> = Vec::new();
        if let Some(VisibleTile::NotVisible) = board.get_board_tile(opening_x, opening_y) {
            let ghost fresh = board;
            let res = board.open_tile(opening_x, opening_y);
            proof {
                if res is Ok {
                    assert forall|a: int, b: int| #[trigger] board.spec_tile(a, b) != fresh.spec_tile(a, b)
                        implies fresh.spec_tile(a, b) == Some(VisibleTile::NotVisible)
                        && (board.spec_tile(a, b) matches Some(VisibleTile::Visible(_))) by {
                        assert(listed(opened_cells(res->Ok_0), (a, b)));
                    }
                    assert forall|a: int, b: int| #[trigger] listed(opened_cells(res->Ok_0), (a, b))
                        <==> (board.spec_tile(a, b) matches Some(VisibleTile::Visible(_))) by {
                        if board.spec_tile(a, b) matches Some(VisibleTile::Visible(_)) {
                            assert(board.spec_tile(a, b) != fresh.spec_tile(a, b));
                        }
                    }
                }
            }
            match res {
                Ok(ev) => {
                    let time_offset_micros = clamp_micros(micros_since(start_mono));
                    events.push(
                        LogFrame {
                            time_offset_micros,
                            trace: KeyEventEffect::Mouse1(opening_x, opening_y, ev),
                        },
                    );
                },
                Err(_) => {},
            }
        }
        Ok(LoggedGameBoard { start_time, start_mono, board, events })
    }

    /// The microseconds since the game started.
    fn current_micros_offset(&self) -> u64 {
        clamp_micros(micros_since(self.start_mono))
    }

    /// The time of a new entry of the log: the microseconds since the game
    /// started, and never before the last entry, so the log stays in order.
    fn next_time(&self) -> (r: u64)
        ensures
            self.log().len() > 0 ==> r >= self.log().last().time_offset_micros,
    {
        let t = self.current_micros_offset();
        let n = self.events.len();
        if n > 0 && self.events[n - 1].time_offset_micros > t {
            self.events[n - 1].time_offset_micros
        } else {
            t
        }
    }

    /// The date and time, in UTC, at which the game started.
    pub fn start_time(&self) -> time::OffsetDateTime {
        self.start_time
    }

    /// The entries of the log, oldest first.
    pub fn frames(&self) -> (r: &[LogFrame])
        ensures
            r@ == self.log(),
    {
        self.events.as_slice()
    }
}

impl<T: BaseGameBoard> BaseGameBoard for LoggedGameBoard<T> {
    open spec fn spec_inv(&self) -> bool {
        self.inner().spec_inv()
    }

    open spec fn spec_width(&self) -> nat {
        self.inner().spec_width()
    }

    open spec fn spec_height(&self) -> nat {
        self.inner().spec_height()
    }

    open spec fn spec_bombs(&self) -> nat {
        self.inner().spec_bombs()
    }

    open spec fn spec_tile(&self, x: int, y: int) -> Option<VisibleTile> {
        self.inner().spec_tile(x, y)
    }

    open spec fn spec_opened(&self) -> nat {
        self.inner().spec_opened()
    }

    open spec fn spec_flagged(&self) -> nat {
        self.inner().spec_flagged()
    }

    open spec fn spec_open_error(&self, x: int, y: int) -> Option<UnopenableError> {
        self.inner().spec_open_error(x, y)
    }

    open spec fn spec_chord_error(&self, x: int, y: int) -> Option<UnopenableError> {
        self.inner().spec_chord_error(x, y)
    }

    open spec fn spec_flag_error(&self, x: int, y: int) -> Option<UnopenableError> {
        self.inner().spec_flag_error(x, y)
    }

    open spec fn spec_undo_error(&self, e: GameBoardEvent) -> Option<UndoError> {
        self.inner().spec_undo_error(e)
    }

    /// The first open is played as the board is made.
    open spec fn spec_opens_clearing() -> bool {
        true
    }

    proof fn lemma_counts(&self) {
        let b = self.inner();
        b.lemma_counts();
        assert(self.spec_flagged() == b.spec_flagged());
        assert(self.spec_width() == b.spec_width());
        assert(self.spec_height() == b.spec_height());
    }

    fn dimensions(&self) -> (r: (u16, u16)) {
        self.board.dimensions()
    }

    fn bomb_count(&self) -> (r: u32) {
        self.board.bomb_count()
    }

    fn opened(&self) -> (r: u32) {
        self.board.opened()
    }

    fn flagged(&self) -> (r: u32) {
        self.board.flagged()
    }

    fn with_clearing(x: u16, y: u16, bombs: u32, clear_x: u16, clear_y: u16) -> (r: Result<
        Self,
        NewBoardError,
    >) {
        Self::start_new(x, y, bombs, clear_x, clear_y)
    }

    /// Plays the move on the inner board and, when it succeeds, logs it.
    fn open_tile(&mut self, x: u16, y: u16) -> (r: Result<GameBoardEvent, UnopenableError>)
        ensures
            final(self).inner().spec_inv(),
            r is Err ==> final(self).log() == old(self).log(),
            r is Ok ==> final(self).log().len() == old(self).log().len() + 1
                && final(self).log().subrange(0, old(self).log().len() as int) == old(self).log(),
            r is Ok ==> (final(self).log().last().trace matches KeyEventEffect::Mouse1(fx, fy, ev) && fx == x && fy == y
                && same_record(ev, r->Ok_0)),
            r is Ok && old(self).log().len() > 0 ==> final(self).log().last().time_offset_micros
                >= old(self).log().last().time_offset_micros,
    {
        let r = self.board.open_tile(x, y);
        match &r {
            Ok(ev) => {
                let time_offset_micros = self.next_time();
                let ghost before = self.events@;
                self.events.push(LogFrame { time_offset_micros, trace: KeyEventEffect::Mouse1(x, y, ev.duplicate()) });
                proof {
                    assert(self.events@.subrange(0, before.len() as int) =~= before);
                }
            },
            Err(_) => {},
        }
        r
    }

    /// Plays the move on the inner board and, when it succeeds, logs it.
    fn open_around(&mut self, x: u16, y: u16) -> (r: Result<GameBoardEvent, UnopenableError>)
        ensures
            final(self).inner().spec_inv(),
            r is Err ==> final(self).log() == old(self).log(),
            r is Ok ==> final(self).log().len() == old(self).log().len() + 1
                && final(self).log().subrange(0, old(self).log().len() as int) == old(self).log(),
            r is Ok ==> (final(self).log().last().trace matches KeyEventEffect::Mouse1(fx, fy, ev) && fx == x && fy == y
                && same_record(ev, r->Ok_0)),
            r is Ok && old(self).log().len() > 0 ==> final(self).log().last().time_offset_micros
                >= old(self).log().last().time_offset_micros,
    {
        let r = self.board.open_around(x, y);
        match &r {
            Ok(ev) => {
                let time_offset_micros = self.next_time();
                let ghost before = self.events@;
                self.events.push(LogFrame { time_offset_micros, trace: KeyEventEffect::Mouse1(x, y, ev.duplicate()) });
                proof {
                    assert(self.events@.subrange(0, before.len() as int) =~= before);
                }
            },
            Err(_) => {},
        }
        r
    }

    /// Plays the move on the inner board and, when it succeeds, logs it.
    fn flag_tile(&mut self, x: u16, y: u16) -> (r: Result<GameBoardEvent, UnopenableError>)
        ensures
            final(self).inner().spec_inv(),
            r is Err ==> final(self).log() == old(self).log(),
            r is Ok ==> final(self).log().len() == old(self).log().len() + 1
                && final(self).log().subrange(0, old(self).log().len() as int) == old(self).log(),
            r is Ok ==> final(self).log().last().trace == KeyEventEffect::Mouse2(x, y, GameBoardEvent::ToggleFlagCell(x, y)),
            r is Ok && old(self).log().len() > 0 ==> final(self).log().last().time_offset_micros
                >= old(self).log().last().time_offset_micros,
    {
        let r = self.board.flag_tile(x, y);
        match &r {
            Ok(_) => {
                let time_offset_micros = self.next_time();
                let ghost before = self.events@;
                self.events.push(LogFrame { time_offset_micros, trace: KeyEventEffect::Mouse2(x, y, GameBoardEvent::flag_tile(x, y)) });
                proof {
                    assert(self.events@.subrange(0, before.len() as int) =~= before);
                }
            },
            Err(_) => {},
        }
        r
    }

    /// Plays the move on the inner board and, when it succeeds, logs it.
    fn undo_move(&mut self, event: &GameBoardEvent) -> (r: Result<(), UndoError>)
        ensures
            final(self).inner().spec_inv(),
            r is Err ==> final(self).log() == old(self).log(),
            r is Ok ==> final(self).log().len() == old(self).log().len() + 1
                && final(self).log().subrange(0, old(self).log().len() as int) == old(self).log(),
            r is Ok ==> (final(self).log().last().trace matches KeyEventEffect::Undo(ev) && same_record(ev, *event)),
            r is Ok && old(self).log().len() > 0 ==> final(self).log().last().time_offset_micros
                >= old(self).log().last().time_offset_micros,
    {
        let r = self.board.undo_move(event);
        match &r {
            Ok(_) => {
                let time_offset_micros = self.next_time();
                let ghost before = self.events@;
                self.events.push(LogFrame { time_offset_micros, trace: KeyEventEffect::Undo(event.duplicate()) });
                proof {
                    assert(self.events@.subrange(0, before.len() as int) =~= before);
                }
            },
            Err(_) => {},
        }
        r
    }

    fn get_board_tile(&self, x: u16, y: u16) -> (r: Option<VisibleTile>) {
        self.board.get_board_tile(x, y)
    }

    fn lose_game(&mut self) {
        self.board.lose_game()
    }

    fn win_game(&mut self) -> (r: Result<(), u32>) {
        self.board.win_game()
    }

    fn render(&self) -> (r: FlatBoard<VisibleTile>) {
        self.board.render()
    }

    /// Plays the event on the board and logs it when it changes the board:
    /// a primary press opens a closed cell or makes a chorded open on an open
    /// one; a secondary press toggles the flag of a cell that is not open.
    /// A primary press on a flagged cell and a secondary press on an open
    /// one are ignored. Control events are logged and change nothing else.
    /// A failed move is not logged and its error is handed on.
    fn do_event(&mut self, k: KeyEvent) -> (r: Result<(), UnopenableError>)
        ensures
            r is Err ==> final(self).log() == old(self).log(),
            old(self).log().len() <= final(self).log().len() <= old(self).log().len() + 1,
            final(self).log().subrange(0, old(self).log().len() as int) == old(self).log(),
            final(self).log().len() == old(self).log().len() + 1 && old(self).log().len() > 0
                ==> final(self).log().last().time_offset_micros >= old(self).log().last().time_offset_micros,
            (k is Pause || k is UnPause || k is Idle) ==> final(self).inner() == old(self).inner()
                && final(self).log().len() == old(self).log().len() + 1,
            k is Pause ==> final(self).log().last().trace == KeyEventEffect::Pause,
            k is UnPause ==> final(self).log().last().trace == KeyEventEffect::UnPause,
            k is Idle ==> final(self).log().last().trace == KeyEventEffect::Idle,
            k matches KeyEvent::Mouse1(x, y) ==> ((old(self).spec_tile(x as int, y as int) == Some(VisibleTile::NotVisible)
                || old(self).spec_tile(x as int, y as int) matches Some(VisibleTile::Visible(_))) && r is Ok
                ==> final(self).log().len() == old(self).log().len() + 1 && (final(self).log().last().trace matches KeyEventEffect::Mouse1(
                fx,
                fy,
                ev,
            ) && fx == x && fy == y && forall|a: int, b: int|
                #[trigger] listed(opened_cells(ev), (a, b)) ==> old(self).spec_tile(a, b) == Some(VisibleTile::NotVisible)
                    && final(self).spec_tile(a, b) matches Some(VisibleTile::Visible(_)))),
            k matches KeyEvent::Mouse2(x, y) ==> ((old(self).spec_tile(x as int, y as int) == Some(VisibleTile::NotVisible)
                || old(self).spec_tile(x as int, y as int) == Some(VisibleTile::Flagged)) && r is Ok
                ==> final(self).log().len() == old(self).log().len() + 1 && final(self).log().last().trace
                == KeyEventEffect::Mouse2(x, y, GameBoardEvent::ToggleFlagCell(x, y))),
    {
        let ghost before = self.events@;
        match k {
            KeyEvent::Mouse1(x, y) => {
                let tile = match self.board.get_board_tile(x, y) {
                    Some(t) => t,
                    None => {
                        return Err(UnopenableError::OutOfBounds);
                    },
                };
                match tile {
                    VisibleTile::NotVisible => {
                        self.open_tile(x, y)?;
                    },
                    VisibleTile::Visible(_) => {
                        self.open_around(x, y)?;
                    },
                    VisibleTile::Flagged => {
                        return Ok(());
                    },
                }
            },
            KeyEvent::Mouse2(x, y) => {
                let tile = match self.board.get_board_tile(x, y) {
                    Some(t) => t,
                    None => {
                        return Err(UnopenableError::OutOfBounds);
                    },
                };
                match tile {
                    VisibleTile::NotVisible | VisibleTile::Flagged => {
                        self.flag_tile(x, y)?;
                    },
                    VisibleTile::Visible(_) => {
                        return Ok(());
                    },
                }
            },
            _ => {
                let time_offset_micros = self.next_time();
                match control_effect(k) {
                    Some(trace) => {
                        self.events.push(LogFrame { time_offset_micros, trace });
                    },
                    None => {},
                }
            },
        }
        proof {
            assert(self.events@.subrange(0, before.len() as int) =~= before);
        }
        Ok(())
    }
}

} // verus!
