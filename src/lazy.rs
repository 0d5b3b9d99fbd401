//! A board that is created only when the first move is played, with that
//! move's cell as the safe clearing.
use vstd::prelude::*;
use crate::errors::{NewBoardError, UndoError, UnopenableError};
use crate::flatboard::FlatBoard;
use crate::gameboard::{config_check, widening_mul, GameBoard, MAX_SIDE};
use crate::gameboard::listed;
use crate::interface::{opened_cells, BaseGameBoard, GameBoardEvent, KeyEvent};
use crate::tiles::VisibleTile;

verus! {

/// Either a board in play, or the configuration of one still to be created.
enum LazyGameBoardInner<T: BaseGameBoard> {
    Init(T),
    Uninit { x: u16, y: u16, bombs: u32 },
}

/// A board created on its first move, so that the move always lands in a
/// clearing; until then it shows every cell closed.
pub struct LazyGameBoard<T: BaseGameBoard>(LazyGameBoardInner<T>);

impl<T: BaseGameBoard> LazyGameBoard<T> {
    /// A board of `x` columns, `y` rows and `bombs` mines, to be created on its
    /// first move. Fails when the configuration does not pass
    /// `validate_board`; whether the first move's clearing fits is decided
    /// when that move is played.
    pub fn new_uninit(x: u16, y: u16, bombs: u32) -> (r: Result<Self, NewBoardError>)
        ensures
            r is Err <==> config_check(x, y, bombs, false, None) is Err,
            r is Err ==> r->Err_0 == config_check(x, y, bombs, false, None)->Err_0,
            r is Ok ==> !r->Ok_0.is_init() && r->Ok_0.spec_width() == x && r->Ok_0.spec_height() == y
                && r->Ok_0.spec_bombs() == bombs && r->Ok_0.spec_inv() && r->Ok_0.spec_opened() == 0
                && r->Ok_0.spec_flagged() == 0,
            r is Ok ==> forall|a: int, b: int|
                #[trigger] r->Ok_0.spec_tile(a, b) == if 0 <= a < x && 0 <= b < y {
                    Some(VisibleTile::NotVisible)
                } else {
                    None
                },
    {
        GameBoard::validate_board(x, y, bombs, false, None)?;
        Ok(LazyGameBoard(LazyGameBoardInner::Uninit { x, y, bombs }))
    }

    /// Whether the board has been created.
    pub closed spec fn is_init(&self) -> bool {
        self.0 is Init
    }

    /// Creates the board with its clearing at `(x, y)` unless it exists;
    /// fails, changing nothing, when `(x, y)` is off a board still to be
    /// created or when its clearing cannot be kept free of mines.
    fn init_at(&mut self, x: u16, y: u16) -> (r: Result<(), UnopenableError>)
        requires
            old(self).spec_inv(),
        ensures
            final(self).spec_inv(),
            final(self).spec_width() == old(self).spec_width(),
            final(self).spec_height() == old(self).spec_height(),
            final(self).spec_bombs() == old(self).spec_bombs(),
            old(self).is_init() ==> r is Ok && *final(self) == *old(self),
            !old(self).is_init() ==> (r is Err <==> (old(self).spec_open_error(x as int, y as int) == Some(UnopenableError::OutOfBounds)
                || old(self).spec_open_error(x as int, y as int) == Some(UnopenableError::NoRoomForClearing))),
            !old(self).is_init() && r is Err ==> r->Err_0 == old(self).spec_open_error(x as int, y as int)->Some_0,
            !old(self).is_init() ==> (r == Err::<(), UnopenableError>(UnopenableError::OutOfBounds) <==> !((x as int) < old(self).spec_width() && (y as int) < old(self).spec_height())),
            r is Ok ==> final(self).is_init(),
            r is Err ==> *final(self) == *old(self),
            !old(self).is_init() && r is Ok ==> {
                &&& final(self).spec_open_error(x as int, y as int) == old(self).spec_open_error(x as int, y as int)
                &&& final(self).spec_flag_error(x as int, y as int) == old(self).spec_flag_error(x as int, y as int)
                &&& !T::spec_opens_clearing() ==> final(self).spec_chord_error(x as int, y as int) is None
                    && forall|a: int, b: int| #[trigger] final(self).spec_tile(a, b) == old(self).spec_tile(a, b)
                &&& T::spec_opens_clearing() ==> (final(self).spec_tile(x as int, y as int) matches Some(VisibleTile::Visible(_)))
                &&& T::spec_opens_clearing() ==> forall|a: int, b: int|
                    #[trigger] final(self).spec_tile(a, b) != old(self).spec_tile(a, b) ==> old(self).spec_tile(a, b)
                        == Some(VisibleTile::NotVisible) && (final(self).spec_tile(a, b) matches Some(VisibleTile::Visible(_)))
            },
    {
        match self.0 {
            LazyGameBoardInner::Init(_) => Ok(()),
            LazyGameBoardInner::Uninit { x: w, y: h, bombs } => {
                if !(x < w && y < h) {
                    return Err(UnopenableError::OutOfBounds);
                }
                match T::with_clearing(w, h, bombs, x, y) {
                    Ok(b) => {
                        self.0 = LazyGameBoardInner::Init(b);
                        Ok(())
                    },
                    Err(_) => Err(UnopenableError::NoRoomForClearing),
                }
            },
        }
    }
}

impl<T: BaseGameBoard> BaseGameBoard for LazyGameBoard<T> {
    closed spec fn spec_inv(&self) -> bool {
        match self.0 {
            LazyGameBoardInner::Init(b) => b.spec_inv(),
            LazyGameBoardInner::Uninit { x, y, bombs } => config_check(x, y, bombs, false, None) is Ok,
        }
    }

    closed spec fn spec_width(&self) -> nat {
        match self.0 {
            LazyGameBoardInner::Init(b) => b.spec_width(),
            LazyGameBoardInner::Uninit { x, .. } => x as nat,
        }
    }

    closed spec fn spec_height(&self) -> nat {
        match self.0 {
            LazyGameBoardInner::Init(b) => b.spec_height(),
            LazyGameBoardInner::Uninit { y, .. } => y as nat,
        }
    }

    closed spec fn spec_bombs(&self) -> nat {
        match self.0 {
            LazyGameBoardInner::Init(b) => b.spec_bombs(),
            LazyGameBoardInner::Uninit { bombs, .. } => bombs as nat,
        }
    }

    closed spec fn spec_tile(&self, x: int, y: int) -> Option<VisibleTile> {
        match self.0 {
            LazyGameBoardInner::Init(b) => b.spec_tile(x, y),
            LazyGameBoardInner::Uninit { .. } => if (0 <= x < self.spec_width() && 0 <= y < self.spec_height()) {
                Some(VisibleTile::NotVisible)
            } else {
                None
            },
        }
    }

    closed spec fn spec_opened(&self) -> nat {
        match self.0 {
            LazyGameBoardInner::Init(b) => b.spec_opened(),
            LazyGameBoardInner::Uninit { .. } => 0,
        }
    }

    closed spec fn spec_flagged(&self) -> nat {
        match self.0 {
            LazyGameBoardInner::Init(b) => b.spec_flagged(),
            LazyGameBoardInner::Uninit { .. } => 0,
        }
    }

    closed spec fn spec_open_error(&self, x: int, y: int) -> Option<UnopenableError> {
        match self.0 {
            LazyGameBoardInner::Init(b) => b.spec_open_error(x, y),
            LazyGameBoardInner::Uninit { x: w, y: h, bombs } => if !(0 <= x < w && 0 <= y < h) {
                Some(UnopenableError::OutOfBounds)
            } else if config_check(w, h, bombs, true, Some((x as u16, y as u16))) is Err {
                Some(UnopenableError::NoRoomForClearing)
            } else if T::spec_opens_clearing() {
                Some(UnopenableError::AlreadyOpen)
            } else {
                None
            },
        }
    }

    closed spec fn spec_chord_error(&self, x: int, y: int) -> Option<UnopenableError> {
        match self.0 {
            LazyGameBoardInner::Init(b) => b.spec_chord_error(x, y),
            LazyGameBoardInner::Uninit { x: w, y: h, bombs } => if !(0 <= x < w && 0 <= y < h) {
                Some(UnopenableError::OutOfBounds)
            } else if config_check(w, h, bombs, true, Some((x as u16, y as u16))) is Err {
                Some(UnopenableError::NoRoomForClearing)
            } else {
                None
            },
        }
    }

    closed spec fn spec_flag_error(&self, x: int, y: int) -> Option<UnopenableError> {
        match self.0 {
            LazyGameBoardInner::Init(b) => b.spec_flag_error(x, y),
            LazyGameBoardInner::Uninit { x: w, y: h, bombs } => if !(0 <= x < w && 0 <= y < h) {
                Some(UnopenableError::OutOfBounds)
            } else if config_check(w, h, bombs, true, Some((x as u16, y as u16))) is Err {
                Some(UnopenableError::NoRoomForClearing)
            } else if T::spec_opens_clearing() {
                Some(UnopenableError::AlreadyOpen)
            } else {
                None
            },
        }
    }

    closed spec fn spec_undo_error(&self, e: GameBoardEvent) -> Option<UndoError> {
        match self.0 {
            LazyGameBoardInner::Init(b) => b.spec_undo_error(e),
            LazyGameBoardInner::Uninit { .. } => Some(UndoError::AlreadyClosed),
        }
    }

    closed spec fn spec_opens_clearing() -> bool {
        T::spec_opens_clearing()
    }

    proof fn lemma_counts(&self) {
        match self.0 {
            LazyGameBoardInner::Init(b) => {
                b.lemma_counts();
                assert(self.spec_flagged() == b.spec_flagged());
                assert(self.spec_width() == b.spec_width());
                assert(self.spec_height() == b.spec_height());
            },
            LazyGameBoardInner::Uninit { x, y, bombs } => {},
        }
    }

    fn dimensions(&self) -> (r: (u16, u16)) {
        match &self.0 {
            LazyGameBoardInner::Init(b) => b.dimensions(),
            LazyGameBoardInner::Uninit { x, y, .. } => (*x, *y),
        }
    }

    fn bomb_count(&self) -> (r: u32) {
        match &self.0 {
            LazyGameBoardInner::Init(b) => b.bomb_count(),
            LazyGameBoardInner::Uninit { bombs, .. } => *bombs,
        }
    }

    fn opened(&self) -> (r: u32) {
        match &self.0 {
            LazyGameBoardInner::Init(b) => b.opened(),
            LazyGameBoardInner::Uninit { .. } => 0,
        }
    }

    fn flagged(&self) -> (r: u32) {
        match &self.0 {
            LazyGameBoardInner::Init(b) => b.flagged(),
            LazyGameBoardInner::Uninit { .. } => 0,
        }
    }

    fn with_clearing(x: u16, y: u16, bombs: u32, clear_x: u16, clear_y: u16) -> (r: Result<
        Self,
        NewBoardError,
    >) {
        let b = T::with_clearing(x, y, bombs, clear_x, clear_y)?;
        Ok(LazyGameBoard(LazyGameBoardInner::Init(b)))
    }

    /// On a board still to be created, creates it with its clearing here first.
    fn open_tile(&mut self, x: u16, y: u16) -> (r: Result<GameBoardEvent, UnopenableError>)
        ensures
            !old(self).is_init() && old(self).spec_open_error(x as int, y as int) != Some(UnopenableError::OutOfBounds)
                && old(self).spec_open_error(x as int, y as int) != Some(UnopenableError::NoRoomForClearing) ==> final(self).is_init(),
            !((x as int) < old(self).spec_width() && (y as int) < old(self).spec_height()) ==> *final(self) == *old(self) || old(self).is_init(),
    {
        let ghost pre = *self;
        self.init_at(x, y)?;
        let ghost mid = *self;
        let r = match &mut self.0 {
            LazyGameBoardInner::Init(b) => b.open_tile(x, y),
            LazyGameBoardInner::Uninit { .. } => Err(UnopenableError::OutOfBounds),
        };
        proof {
            if r is Ok {
                assert(mid.is_init());
                assert(self.is_init());
                assert forall|a: int, b: int| #[trigger] mid.spec_tile(a, b) == pre.spec_tile(a, b) by {}
                let v = opened_cells(r->Ok_0);
                assert forall|a: int, b: int| #[trigger] listed(v, (a, b)) implies mid.spec_tile(a, b) == Some(VisibleTile::NotVisible)
                    && self.spec_tile(a, b) matches Some(VisibleTile::Visible(_)) by {}
                assert forall|a: int, b: int| #[trigger] self.spec_tile(a, b) != pre.spec_tile(a, b) implies listed(v, (a, b)) by {
                    assert(mid.spec_tile(a, b) == pre.spec_tile(a, b));
                }
            }
        }
        r
    }

    /// On a board still to be created, creates it with its clearing here
    /// first. When creating it has already opened the cell, its neighbours
    /// were opened with it, so the chorded open has nothing left to open.
    fn open_around(&mut self, x: u16, y: u16) -> (r: Result<GameBoardEvent, UnopenableError>)
        ensures
            !old(self).is_init() && old(self).spec_open_error(x as int, y as int) != Some(UnopenableError::OutOfBounds)
                && old(self).spec_open_error(x as int, y as int) != Some(UnopenableError::NoRoomForClearing) ==> final(self).is_init(),
    {
        let pending = match &self.0 {
            LazyGameBoardInner::Init(_) => false,
            LazyGameBoardInner::Uninit { .. } => true,
        };
        let ghost pre = *self;
        self.init_at(x, y)?;
        let ghost mid = *self;
        let r = match &mut self.0 {
            LazyGameBoardInner::Init(b) => {
                if pending {
                    if let Some(VisibleTile::Visible(_)) = b.get_board_tile(x, y) {
                        proof {
                            assert forall|a: int, c: int| #[trigger] mid.spec_tile(a, c) != pre.spec_tile(a, c)
                                implies pre.spec_tile(a, c) == Some(VisibleTile::NotVisible)
                                && (mid.spec_tile(a, c) matches Some(VisibleTile::Visible(_))) by {}
                        }
                        return Ok(GameBoardEvent::OpenCell(Vec::new()));
                    }
                }
                b.open_around(x, y)
            },
            LazyGameBoardInner::Uninit { .. } => Err(UnopenableError::OutOfBounds),
        };
        proof {
            if r is Ok {
                assert forall|a: int, b: int| #[trigger] mid.spec_tile(a, b) == pre.spec_tile(a, b) by {}
                let v = opened_cells(r->Ok_0);
                assert forall|a: int, b: int| #[trigger] listed(v, (a, b)) implies pre.spec_tile(a, b) == Some(VisibleTile::NotVisible)
                    && self.spec_tile(a, b) matches Some(VisibleTile::Visible(_)) by {
                    assert(mid.spec_tile(a, b) == pre.spec_tile(a, b));
                }
                assert forall|a: int, b: int| #[trigger] self.spec_tile(a, b) != pre.spec_tile(a, b) implies pre.spec_tile(a, b)
                    == Some(VisibleTile::NotVisible) && (self.spec_tile(a, b) matches Some(VisibleTile::Visible(_))) by {
                    assert(mid.spec_tile(a, b) == pre.spec_tile(a, b));
                }
            }
        }
        r
    }

    /// On a board still to be created, creates it with its clearing here first.
    fn flag_tile(&mut self, x: u16, y: u16) -> (r: Result<GameBoardEvent, UnopenableError>)
        ensures
            !old(self).is_init() && old(self).spec_open_error(x as int, y as int) != Some(UnopenableError::OutOfBounds)
                && old(self).spec_open_error(x as int, y as int) != Some(UnopenableError::NoRoomForClearing) ==> final(self).is_init(),
    {
        let ghost pre = *self;
        self.init_at(x, y)?;
        let ghost mid = *self;
        let r = match &mut self.0 {
            LazyGameBoardInner::Init(b) => b.flag_tile(x, y),
            LazyGameBoardInner::Uninit { .. } => Err(UnopenableError::OutOfBounds),
        };
        proof {
            if r is Ok {
                assert forall|a: int, b: int| !(a == x && b == y) implies #[trigger] self.spec_tile(a, b) == pre.spec_tile(a, b) by {
                    assert(mid.spec_tile(a, b) == pre.spec_tile(a, b));
                }
            }
        }
        r
    }

    /// A board still to be created has nothing to undo.
    fn undo_move(&mut self, event: &GameBoardEvent) -> (r: Result<(), UndoError>)
        ensures
            !old(self).is_init() ==> r == Err::<(), UndoError>(UndoError::AlreadyClosed) && *final(self) == *old(self),
    {
        match &mut self.0 {
            LazyGameBoardInner::Init(b) => b.undo_move(event),
            LazyGameBoardInner::Uninit { .. } => Err(UndoError::AlreadyClosed),
        }
    }

    fn get_board_tile(&self, x: u16, y: u16) -> (r: Option<VisibleTile>) {
        match &self.0 {
            LazyGameBoardInner::Init(b) => b.get_board_tile(x, y),
            LazyGameBoardInner::Uninit { x: w, y: h, .. } => {
                assert(self.spec_width() == *w);
                assert(((x as int) < self.spec_width() && (y as int) < self.spec_height()) == (x < *w && y < *h));
                if x < *w && y < *h {
                    Some(VisibleTile::NotVisible)
                } else {
                    None
                }
            },
        }
    }

    fn lose_game(&mut self) {
        match &mut self.0 {
            LazyGameBoardInner::Init(b) => b.lose_game(),
            LazyGameBoardInner::Uninit { .. } => {},
        }
    }

    /// A board still to be created is not won: every cell without a mine is left.
    fn win_game(&mut self) -> (r: Result<(), u32>)
        ensures
            !old(self).is_init() ==> r == Err::<(), u32>((old(self).spec_width() * old(self).spec_height() - old(self).spec_bombs()) as u32),
    {
        match &mut self.0 {
            LazyGameBoardInner::Init(b) => b.win_game(),
            LazyGameBoardInner::Uninit { x, y, bombs } => Err(widening_mul(*x, *y) - *bombs),
        }
    }

    fn render(&self) -> (r: FlatBoard<VisibleTile>) {
        match &self.0 {
            LazyGameBoardInner::Init(b) => b.render(),
            LazyGameBoardInner::Uninit { x, y, .. } => {
                assert((*y as usize) * (*x as usize) <= 65535 * 65535) by (nonlinear_arith)
                    requires
                        *y <= 65535,
                        *x <= 65535,
                ;
                let r = FlatBoard::new(*y as usize, *x as usize, VisibleTile::NotVisible);
                proof {
                    assert forall|a: int, b: int| (0 <= a < self.spec_width() && 0 <= b < self.spec_height()) implies self.spec_tile(a, b) == Some(#[trigger] r.at(b, a)) by {
                        crate::flatboard::lemma_flat_index(*y as int, *x as int, b, a);
                    }
                }
                r
            },
        }
    }

    fn do_event(&mut self, k: KeyEvent) -> (r: Result<(), UnopenableError>) {
        match &mut self.0 {
            LazyGameBoardInner::Init(b) => {
                return b.do_event(k);
            },
            LazyGameBoardInner::Uninit { .. } => {},
        }
        match k {
            KeyEvent::Mouse1(x, y) => {
                match self.get_board_tile(x, y) {
                    Some(VisibleTile::NotVisible) => {
                        self.open_tile(x, y)?;
                    },
                    Some(VisibleTile::Visible(_)) => {
                        self.open_around(x, y)?;
                    },
                    Some(VisibleTile::Flagged) => {},
                    None => {
                        return Err(UnopenableError::OutOfBounds);
                    },
                }
            },
            KeyEvent::Mouse2(x, y) => {
                match self.get_board_tile(x, y) {
                    Some(VisibleTile::Visible(_)) => {},
                    Some(_) => {
                        self.flag_tile(x, y)?;
                    },
                    None => {
                        return Err(UnopenableError::OutOfBounds);
                    },
                }
            },
            _ => {},
        }
        Ok(())
    }
}

} // verus!
