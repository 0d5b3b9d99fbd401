//! The board engine: mine placement, opening with flood fill, chorded
//! opening, flagging and undo.
use vstd::prelude::*;
use rand::seq::SliceRandom;
use rand::Rng;
use crate::counting::{
    count_idx, count_where, lemma_count_bound, lemma_count_change, lemma_count_disjoint, lemma_count_contained,
    lemma_count_ext, lemma_count_prefix, lemma_count_where_ext, lemma_count_split, lemma_count_true_multiset,
};
use crate::errors::{NewBoardError, UndoError, UnopenableError};
use crate::interface::{opened_cells, vis_toggled, BaseGameBoard, GameBoardEvent, KeyEvent};
use crate::flatboard::{IterBacking, flat_index, lemma_flat_index, lemma_flat_index_injective, FlatBoard};
use crate::tiles::{tile_count, tile_of_count, toggled, visible_of, BoardTile, Tile, Visibility, VisibleTile};

verus! {

/// The largest width or height of a board.
pub const MAX_SIDE: u16 = 10000;

/// The largest number of mines on a board.
pub const MAX_BOMBS: u32 = 100000000;

/// The most cells a clearing can cover: a cell and its eight neighbours.
pub const CLEARING_SIZE: u32 = 9;

/// Relies on rand's `SliceRandom::shuffle` with the thread-local generator:
/// it only swaps entries, so the result is a permutation of the input.
#[verifier::external_body]
fn shuffle_bools(v: &mut Vec<bool>)
    ensures
        final(v)@.to_multiset() == old(v)@.to_multiset(),
        final(v)@.len() == old(v)@.len(),
{
    v.shuffle(&mut rand::thread_rng());
}

/// Relies on rand's `Rng::gen_range` with the thread-local generator: a value
/// of the half-open range `0..n`, which must not be empty.
#[verifier::external_body]
fn random_below(n: usize) -> (r: usize)
    requires
        n > 0,
    ensures
        r < n,
{
    rand::thread_rng().gen_range(0..n)
}

/// Whether two positions are distinct and touch, across a side or a corner.
pub open spec fn adjacent(a: (int, int), b: (int, int)) -> bool {
    &&& a != b
    &&& -1 <= a.0 - b.0 <= 1
    &&& -1 <= a.1 - b.1 <= 1
}

/// Whether a list of coordinates holds `p`.
pub open spec fn listed(v: Seq<(u16, u16)>, p: (int, int)) -> bool {
    exists|i: int| 0 <= i < v.len() && (v[i].0 as int, v[i].1 as int) == p
}

/// Whether a list of coordinates holds each coordinate at most once.
pub open spec fn no_repeats(v: Seq<(u16, u16)>) -> bool {
    forall|i: int, j: int| 0 <= i < v.len() && 0 <= j < v.len() && i != j ==> v[i] != v[j]
}

/// The number of positions among `c - 1`, `c`, `c + 1` that lie in `0..n`,
/// for `c` in `0..n`.
pub open spec fn span(c: int, n: int) -> int {
    (if c > 0 { 1int } else { 0int }) + 1 + (if c + 1 < n { 1int } else { 0int })
}

/// The number of cells of the clearing of `(cx, cy)` on a board of `w`
/// columns and `h` rows: the 3 by 3 block around it, clipped at the edges.
pub open spec fn clearing_size(w: int, h: int, cx: int, cy: int) -> int {
    span(cx, w) * span(cy, h)
}

/// A clearing has one to nine cells.
pub proof fn lemma_clearing_size(w: int, h: int, cx: int, cy: int)
    ensures
        1 <= clearing_size(w, h, cx, cy) <= 9,
{
    let a = span(cx, w);
    let b = span(cy, h);
    assert(1 <= a * b <= 9) by (nonlinear_arith)
        requires
            1 <= a <= 3,
            1 <= b <= 3,
    ;
}

/// Whether offset `d` (0, 1 or 2, standing for -1, 0 and +1) from `c` stays in `0..n`.
spec fn offset_ok(c: int, d: int, n: int) -> bool {
    c + d >= 1 && c + d - 1 < n
}

/// How many of the offsets below `k` stay in `0..n`.
spec fn offsets_ok(c: int, k: int, n: int) -> int {
    (if k > 0 && offset_ok(c, 0, n) { 1int } else { 0int }) + (if k > 1 && offset_ok(c, 1, n) {
        1int
    } else {
        0int
    }) + (if k > 2 && offset_ok(c, 2, n) { 1int } else { 0int })
}

/// The neighbours of `(x, y)` in the rows of offset below `dy`.
spec fn rows_listed(x: int, y: int, w: int, h: int, dy: int) -> int {
    (if dy > 0 && offset_ok(y, 0, h) { span(x, w) } else { 0int }) + (if dy > 1 && offset_ok(y, 1, h) {
        span(x, w) - 1
    } else {
        0int
    }) + (if dy > 2 && offset_ok(y, 2, h) { span(x, w) } else { 0int })
}

/// The rank of a position in the 3 by 3 block around `(x, y)`, row by row.
spec fn offset_key(e: (usize, usize), x: int, y: int) -> int {
    (e.1 - y + 1) * 3 + (e.0 - x + 1)
}

/// The neighbours of a cell on the board are its clearing less itself.
proof fn lemma_rows_listed(x: int, y: int, w: int, h: int)
    requires
        0 <= x < w,
        0 <= y < h,
    ensures
        rows_listed(x, y, w, h, 3) + 1 == clearing_size(w, h, x, y),
{
    let a = span(x, w);
    if y > 0 && y + 1 < h {
        assert(a * 3 == a + a + a) by (nonlinear_arith);
    } else if y > 0 {
        assert(a * 2 == a + a) by (nonlinear_arith);
    } else if y + 1 < h {
        assert(a * 2 == a + a) by (nonlinear_arith);
    } else {
        assert(a * 1 == a) by (nonlinear_arith);
    }
}

/// The outcome of checking a board configuration, in the order the checks are made.
pub open spec fn config_check(
    x: u16,
    y: u16,
    bombs: u32,
    has_clearing: bool,
    clearing: Option<(u16, u16)>,
) -> Result<(), NewBoardError> {
    if x > MAX_SIDE || y > MAX_SIDE || bombs > MAX_BOMBS {
        Err(NewBoardError::SizeConstraintOverflow)
    } else if x * y < bombs {
        Err(NewBoardError::BombOverflow)
    } else if x == 0 || y == 0 {
        Err(NewBoardError::ZeroDimension)
    } else if clearing matches Some(c) && !(c.0 < x && c.1 < y) {
        Err(NewBoardError::SizeConstraintOverflow)
    } else if has_clearing && clearing is None && x * y - bombs < CLEARING_SIZE {
        Err(NewBoardError::BombOverflow)
    } else if has_clearing && clearing is Some && x * y - bombs < clearing_size(
        x as int,
        y as int,
        clearing->Some_0.0 as int,
        clearing->Some_0.1 as int,
    ) {
        Err(NewBoardError::BombOverflow)
    } else {
        Ok(())
    }
}

/// A minesweeper board: a grid of cells, indexed by row then column, and the
/// number of mines it was made with.
#[derive(Debug)]
pub struct GameBoard {
    bombs: u32,
    board: FlatBoard<BoardTile>,
    over: bool,
}

impl GameBoard {
    /// The number of columns.
    pub closed spec fn width(&self) -> int {
        self.board.cols() as int
    }

    /// The number of rows.
    pub closed spec fn height(&self) -> int {
        self.board.rows() as int
    }

    /// The number of mines the board was made with.
    pub closed spec fn bomb_total(&self) -> nat {
        self.bombs as nat
    }

    /// Whether the game on this board has ended.
    pub closed spec fn is_over(&self) -> bool {
        self.over
    }

    /// All cells, row after row.
    pub closed spec fn cells(&self) -> Seq<BoardTile> {
        self.board.cells()
    }

    /// Whether `(x, y)` lies on the board.
    pub open spec fn in_bounds(&self, x: int, y: int) -> bool {
        0 <= x < self.width() && 0 <= y < self.height()
    }

    /// The cell at column `x` of row `y`.
    pub open spec fn cell(&self, x: int, y: int) -> BoardTile {
        self.cells()[flat_index(self.width(), y, x)]
    }

    /// Whether `(x, y)` is on the board and holds a mine.
    pub open spec fn is_mine(&self, x: int, y: int) -> bool {
        self.in_bounds(x, y) && self.cell(x, y).tile == Tile::Bomb
    }

    /// Whether `(x, y)` is on the board and flagged.
    pub open spec fn is_flagged(&self, x: int, y: int) -> bool {
        self.in_bounds(x, y) && self.cell(x, y).visible == Visibility::Flagged
    }

    /// One for a mine at `(x, y)`, zero otherwise, off the board included.
    pub open spec fn mine_ind(&self, x: int, y: int) -> int {
        if self.is_mine(x, y) {
            1
        } else {
            0
        }
    }

    /// One for a flag at `(x, y)`, zero otherwise, off the board included.
    pub open spec fn flag_ind(&self, x: int, y: int) -> int {
        if self.is_flagged(x, y) {
            1
        } else {
            0
        }
    }

    /// The number of mines among the up to eight neighbours of `(x, y)`.
    pub open spec fn mines_around(&self, x: int, y: int) -> int {
        self.mine_ind(x - 1, y - 1) + self.mine_ind(x, y - 1) + self.mine_ind(x + 1, y - 1)
            + self.mine_ind(x - 1, y) + self.mine_ind(x + 1, y) + self.mine_ind(x - 1, y + 1)
            + self.mine_ind(x, y + 1) + self.mine_ind(x + 1, y + 1)
    }

    /// The number of flags among the up to eight neighbours of `(x, y)`.
    pub open spec fn flags_around(&self, x: int, y: int) -> int {
        self.flag_ind(x - 1, y - 1) + self.flag_ind(x, y - 1) + self.flag_ind(x + 1, y - 1)
            + self.flag_ind(x - 1, y) + self.flag_ind(x + 1, y) + self.flag_ind(x - 1, y + 1)
            + self.flag_ind(x, y + 1) + self.flag_ind(x + 1, y + 1)
    }

    /// What a player sees at `(x, y)`.
    pub open spec fn visible_at(&self, x: int, y: int) -> VisibleTile {
        visible_of(self.cell(x, y))
    }

    /// The dimensions and limits of a board.
    pub open spec fn shape_ok(&self) -> bool {
        &&& 1 <= self.width() <= MAX_SIDE
        &&& 1 <= self.height() <= MAX_SIDE
        &&& self.cells().len() == self.height() * self.width()
        &&& self.bomb_total() <= self.height() * self.width()
        &&& self.bomb_total() <= MAX_BOMBS
    }

    /// The cell at `(x, y)` is a mine or shows the number of mines around it.
    #[verifier::opaque]
    pub open spec fn hint_ok_at(&self, x: int, y: int) -> bool {
        self.cell(x, y).tile != Tile::Bomb ==> self.cell(x, y).tile == tile_of_count(
            self.mines_around(x, y),
        )
    }

    /// Every cell that is not a mine shows the number of mines around it.
    pub open spec fn hints_ok(&self) -> bool {
        forall|x: int, y: int| self.in_bounds(x, y) ==> #[trigger] self.hint_ok_at(x, y)
    }

    /// No open cell is a mine.
    pub open spec fn no_open_mines(&self) -> bool {
        forall|x: int, y: int|
            self.in_bounds(x, y) && (#[trigger] self.cell(x, y)).visible == Visibility::Visible
                ==> self.cell(x, y).tile != Tile::Bomb
    }

    /// The number of mines on the board.
    pub open spec fn mines_on_board(&self) -> nat {
        count_where(self.cells(), |t: BoardTile| t.tile == Tile::Bomb)
    }

    /// The number of open cells.
    pub open spec fn opened_count(&self) -> nat {
        count_where(self.cells(), |t: BoardTile| t.visible == Visibility::Visible)
    }

    /// The number of flagged cells.
    pub open spec fn flagged_count(&self) -> nat {
        count_where(self.cells(), |t: BoardTile| t.visible == Visibility::Flagged)
    }

    /// A board in play: its shape, its mine count, consistent hints, and no open mine.
    pub open spec fn inv(&self) -> bool {
        &&& self.shape_ok()
        &&& self.mines_on_board() == self.bomb_total()
        &&& self.hints_ok()
        &&& self.no_open_mines()
    }

    /// Every cell is closed.
    pub open spec fn all_closed(&self) -> bool {
        forall|x: int, y: int|
            self.in_bounds(x, y) ==> (#[trigger] self.cell(x, y)).visible == Visibility::NotVisible
    }

    /// Two boards with the same dimensions, mine count, game state and hidden values.
    pub open spec fn same_layout(&self, other: &GameBoard) -> bool {
        &&& self.width() == other.width()
        &&& self.height() == other.height()
        &&& self.bomb_total() == other.bomb_total()
        &&& self.is_over() == other.is_over()
        &&& self.cells().len() == other.cells().len()
        &&& forall|x: int, y: int|
            self.in_bounds(x, y) ==> (#[trigger] self.cell(x, y)).tile == other.cell(x, y).tile
    }

    /// The open cells.
    pub open spec fn open_set(&self) -> Set<(int, int)> {
        Set::new(
            |p: (int, int)|
                self.in_bounds(p.0, p.1) && self.cell(p.0, p.1).visible == Visibility::Visible,
        )
    }

    /// Whether a set of cells, taken as open, leaves no zero cell with a
    /// closed neighbour: with each zero cell it holds every neighbour that
    /// carries no flag.
    pub open spec fn fill_closed(&self, s: Set<(int, int)>) -> bool {
        forall|p: (int, int), q: (int, int)|
            #![trigger s.contains(p), adjacent(q, p)]
            s.contains(p) && self.in_bounds(p.0, p.1) && self.cell(p.0, p.1).tile == Tile::Zero
                && self.in_bounds(q.0, q.1) && adjacent(q, p) && self.cell(q.0, q.1).visible
                != Visibility::Flagged ==> s.contains(q)
    }

    /// Whether `result` is what flood fill opens from the open cells `base`:
    /// the least set that holds `base` and leaves no zero cell with a closed
    /// neighbour, that is `base` with the connected zero regions it touches
    /// and their borders.
    pub open spec fn fill_of(&self, base: Set<(int, int)>, result: Set<(int, int)>) -> bool {
        &&& base.subset_of(result)
        &&& self.fill_closed(result)
        &&& forall|s: Set<(int, int)>|
            #[trigger] self.fill_closed(s) && base.subset_of(s) ==> result.subset_of(s)
    }

    /// Two boards with flags on the same cells.
    pub open spec fn same_flags(&self, other: &GameBoard) -> bool {
        forall|x: int, y: int|
            self.in_bounds(x, y) ==> ((#[trigger] self.cell(x, y)).visible == Visibility::Flagged
                <==> other.cell(x, y).visible == Visibility::Flagged)
    }

    /// Whether `v` lists exactly the cells open on `after` and not on `before`, once each.
    pub open spec fn lists_opened(before: &GameBoard, after: &GameBoard, v: Seq<(u16, u16)>) -> bool {
        &&& no_repeats(v)
        &&& forall|p: (int, int)|
            #[trigger] after.open_set().contains(p) <==> before.open_set().contains(p) || listed(
                v,
                p,
            )
        &&& forall|p: (int, int)| #[trigger] listed(v, p) ==> !before.open_set().contains(p)
    }

    /// The error that opening `(x, y)` fails with, if any: off the board,
    /// game over, already open, flagged, or a mine.
    pub open spec fn open_tile_error(&self, x: int, y: int) -> Option<UnopenableError> {
        if !self.in_bounds(x, y) {
            Some(UnopenableError::OutOfBounds)
        } else if self.is_over() {
            Some(UnopenableError::GameOver)
        } else if self.cell(x, y).visible == Visibility::Visible {
            Some(UnopenableError::AlreadyOpen)
        } else if self.cell(x, y).visible == Visibility::Flagged {
            Some(UnopenableError::FlaggedTile)
        } else if self.cell(x, y).tile == Tile::Bomb {
            Some(UnopenableError::BombHit)
        } else {
            None
        }
    }

    /// The closed neighbours of `(x, y)` without a flag: what a chorded open opens.
    pub open spec fn chord_set(&self, x: int, y: int) -> Set<(int, int)> {
        Set::new(
            |q: (int, int)|
                self.in_bounds(q.0, q.1) && adjacent(q, (x, y)) && self.cell(q.0, q.1).visible
                    == Visibility::NotVisible,
        )
    }

    /// The error that a chorded open at `(x, y)` fails with, if any: off the
    /// board, game over, the cell a mine, a flag count unlike its hint, or a
    /// mine among the cells it would open.
    pub open spec fn open_around_error(&self, x: int, y: int) -> Option<UnopenableError> {
        if !self.in_bounds(x, y) {
            Some(UnopenableError::OutOfBounds)
        } else if self.is_over() {
            Some(UnopenableError::GameOver)
        } else if self.cell(x, y).tile == Tile::Bomb {
            Some(UnopenableError::BombHit)
        } else if self.flags_around(x, y) != tile_count(self.cell(x, y).tile)->Some_0 as int {
            Some(UnopenableError::FlagCountMismatch)
        } else if exists|q: (int, int)| #[trigger] self.chord_set(x, y).contains(q) && self.is_mine(q.0, q.1) {
            Some(UnopenableError::BombHit)
        } else {
            None
        }
    }

    /// The error that toggling a flag at `(x, y)` fails with, if any: off the
    /// board, game over, or already open.
    pub open spec fn flag_tile_error(&self, x: int, y: int) -> Option<UnopenableError> {
        if !self.in_bounds(x, y) {
            Some(UnopenableError::OutOfBounds)
        } else if self.is_over() {
            Some(UnopenableError::GameOver)
        } else if self.cell(x, y).visible == Visibility::Visible {
            Some(UnopenableError::AlreadyOpen)
        } else {
            None
        }
    }

    /// The error that undoing an opening of the listed cells fails with, if
    /// any: at the first listed cell that is off the board or not open.
    pub open spec fn undo_open_error(&self, v: Seq<(u16, u16)>) -> Option<UndoError>
        decreases v.len(),
    {
        if v.len() == 0 {
            None
        } else if !self.in_bounds(v[0].0 as int, v[0].1 as int) {
            Some(UndoError::OutOfBounds)
        } else if self.cell(v[0].0 as int, v[0].1 as int).visible != Visibility::Visible {
            Some(UndoError::AlreadyClosed)
        } else {
            self.undo_open_error(v.drop_first())
        }
    }

    /// `after` is `self` with the visibility at `(x, y)` set to `v` and nothing else changed.
    pub open spec fn with_visibility(&self, after: &GameBoard, x: int, y: int, v: Visibility) -> bool {
        &&& after.same_layout(self)
        &&& after.cell(x, y).visible == v
        &&& forall|a: int, b: int|
            self.in_bounds(a, b) && !(a == x && b == y) ==> #[trigger] after.cell(a, b) == self.cell(a, b)
    }

    /// `after` is `self` with every listed cell closed and nothing else changed.
    pub open spec fn with_closed(&self, after: &GameBoard, v: Seq<(u16, u16)>) -> bool {
        &&& after.same_layout(self)
        &&& forall|a: int, b: int|
            self.in_bounds(a, b) ==> (#[trigger] after.cell(a, b)).visible == if listed(v, (a, b)) {
                Visibility::NotVisible
            } else {
                self.cell(a, b).visible
            }
    }

    /// The cells that `(x, y)`'s clearing covers: itself and its neighbours on the board.
    pub open spec fn in_clearing(&self, cx: int, cy: int, x: int, y: int) -> bool {
        self.in_bounds(x, y) && ((x == cx && y == cy) || adjacent((x, y), (cx, cy)))
    }

    /// Entry `i` of the backing sequence is the cell at `(i % width, i / width)`.
    proof fn lemma_cell_of_index(&self, i: int)
        requires
            self.shape_ok(),
            0 <= i < self.cells().len(),
        ensures
            self.in_bounds(i % self.width(), i / self.width()),
            flat_index(self.width(), i / self.width(), i % self.width()) == i,
    {
        let w = self.width();
        let h = self.height();
        vstd::arithmetic::div_mod::lemma_fundamental_div_mod(i, w);
        vstd::arithmetic::div_mod::lemma_div_pos_is_pos(i, w);
        vstd::arithmetic::div_mod::lemma_mod_bound(i, w);
        if i / w >= h {
            assert((i / w) * w >= h * w) by (nonlinear_arith)
                requires
                    i / w >= h,
                    w >= 1,
            ;
        }
        assert(flat_index(w, i / w, i % w) == (i / w) * w + i % w);
        assert(w * (i / w) == (i / w) * w) by (nonlinear_arith);
    }

    /// The cell at `(x, y)`, which must be on the board.
    fn tile_at(&self, x: usize, y: usize) -> (r: BoardTile)
        requires
            self.shape_ok(),
            self.in_bounds(x as int, y as int),
        ensures
            r == self.cell(x as int, y as int),
    {
        proof {
            lemma_flat_index(self.height(), self.width(), y as int, x as int);
        }
        let row = self.board.get(y).unwrap();
        row[x]
    }

    /// Replaces the cell at `(x, y)`, which must be on the board.
    fn set_cell(&mut self, x: usize, y: usize, c: BoardTile)
        requires
            old(self).shape_ok(),
            old(self).in_bounds(x as int, y as int),
        ensures
            final(self).width() == old(self).width(),
            final(self).height() == old(self).height(),
            final(self).bomb_total() == old(self).bomb_total(),
            final(self).is_over() == old(self).is_over(),
            final(self).cells() == old(self).cells().update(
                flat_index(old(self).width(), y as int, x as int),
                c,
            ),
            forall|a: int, b: int|
                #![trigger final(self).cell(a, b)]
                old(self).in_bounds(a, b) ==> final(self).cell(a, b) == if a == x && b == y {
                    c
                } else {
                    old(self).cell(a, b)
                },
    {
        proof {
            lemma_flat_index(self.height(), self.width(), y as int, x as int);
        }
        let ghost pre = self.board.cells();
        let ghost w = self.width();
        let row = self.board.get_mut(y).unwrap();
        row[x] = c;
        proof {
            assert(self.board.cells() =~= pre.update(flat_index(w, y as int, x as int), c));
            assert forall|a: int, b: int| old(self).in_bounds(a, b) implies #[trigger] self.cell(a, b)
                == if a == x && b == y {
                c
            } else {
                old(self).cell(a, b)
            } by {
                lemma_flat_index(self.height(), self.width(), b, a);
                if !(a == x && b == y) {
                    if flat_index(w, b, a) == flat_index(w, y as int, x as int) {
                        lemma_flat_index_injective(w, b, a, y as int, x as int);
                    }
                }
            }
        }
    }

    /// The positions on the board that touch `(x, y)`, which must be on the
    /// board itself, each once: the clearing of `(x, y)` without its centre.
    fn normalize_around_3x3(&self, x: u16, y: u16) -> (r: Vec<(usize, usize)>)
        requires
            self.shape_ok(),
            self.in_bounds(x as int, y as int),
        ensures
            forall|i: int|
                0 <= i < r.len() ==> self.in_bounds((#[trigger] r@[i]).0 as int, r@[i].1 as int)
                    && adjacent((r@[i].0 as int, r@[i].1 as int), (x as int, y as int)),
            forall|a: int, b: int|
                self.in_bounds(a, b) && #[trigger] adjacent((a, b), (x as int, y as int))
                    ==> exists|i: int| 0 <= i < r.len() && r@[i] == (a as usize, b as usize),
            forall|i: int, j: int| 0 <= i < r.len() && 0 <= j < r.len() && i != j ==> r@[i] != r@[j],
            r.len() + 1 == clearing_size(self.width(), self.height(), x as int, y as int),
            r.len() <= 8,
    {
        let w = self.board.dimensions().1;
        let h = self.board.len();
        let ghost (xi, yi, wi, hi) = (x as int, y as int, self.width(), self.height());
        let mut arr: Vec<(usize, usize)> = Vec::with_capacity(8);
        let mut dy: usize = 0;
        while dy < 3
            invariant
                self.shape_ok(),
                self.in_bounds(x as int, y as int),
                w == self.width() == wi,
                h == self.height() == hi,
                xi == x,
                yi == y,
                dy <= 3,
                arr.len() == rows_listed(xi, yi, wi, hi, dy as int),
                forall|i: int|
                    0 <= i < arr.len() ==> self.in_bounds((#[trigger] arr@[i]).0 as int, arr@[i].1 as int)
                        && adjacent((arr@[i].0 as int, arr@[i].1 as int), (x as int, y as int)),
                forall|i: int| 0 <= i < arr.len() ==> offset_key(#[trigger] arr@[i], xi, yi) < 3 * dy,
                forall|i: int, j: int| 0 <= i < j < arr.len() ==> offset_key(#[trigger] arr@[i], xi, yi) < offset_key(#[trigger] arr@[j], xi, yi),
                forall|a: int, b: int|
                    self.in_bounds(a, b) && #[trigger] adjacent((a, b), (x as int, y as int)) && b - y + 1 < dy
                        ==> exists|i: int| 0 <= i < arr.len() && arr@[i] == (a as usize, b as usize),
            decreases 3 - dy,
        {
            let mut dx: usize = 0;
            while dx < 3
                invariant
                    self.shape_ok(),
                    self.in_bounds(x as int, y as int),
                    w == self.width() == wi,
                    h == self.height() == hi,
                    xi == x,
                    yi == y,
                    dy < 3,
                    dx <= 3,
                    arr.len() == rows_listed(xi, yi, wi, hi, dy as int) + if offset_ok(yi, dy as int, hi) {
                        offsets_ok(xi, dx as int, wi) - (if dy == 1 && dx > 1 { 1int } else { 0int })
                    } else {
                        0int
                    },
                    forall|i: int|
                        0 <= i < arr.len() ==> self.in_bounds((#[trigger] arr@[i]).0 as int, arr@[i].1 as int)
                            && adjacent((arr@[i].0 as int, arr@[i].1 as int), (x as int, y as int)),
                    forall|i: int| 0 <= i < arr.len() ==> offset_key(#[trigger] arr@[i], xi, yi) < 3 * dy + dx,
                    forall|i: int, j: int| 0 <= i < j < arr.len() ==> offset_key(#[trigger] arr@[i], xi, yi) < offset_key(#[trigger] arr@[j], xi, yi),
                    forall|a: int, b: int|
                        self.in_bounds(a, b) && #[trigger] adjacent((a, b), (x as int, y as int)) && (b - y + 1 < dy || (b - y + 1 == dy && a - x + 1 < dx))
                            ==> exists|i: int| 0 <= i < arr.len() && arr@[i] == (a as usize, b as usize),
                decreases 3 - dx,
            {
                let xs = x as usize + dx;
                let ys = y as usize + dy;
                let ghost before = arr@;
                if xs >= 1 && ys >= 1 && xs - 1 < w && ys - 1 < h && !(dx == 1 && dy == 1) {
                    arr.push((xs - 1, ys - 1));
                    proof {
                        assert(offset_key(arr@[arr.len() - 1], xi, yi) == 3 * dy + dx);
                    }
                }
                proof {
                    assert forall|a: int, b: int|
                        self.in_bounds(a, b) && #[trigger] adjacent((a, b), (x as int, y as int)) && (
                        b - y + 1 < dy || (b - y + 1 == dy && a - x + 1 < dx + 1)) implies exists|i: int|
                        0 <= i < arr.len() && arr@[i] == (a as usize, b as usize) by {
                        if b - y + 1 == dy && a - x + 1 == dx {
                            assert(arr@[arr.len() - 1] == (a as usize, b as usize));
                        } else {
                            let i = choose|i: int| 0 <= i < before.len() && before[i] == (a as usize, b as usize);
                            assert(arr@[i] == before[i]);
                        }
                    }
                    assert forall|i: int| 0 <= i < arr.len() implies offset_key(#[trigger] arr@[i], xi, yi) < 3 * dy + dx + 1 by {
                        if i < before.len() {
                            assert(arr@[i] == before[i]);
                        }
                    }
                    assert forall|i: int, j: int| 0 <= i < j < arr.len() implies offset_key(#[trigger] arr@[i], xi, yi) < offset_key(#[trigger] arr@[j], xi, yi) by {
                        assert(arr@[i] == before[i] || i == before.len());
                        if j < before.len() {
                            assert(arr@[j] == before[j]);
                        } else {
                            assert(arr@[i] == before[i]);
                        }
                    }
                }
                dx = dx + 1;
            }
            dy = dy + 1;
        }
        proof {
            lemma_rows_listed(xi, yi, wi, hi);
            assert forall|i: int, j: int| 0 <= i < arr.len() && 0 <= j < arr.len() && i != j implies arr@[i] != arr@[j] by {
                if i < j {
                    assert(offset_key(arr@[i], xi, yi) < offset_key(arr@[j], xi, yi));
                } else {
                    assert(offset_key(arr@[j], xi, yi) < offset_key(arr@[i], xi, yi));
                }
            }
        }
        arr
    }

    /// One when `(x + dx - 1, y + dy - 1)` is on the board and holds a mine
    /// (with `mines`) or a flag (without), zero otherwise.
    fn indicator(&self, x: usize, y: usize, dx: usize, dy: usize, mines: bool) -> (r: u8)
        requires
            self.shape_ok(),
            self.in_bounds(x as int, y as int),
            dx <= 2,
            dy <= 2,
        ensures
            r == if mines {
                self.mine_ind(x + dx - 1, y + dy - 1)
            } else {
                self.flag_ind(x + dx - 1, y + dy - 1)
            },
    {
        let xs = x + dx;
        let ys = y + dy;
        if xs < 1 || ys < 1 || xs - 1 >= self.board.dimensions().1 || ys - 1 >= self.board.len() {
            0
        } else {
            let t = self.tile_at(xs - 1, ys - 1);
            if mines {
                if t.tile.is_bomb() {
                    1
                } else {
                    0
                }
            } else {
                if t.visible == Visibility::Flagged {
                    1
                } else {
                    0
                }
            }
        }
    }

    /// The number of mines (with `mines`) or flags (without) around `(x, y)`.
    fn count_around(&self, x: usize, y: usize, mines: bool) -> (r: u8)
        requires
            self.shape_ok(),
            self.in_bounds(x as int, y as int),
        ensures
            r == if mines {
                self.mines_around(x as int, y as int)
            } else {
                self.flags_around(x as int, y as int)
            },
            r <= 8,
    {
        self.indicator(x, y, 0, 0, mines) + self.indicator(x, y, 1, 0, mines) + self.indicator(x, y, 2, 0, mines)
            + self.indicator(x, y, 0, 1, mines) + self.indicator(x, y, 2, 1, mines)
            + self.indicator(x, y, 0, 2, mines) + self.indicator(x, y, 1, 2, mines)
            + self.indicator(x, y, 2, 2, mines)
    }

    /// The number of mines around `(x, y)`, which must be on the board.
    fn computed_bombs_around_tile(&self, x: usize, y: usize) -> (r: u8)
        requires
            self.shape_ok(),
            self.in_bounds(x as int, y as int),
        ensures
            r == self.mines_around(x as int, y as int),
            r <= 8,
    {
        self.count_around(x, y, true)
    }

    /// Puts a mine on each cell whose entry of `arr` is true and writes every
    /// other cell's hint: the number of mines among its neighbours.
    fn _populate_implant(&mut self, arr: Vec<bool>)
        requires
            old(self).shape_ok(),
            arr.len() == old(self).cells().len(),
            count_idx(arr.len() as int, |j: int| arr@[j]) == old(self).bomb_total(),
        ensures
            final(self).inv(),
            final(self).all_closed(),
            final(self).width() == old(self).width(),
            final(self).height() == old(self).height(),
            final(self).bomb_total() == old(self).bomb_total(),
            final(self).is_over() == old(self).is_over(),
            forall|j: int|
                0 <= j < arr.len() ==> ((#[trigger] final(self).cells()[j]).tile == Tile::Bomb
                    <==> arr@[j]),
    {
        let n = arr.len();
        let w = self.board.dimensions().1;
        let h = self.board.len();
        let mut data: Vec<BoardTile> = Vec::with_capacity(n);
        let mut i: usize = 0;
        while i < n
            invariant
                i <= n,
                n == arr.len(),
                data.len() == i,
                forall|j: int|
                    0 <= j < i ==> (#[trigger] data@[j]).visible == Visibility::NotVisible && (
                    data@[j].tile == Tile::Bomb <==> arr@[j]),
            decreases n - i,
        {
            let t = if arr[i] {
                Tile::Bomb
            } else {
                Tile::Zero
            };
            data.push(BoardTile { tile: t, visible: Visibility::NotVisible });
            i = i + 1;
        }
        self.board = FlatBoard::from_vec(h, w, data);
        let ghost w0 = self.width();
        let ghost h0 = self.height();
        let mut y: usize = 0;
        while y < h
            invariant
                self.shape_ok(),
                self.width() == w0 == w,
                self.height() == h0 == h,
                self.bomb_total() == old(self).bomb_total(),
                self.is_over() == old(self).is_over(),
                n == arr.len() == self.cells().len(),
                y <= h,
                forall|j: int|
                    0 <= j < n ==> (#[trigger] self.cells()[j]).visible == Visibility::NotVisible && (
                    self.cells()[j].tile == Tile::Bomb <==> arr@[j]),
                forall|a: int, b: int|
                    self.in_bounds(a, b) && b < y ==> #[trigger] self.hint_ok_at(a, b),
            decreases h - y,
        {
            let mut x: usize = 0;
            while x < w
                invariant
                    self.shape_ok(),
                    self.width() == w0 == w,
                    self.height() == h0 == h,
                    self.bomb_total() == old(self).bomb_total(),
                    self.is_over() == old(self).is_over(),
                    n == arr.len() == self.cells().len(),
                    y < h,
                    x <= w,
                    forall|j: int|
                        0 <= j < n ==> (#[trigger] self.cells()[j]).visible == Visibility::NotVisible
                            && (self.cells()[j].tile == Tile::Bomb <==> arr@[j]),
                    forall|a: int, b: int|
                        self.in_bounds(a, b) && (b < y || (b == y && a < x))
                            ==> #[trigger] self.hint_ok_at(a, b),
                decreases w - x,
            {
                let ghost before = *self;
                self.write_hint(x, y);
                proof {
                    assert forall|a: int, b: int|
                        self.in_bounds(a, b) && (b < y || (b == y && a < x + 1))
                            implies #[trigger] self.hint_ok_at(a, b) by {
                        reveal(GameBoard::hint_ok_at);
                        if !(a == x && b == y) {
                            assert(before.hint_ok_at(a, b));
                            assert(self.cell(a, b) == before.cell(a, b));
                            assert(self.mines_around(a, b) == before.mines_around(a, b));
                        }
                    }
                }
                x = x + 1;
            }
            y = y + 1;
        }
        proof {
            lemma_count_where_ext(
                self.cells(),
                |t: BoardTile| t.tile == Tile::Bomb,
                |j: int| arr@[j],
            );
            assert forall|a: int, b: int| self.in_bounds(a, b) implies (#[trigger] self.cell(a, b)).visible == Visibility::NotVisible by {
                lemma_flat_index(h as int, w as int, b, a);
            }

        }
    }

    /// Writes the hint of the cell at `(x, y)` unless it is a mine; mines,
    /// visibility and every other cell stay as they are.
    fn write_hint(&mut self, x: usize, y: usize)
        requires
            old(self).shape_ok(),
            old(self).in_bounds(x as int, y as int),
        ensures
            final(self).shape_ok(),
            final(self).width() == old(self).width(),
            final(self).height() == old(self).height(),
            final(self).bomb_total() == old(self).bomb_total(),
            final(self).is_over() == old(self).is_over(),
            final(self).cells().len() == old(self).cells().len(),
            forall|j: int|
                0 <= j < old(self).cells().len() ==> (#[trigger] final(self).cells()[j]).visible
                    == old(self).cells()[j].visible && (final(self).cells()[j].tile == Tile::Bomb
                    <==> old(self).cells()[j].tile == Tile::Bomb),
            forall|a: int, b: int|
                old(self).in_bounds(a, b) && !(a == x && b == y) ==> #[trigger] final(self).cell(a, b)
                    == old(self).cell(a, b),
            forall|a: int, b: int|
                #[trigger] final(self).mines_around(a, b) == old(self).mines_around(a, b),
            final(self).hint_ok_at(x as int, y as int),
    {
        reveal(GameBoard::hint_ok_at);
        let t = self.tile_at(x, y);
        if !t.tile.is_bomb() {
            let c = self.computed_bombs_around_tile(x, y);
            let hint = Tile::from_count(c).unwrap();
            let ghost before = *self;
            self.set_cell(x, y, BoardTile { tile: hint, visible: t.visible });
            proof {
                let w = self.width();
                let h = self.height();
                lemma_flat_index(h, w, y as int, x as int);
                assert forall|a: int, b: int| #[trigger] self.is_mine(a, b) == before.is_mine(a, b) by {
                    if self.in_bounds(a, b) {
                        assert(self.cell(a, b) == if a == x && b == y {
                            BoardTile { tile: hint, visible: t.visible }
                        } else {
                            before.cell(a, b)
                        });
                    }
                }
                assert forall|a: int, b: int| #[trigger] self.mines_around(a, b) == before.mines_around(a, b) by {
                    assert(self.is_mine(a - 1, b - 1) == before.is_mine(a - 1, b - 1));
                    assert(self.is_mine(a, b - 1) == before.is_mine(a, b - 1));
                    assert(self.is_mine(a + 1, b - 1) == before.is_mine(a + 1, b - 1));
                    assert(self.is_mine(a - 1, b) == before.is_mine(a - 1, b));
                    assert(self.is_mine(a + 1, b) == before.is_mine(a + 1, b));
                    assert(self.is_mine(a - 1, b + 1) == before.is_mine(a - 1, b + 1));
                    assert(self.is_mine(a, b + 1) == before.is_mine(a, b + 1));
                    assert(self.is_mine(a + 1, b + 1) == before.is_mine(a + 1, b + 1));
                }
                assert(tile_of_count(c as int) == hint);
            }
        }
    }

    /// The number of cells, which is at most a hundred million.
    fn cell_count(&self) -> (r: usize)
        requires
            self.shape_ok(),
        ensures
            r == self.cells().len(),
            r <= 100000000,
    {
        let w = self.board.dimensions().1;
        let h = self.board.len();
        assert(h * w <= 100000000) by (nonlinear_arith)
            requires
                1 <= w <= 10000,
                1 <= h <= 10000,
        ;
        h * w
    }

    /// Places the board's mines uniformly at random.
    fn populate(&mut self)
        requires
            old(self).shape_ok(),
        ensures
            final(self).inv(),
            final(self).all_closed(),
            final(self).width() == old(self).width(),
            final(self).height() == old(self).height(),
            final(self).bomb_total() == old(self).bomb_total(),
            final(self).is_over() == old(self).is_over(),
    {
        let area = self.cell_count();
        let mut arr = mine_vector(self.bombs as usize, area);
        proof {
            lemma_count_true_multiset(arr@);
        }
        shuffle_bools(&mut arr);
        shuffle_bools(&mut arr);
        proof {
            lemma_count_true_multiset(arr@);
        }
        self._populate_implant(arr);
    }

    /// Places the board's mines at random with none in the clearing of
    /// `(x, y)`: the cell itself and its neighbours. The mines are shuffled
    /// over the whole board, then each one that landed in the clearing is
    /// moved to a cell chosen uniformly among the free cells outside it.
    /// Fails when the free cells cannot hold the clearing.
    fn populate_without(&mut self, x: u16, y: u16) -> (r: Result<(), NewBoardError>)
        requires
            old(self).shape_ok(),
            old(self).in_bounds(x as int, y as int),
        ensures
            r is Err ==> r == Err::<(), NewBoardError>(NewBoardError::BombOverflow) && *final(self)
                == *old(self),
            r is Ok <==> old(self).height() * old(self).width() - old(self).bomb_total()
                >= clearing_size(old(self).width(), old(self).height(), x as int, y as int),
            r is Ok ==> final(self).inv() && final(self).all_closed() && final(self).width()
                == old(self).width() && final(self).height() == old(self).height()
                && final(self).bomb_total() == old(self).bomb_total() && final(self).is_over()
                == old(self).is_over(),
            r is Ok ==> forall|a: int, b: int|
                #[trigger] final(self).in_clearing(x as int, y as int, a, b) ==> !final(self).is_mine(a, b),
    {
        let mut valid = self.normalize_around_3x3(x, y);
        let ghost nb = valid@;
        valid.push((x as usize, y as usize));
        let w = self.board.dimensions().1;
        let area = self.cell_count();
        let bombs = self.bombs as usize;
        if area - bombs < valid.len() {
            return Err(NewBoardError::BombOverflow);
        }
        let mut arr = mine_vector(bombs, area);
        proof {
            lemma_count_true_multiset(arr@);
        }
        shuffle_bools(&mut arr);
        proof {
            lemma_count_true_multiset(arr@);
        }
        let n = area;
        // the clearing's cells, as indices into the backing sequence
        let mut prot: Vec<usize> = Vec::with_capacity(valid.len());
        let mut k: usize = 0;
        while k < valid.len()
            invariant
                self.shape_ok(),
                w == self.width(),
                n == self.cells().len(),
                k <= valid.len(),
                prot.len() == k,
                forall|i: int| 0 <= i < valid.len() ==> self.in_bounds((#[trigger] valid@[i]).0 as int, valid@[i].1 as int),
                forall|i: int| 0 <= i < k ==> #[trigger] prot@[i] == flat_index(w as int, valid@[i].1 as int, valid@[i].0 as int) && prot@[i] < n,
            decreases valid.len() - k,
        {
            let (a, b) = valid[k];
            proof {
                lemma_flat_index(self.height(), self.width(), b as int, a as int);
            }
            prot.push(b * w + a);
            k = k + 1;
        }
        let ghost pi = prot@.map_values(|u: usize| u as int);
        // the free cells outside the clearing, in increasing order
        let mut free: Vec<usize> = Vec::new();
        let mut j: usize = 0;
        while j < n
            invariant
                j <= n,
                arr.len() == n,
                pi == prot@.map_values(|u: usize| u as int),
                prot.len() == valid.len(),
                valid.len() <= n - bombs,
                forall|i: int| 0 <= i < valid.len() ==> #[trigger] prot@[i] == flat_index(w as int, valid@[i].1 as int, valid@[i].0 as int) && prot@[i] < n,
                forall|i: int| 0 <= i < free.len() ==> (#[trigger] free@[i]) < j && !arr@[free@[i] as int] && !pi.contains(free@[i] as int),
                forall|i1: int, i2: int| 0 <= i1 < i2 < free.len() ==> free@[i1] < free@[i2],
                free.len() == count_idx(j as int, |q: int| !arr@[q] && !pi.contains(q)),
            decreases n - j,
        {
            if !arr[j] && !lists_index(&prot, j) {
                free.push(j);
            }
            j = j + 1;
        }
        proof {
            let nn = n as int;
            let all = |q: int| true;
            let fa = |q: int| arr@[q];
            let nfa = |q: int| !arr@[q];
            let fp = |q: int| pi.contains(q);
            let free_p = |q: int| !arr@[q] && !pi.contains(q);
            let nfa_p = |q: int| !arr@[q] && pi.contains(q);
            let fa_p = |q: int| arr@[q] && pi.contains(q);
            let p_nfa = |q: int| pi.contains(q) && !arr@[q];
            let p_fa = |q: int| pi.contains(q) && arr@[q];
            // the free cells outside the clearing are at least as many as the mines in it
            lemma_count_split(nn, all, fa, fa, nfa);
            lemma_count_bound(nn, all);
            lemma_count_split(nn, nfa, fp, nfa_p, free_p);
            lemma_count_split(nn, fp, fa, p_fa, p_nfa);
            lemma_count_ext(nn, p_fa, fa_p);
            lemma_count_ext(nn, p_nfa, nfa_p);
            lemma_count_contained(nn, pi);
            assert(pi.len() == valid.len());
        }
        // move each mine of the clearing to a free cell outside it
        let mut k: usize = 0;
        while k < prot.len()
            invariant
                k <= prot.len(),
                arr.len() == n,
                pi == prot@.map_values(|u: usize| u as int),
                prot.len() == valid.len(),
                forall|i: int| 0 <= i < valid.len() ==> #[trigger] prot@[i] == flat_index(w as int, valid@[i].1 as int, valid@[i].0 as int) && prot@[i] < n,
                count_idx(n as int, |q: int| arr@[q]) == bombs,
                forall|i: int| 0 <= i < k ==> !arr@[#[trigger] prot@[i] as int],
                forall|i: int| 0 <= i < free.len() ==> (#[trigger] free@[i]) < n && !arr@[free@[i] as int] && !pi.contains(free@[i] as int),
                forall|i1: int, i2: int| 0 <= i1 < free.len() && 0 <= i2 < free.len() && i1 != i2 ==> free@[i1] != free@[i2],
                free.len() >= count_idx(n as int, |q: int| arr@[q] && pi.contains(q)),
            decreases prot.len() - k,
        {
            let p = prot[k];
            if arr[p] {
                let ghost a0 = arr@;
                proof {
                    assert(pi[k as int] == p);
                    assert(pi.contains(p as int));
                    let fa_p = |q: int| arr@[q] && pi.contains(q);
                    assert(fa_p(p as int));
                    lemma_count_bound(n as int, fa_p);
                    assert(count_idx(n as int, fa_p) > 0);
                }
                let t = random_below(free.len());
                let fj = free[t];
                assert(!pi.contains(fj as int));
                assert(fj != p);
                arr[p] = false;
                arr[fj] = true;
                let ghost f0 = free@;
                free.swap_remove(t);
                proof {
                    let a1 = a0.update(p as int, false);
                    assert(arr@ == a1.update(fj as int, true));
                    lemma_count_change(n as int, |q: int| a0[q], |q: int| a1[q], p as int);
                    lemma_count_change(n as int, |q: int| a1[q], |q: int| arr@[q], fj as int);
                    lemma_count_change(n as int, |q: int| a0[q] && pi.contains(q), |q: int| arr@[q] && pi.contains(q), p as int);
                    assert forall|i: int| 0 <= i < free.len() implies (#[trigger] free@[i]) < n && !arr@[free@[i] as int] && !pi.contains(free@[i] as int) by {
                        if i == t {
                            assert(free@[i] == f0[f0.len() - 1]);
                        } else {
                            assert(free@[i] == f0[i]);
                        }
                    }
                    assert forall|i1: int, i2: int| 0 <= i1 < free.len() && 0 <= i2 < free.len() && i1 != i2 implies free@[i1] != free@[i2] by {
                        let o1 = if i1 == t { f0.len() - 1 } else { i1 };
                        let o2 = if i2 == t { f0.len() - 1 } else { i2 };
                        assert(free@[i1] == f0[o1]);
                        assert(free@[i2] == f0[o2]);
                    }
                    assert forall|i: int| 0 <= i < k + 1 implies !arr@[#[trigger] prot@[i] as int] by {
                        assert(pi[i] == prot@[i]);
                    }
                }
            }
            k = k + 1;
        }
        proof {
            assert forall|a: int, b: int| #[trigger] self.in_clearing(x as int, y as int, a, b) implies !arr@[flat_index(w as int, b, a)] by {
                let i = if a == x && b == y {
                    valid.len() - 1
                } else {
                    choose|i: int| 0 <= i < nb.len() && nb[i] == (a as usize, b as usize)
                };
                assert(valid@[i] == (a as usize, b as usize));
                assert(prot@[i] == flat_index(w as int, valid@[i].1 as int, valid@[i].0 as int));
            }
        }
        let ghost pre = *self;
        self._populate_implant(arr);
        proof {
            assert forall|a: int, b: int| #[trigger] self.in_clearing(x as int, y as int, a, b) implies !self.is_mine(a, b) by {
                assert(pre.in_clearing(x as int, y as int, a, b));
                lemma_flat_index(self.height(), self.width(), b, a);
            }
        }
        Ok(())
    }

    /// A zero cell has no mine among its neighbours.
    proof fn lemma_zero_no_mine_around(&self, p: (int, int), q: (int, int))
        requires
            self.inv(),
            self.in_bounds(p.0, p.1),
            self.cell(p.0, p.1).tile == Tile::Zero,
            adjacent(q, p),
        ensures
            !self.is_mine(q.0, q.1),
    {
        reveal(GameBoard::hint_ok_at);
        assert(self.hint_ok_at(p.0, p.1));
        let m = self.mines_around(p.0, p.1);
        assert(m == 0);
    }

    /// Boards with the same hidden values and flags agree on which sets leave
    /// no zero cell with a closed neighbour.
    proof fn lemma_fill_closed_same(&self, other: &GameBoard, s: Set<(int, int)>)
        requires
            self.same_layout(other),
            self.same_flags(other),
        ensures
            self.fill_closed(s) == other.fill_closed(s),
    {
        if self.fill_closed(s) {
            assert forall|p: (int, int), q: (int, int)|
                #![trigger s.contains(p), adjacent(q, p)]
                s.contains(p) && other.in_bounds(p.0, p.1) && other.cell(p.0, p.1).tile == Tile::Zero
                    && other.in_bounds(q.0, q.1) && adjacent(q, p) && other.cell(q.0, q.1).visible
                    != Visibility::Flagged implies s.contains(q) by {
                assert(self.cell(p.0, p.1).tile == other.cell(p.0, p.1).tile);
                assert(self.cell(q.0, q.1).visible == Visibility::Flagged <==> other.cell(q.0, q.1).visible == Visibility::Flagged);
            }
        }
        if other.fill_closed(s) {
            assert forall|p: (int, int), q: (int, int)|
                #![trigger s.contains(p), adjacent(q, p)]
                s.contains(p) && self.in_bounds(p.0, p.1) && self.cell(p.0, p.1).tile == Tile::Zero
                    && self.in_bounds(q.0, q.1) && adjacent(q, p) && self.cell(q.0, q.1).visible
                    != Visibility::Flagged implies s.contains(q) by {
                assert(self.cell(p.0, p.1).tile == other.cell(p.0, p.1).tile);
                assert(self.cell(q.0, q.1).visible == Visibility::Flagged <==> other.cell(q.0, q.1).visible == Visibility::Flagged);
            }
        }
    }

    /// Sets the visibility of the cell at `(x, y)`; a mine is never opened.
    fn set_visibility(&mut self, x: usize, y: usize, v: Visibility)
        requires
            old(self).inv(),
            old(self).in_bounds(x as int, y as int),
            v == Visibility::Visible ==> !old(self).is_mine(x as int, y as int),
        ensures
            final(self).inv(),
            old(self).with_visibility(final(self), x as int, y as int, v),
            final(self).cells() == old(self).cells().update(
                flat_index(old(self).width(), y as int, x as int),
                BoardTile { tile: old(self).cell(x as int, y as int).tile, visible: v },
            ),
    {
        let t = self.tile_at(x, y);
        let ghost before = *self;
        let c = BoardTile { tile: t.tile, visible: v };
        self.set_cell(x, y, c);
        proof {
            let w = self.width();
            let h = self.height();
            lemma_flat_index(h, w, y as int, x as int);
            assert forall|a: int, b: int| #[trigger] self.is_mine(a, b) == before.is_mine(a, b) by {
                if self.in_bounds(a, b) {
                    assert(self.cell(a, b).tile == before.cell(a, b).tile);
                }
            }
            assert forall|a: int, b: int| self.in_bounds(a, b) implies #[trigger] self.hint_ok_at(a, b) by {
                reveal(GameBoard::hint_ok_at);
                assert(before.hint_ok_at(a, b));
                assert(self.is_mine(a - 1, b - 1) == before.is_mine(a - 1, b - 1));
                assert(self.is_mine(a, b - 1) == before.is_mine(a, b - 1));
                assert(self.is_mine(a + 1, b - 1) == before.is_mine(a + 1, b - 1));
                assert(self.is_mine(a - 1, b) == before.is_mine(a - 1, b));
                assert(self.is_mine(a + 1, b) == before.is_mine(a + 1, b));
                assert(self.is_mine(a - 1, b + 1) == before.is_mine(a - 1, b + 1));
                assert(self.is_mine(a, b + 1) == before.is_mine(a, b + 1));
                assert(self.is_mine(a + 1, b + 1) == before.is_mine(a + 1, b + 1));
            }
            let n = self.cells().len() as int;
            lemma_count_where_ext(self.cells(), |t: BoardTile| t.tile == Tile::Bomb, |j: int| self.cells()[j].tile == Tile::Bomb);
            lemma_count_where_ext(before.cells(), |t: BoardTile| t.tile == Tile::Bomb, |j: int| before.cells()[j].tile == Tile::Bomb);
            lemma_count_ext(n, |j: int| self.cells()[j].tile == Tile::Bomb, |j: int| before.cells()[j].tile == Tile::Bomb);
        }
    }

    /// A board with the same cells and mine count as one in play is in play.
    proof fn lemma_inv_same_board(before: &GameBoard, after: &GameBoard)
        requires
            before.inv(),
            after.board == before.board,
            after.bombs == before.bombs,
        ensures
            after.inv(),
    {
        assert(after.cells() == before.cells());
        assert(after.width() == before.width());
        assert(after.height() == before.height());
        assert forall|a: int, b: int| after.in_bounds(a, b) implies #[trigger] after.hint_ok_at(a, b) by {
            reveal(GameBoard::hint_ok_at);
            assert(before.hint_ok_at(a, b));
            assert(after.cell(a, b) == before.cell(a, b));
            assert(after.mines_around(a, b) == before.mines_around(a, b));
        }
        assert(after.shape_ok());
        assert(after.mines_on_board() == after.bomb_total());
        assert forall|a: int, b: int| after.in_bounds(a, b) && (#[trigger] after.cell(a, b)).visible == Visibility::Visible
            implies after.cell(a, b).tile != Tile::Bomb by {
            assert(after.cell(a, b) == before.cell(a, b));
        }
    }

    /// Closes every listed cell, or, when one is off the board or not open,
    /// fails at the first such cell and changes nothing.
    fn undo_open(&mut self, cells: &Vec<(u16, u16)>) -> (r: Result<(), UndoError>)
        requires
            old(self).inv(),
        ensures
            final(self).inv(),
            old(self).undo_open_error(cells@) is Some ==> r == Err::<(), UndoError>(old(self).undo_open_error(cells@)->Some_0) && *final(self) == *old(self),
            old(self).undo_open_error(cells@) is None ==> r is Ok && old(self).with_closed(final(self), cells@),
    {
        let ghost v = cells@;
        assert(v.skip(0) =~= v);
        let mut i: usize = 0;
        while i < cells.len()
            invariant
                self.inv(),
                *self == *old(self),
                v == cells@,
                i <= cells.len(),
                self.undo_open_error(v) == self.undo_open_error(v.skip(i as int)),
                forall|j: int| 0 <= j < i ==> self.in_bounds((#[trigger] v[j]).0 as int, v[j].1 as int)
                    && self.cell(v[j].0 as int, v[j].1 as int).visible == Visibility::Visible,
            decreases cells.len() - i,
        {
            let (a, b) = cells[i];
            assert(v.skip(i as int).len() > 0);
            assert(v.skip(i as int)[0] == v[i as int]);
            assert(v.skip(i as int)[0] == (a, b));
            if a as usize >= self.board.dimensions().1 || b as usize >= self.board.len() {
                assert(self.undo_open_error(v.skip(i as int)) == Some(UndoError::OutOfBounds));
                assert(self.undo_open_error(v) == Some(UndoError::OutOfBounds));
                return Err(UndoError::OutOfBounds);
            }
            if self.tile_at(a as usize, b as usize).visible != Visibility::Visible {
                assert(self.undo_open_error(v.skip(i as int)) == Some(UndoError::AlreadyClosed));
                return Err(UndoError::AlreadyClosed);
            }
            assert(v.skip(i as int).drop_first() =~= v.skip(i as int + 1));
            i = i + 1;
        }
        let ghost before = *self;
        let mut i: usize = 0;
        while i < cells.len()
            invariant
                self.inv(),
                v == cells@,
                before.inv(),
                i <= cells.len(),
                forall|j: int| 0 <= j < v.len() ==> before.in_bounds((#[trigger] v[j]).0 as int, v[j].1 as int),
                before.with_closed(self, v.take(i as int)),
            decreases cells.len() - i,
        {
            let (a, b) = cells[i];
            let ghost cur = *self;
            self.set_visibility(a as usize, b as usize, Visibility::NotVisible);
            proof {
                let t0 = v.take(i as int);
                let t1 = v.take(i as int + 1);
                assert forall|p: int, q: int| before.in_bounds(p, q) implies (#[trigger] self.cell(p, q)).visible == if listed(t1, (p, q)) {
                    Visibility::NotVisible
                } else {
                    before.cell(p, q).visible
                } by {
                    if listed(t0, (p, q)) {
                        let j = choose|j: int| 0 <= j < t0.len() && (t0[j].0 as int, t0[j].1 as int) == (p, q);
                        assert(t1[j] == t0[j]);
                    }
                    if listed(t1, (p, q)) {
                        let j = choose|j: int| 0 <= j < t1.len() && (t1[j].0 as int, t1[j].1 as int) == (p, q);
                        if j < i {
                            assert(t0[j] == t1[j]);
                        }
                    }
                    if p == a && q == b {
                        assert(t1[i as int] == (a, b));
                    }
                }
            }
            i = i + 1;
        }
        proof {
            assert(v.take(v.len() as int) =~= v);
        }
        Ok(())
    }

    /// How the open and flagged counts move when one cell's visibility changes.
    proof fn lemma_counts_after_set(before: &GameBoard, after: &GameBoard, x: int, y: int, v: Visibility)
        requires
            before.shape_ok(),
            before.in_bounds(x, y),
            after.cells() == before.cells().update(
                flat_index(before.width(), y, x),
                BoardTile { tile: before.cell(x, y).tile, visible: v },
            ),
        ensures
            after.opened_count() + (if before.cell(x, y).visible == Visibility::Visible { 1int } else { 0int })
                == before.opened_count() + (if v == Visibility::Visible { 1int } else { 0int }),
            after.flagged_count() + (if before.cell(x, y).visible == Visibility::Flagged { 1int } else { 0int })
                == before.flagged_count() + (if v == Visibility::Flagged { 1int } else { 0int }),
    {
        let n = before.cells().len() as int;
        let i = flat_index(before.width(), y, x);
        lemma_flat_index(before.height(), before.width(), y, x);
        lemma_count_where_ext(after.cells(), |t: BoardTile| t.visible == Visibility::Visible, |j: int| after.cells()[j].visible == Visibility::Visible);
        lemma_count_where_ext(before.cells(), |t: BoardTile| t.visible == Visibility::Visible, |j: int| before.cells()[j].visible == Visibility::Visible);
        lemma_count_change(n, |j: int| before.cells()[j].visible == Visibility::Visible, |j: int| after.cells()[j].visible == Visibility::Visible, i);
        lemma_count_where_ext(after.cells(), |t: BoardTile| t.visible == Visibility::Flagged, |j: int| after.cells()[j].visible == Visibility::Flagged);
        lemma_count_where_ext(before.cells(), |t: BoardTile| t.visible == Visibility::Flagged, |j: int| before.cells()[j].visible == Visibility::Flagged);
        lemma_count_change(n, |j: int| before.cells()[j].visible == Visibility::Flagged, |j: int| after.cells()[j].visible == Visibility::Flagged, i);
    }

    /// Opens the closed cell at `(x, y)`, which holds no mine.
    fn open_cell(&mut self, x: usize, y: usize)
        requires
            old(self).inv(),
            old(self).in_bounds(x as int, y as int),
            old(self).cell(x as int, y as int).visible == Visibility::NotVisible,
            !old(self).is_mine(x as int, y as int),
        ensures
            final(self).inv(),
            final(self).same_layout(old(self)),
            final(self).same_flags(old(self)),
            final(self).cell(x as int, y as int).visible == Visibility::Visible,
            forall|a: int, b: int|
                old(self).in_bounds(a, b) && !(a == x && b == y) ==> #[trigger] final(self).cell(a, b)
                    == old(self).cell(a, b),
            final(self).open_set() == old(self).open_set().insert((x as int, y as int)),
            final(self).opened_count() == old(self).opened_count() + 1,
            final(self).flagged_count() == old(self).flagged_count(),
    {
        let t = self.tile_at(x, y);
        let ghost before = *self;
        let c = BoardTile { tile: t.tile, visible: Visibility::Visible };
        self.set_cell(x, y, c);
        proof {
            let w = self.width();
            let h = self.height();
            let i = flat_index(w, y as int, x as int);
            lemma_flat_index(h, w, y as int, x as int);
            assert forall|a: int, b: int| #[trigger] self.is_mine(a, b) == before.is_mine(a, b) by {
                if self.in_bounds(a, b) {
                    assert(self.cell(a, b).tile == before.cell(a, b).tile);
                }
            }
            assert forall|a: int, b: int| self.in_bounds(a, b) implies #[trigger] self.hint_ok_at(a, b) by {
                reveal(GameBoard::hint_ok_at);
                assert(before.hint_ok_at(a, b));
                assert(self.is_mine(a - 1, b - 1) == before.is_mine(a - 1, b - 1));
                assert(self.is_mine(a, b - 1) == before.is_mine(a, b - 1));
                assert(self.is_mine(a + 1, b - 1) == before.is_mine(a + 1, b - 1));
                assert(self.is_mine(a - 1, b) == before.is_mine(a - 1, b));
                assert(self.is_mine(a + 1, b) == before.is_mine(a + 1, b));
                assert(self.is_mine(a - 1, b + 1) == before.is_mine(a - 1, b + 1));
                assert(self.is_mine(a, b + 1) == before.is_mine(a, b + 1));
                assert(self.is_mine(a + 1, b + 1) == before.is_mine(a + 1, b + 1));
            }
            let n = self.cells().len() as int;
            lemma_count_where_ext(self.cells(), |t: BoardTile| t.tile == Tile::Bomb, |j: int| self.cells()[j].tile == Tile::Bomb);
            lemma_count_where_ext(before.cells(), |t: BoardTile| t.tile == Tile::Bomb, |j: int| before.cells()[j].tile == Tile::Bomb);
            lemma_count_ext(n, |j: int| self.cells()[j].tile == Tile::Bomb, |j: int| before.cells()[j].tile == Tile::Bomb);
            lemma_count_where_ext(self.cells(), |t: BoardTile| t.visible == Visibility::Visible, |j: int| self.cells()[j].visible == Visibility::Visible);
            lemma_count_where_ext(before.cells(), |t: BoardTile| t.visible == Visibility::Visible, |j: int| before.cells()[j].visible == Visibility::Visible);
            lemma_count_change(n, |j: int| before.cells()[j].visible == Visibility::Visible, |j: int| self.cells()[j].visible == Visibility::Visible, i);
            lemma_count_where_ext(self.cells(), |t: BoardTile| t.visible == Visibility::Flagged, |j: int| self.cells()[j].visible == Visibility::Flagged);
            lemma_count_where_ext(before.cells(), |t: BoardTile| t.visible == Visibility::Flagged, |j: int| before.cells()[j].visible == Visibility::Flagged);
            lemma_count_ext(n, |j: int| self.cells()[j].visible == Visibility::Flagged, |j: int| before.cells()[j].visible == Visibility::Flagged);
            assert(self.open_set() =~= before.open_set().insert((x as int, y as int)));
        }
    }

    /// How far a pass of flood fill has come from the board `st` and the
    /// list `o0` it started with to the board `cur` and the list `o`.
    pub open spec fn pass_progress(
        st: &GameBoard,
        cur: &GameBoard,
        o0: Seq<(u16, u16)>,
        o: Seq<(u16, u16)>,
        count: int,
    ) -> bool {
        &&& cur.inv()
        &&& cur.same_layout(st)
        &&& cur.same_flags(st)
        &&& o.len() == o0.len() + count
        &&& o.subrange(0, o0.len() as int) == o0
        &&& GameBoard::lists_opened(st, cur, o.subrange(o0.len() as int, o.len() as int))
        &&& cur.opened_count() == st.opened_count() + count
        &&& (count == 0 ==> cur.cells() == st.cells())
        &&& forall|s: Set<(int, int)>|
            #[trigger] st.fill_closed(s) && st.open_set().subset_of(s) ==> cur.open_set().subset_of(s)
    }

    /// Opening one more cell next to an open zero keeps the progress of a pass.
    proof fn lemma_pass_step(
        st: &GameBoard,
        cur: &GameBoard,
        next: &GameBoard,
        o0: Seq<(u16, u16)>,
        o: Seq<(u16, u16)>,
        count: int,
        p: (int, int),
        q: (int, int),
    )
        requires
            GameBoard::pass_progress(st, cur, o0, o, count),
            cur.open_set().contains(p),
            cur.cell(p.0, p.1).tile == Tile::Zero,
            adjacent(q, p),
            cur.in_bounds(q.0, q.1),
            cur.cell(q.0, q.1).visible == Visibility::NotVisible,
            next.inv(),
            next.same_layout(cur),
            next.same_flags(cur),
            next.open_set() == cur.open_set().insert(q),
            next.opened_count() == cur.opened_count() + 1,
            count >= 0,
            0 <= q.0 < 65536,
            0 <= q.1 < 65536,
        ensures
            GameBoard::pass_progress(st, next, o0, o.push((q.0 as u16, q.1 as u16)), count + 1),
    {
        let o2 = o.push((q.0 as u16, q.1 as u16));
        let tail = o.subrange(o0.len() as int, o.len() as int);
        let tail2 = o2.subrange(o0.len() as int, o2.len() as int);
        assert(tail2 =~= tail.push((q.0 as u16, q.1 as u16)));
        assert(o2.subrange(0, o0.len() as int) =~= o0);
        assert(!cur.open_set().contains(q));
        assert forall|a: (int, int)| #[trigger] listed(tail2, a) ==> !st.open_set().contains(a) by {
            if listed(tail2, a) {
                let i = choose|i: int| 0 <= i < tail2.len() && (tail2[i].0 as int, tail2[i].1 as int) == a;
                if i < tail.len() {
                    assert(listed(tail, a));
                }
            }
        }
        assert forall|a: (int, int)| #[trigger] next.open_set().contains(a) <==> st.open_set().contains(a) || listed(tail2, a) by {
            if listed(tail, a) {
                let i = choose|i: int| 0 <= i < tail.len() && (tail[i].0 as int, tail[i].1 as int) == a;
                assert(tail2[i] == tail[i]);
            }
            if listed(tail2, a) {
                let i = choose|i: int| 0 <= i < tail2.len() && (tail2[i].0 as int, tail2[i].1 as int) == a;
                if i < tail.len() {
                    assert(listed(tail, a));
                }
            }
            if a == q {
                assert(tail2[tail.len() as int] == (q.0 as u16, q.1 as u16));
            }
        }
        assert forall|i: int, j: int| 0 <= i < tail2.len() && 0 <= j < tail2.len() && i != j implies tail2[i] != tail2[j] by {
            if i == tail.len() && j < tail.len() {
                assert(listed(tail, (tail[j].0 as int, tail[j].1 as int)));
            }
            if j == tail.len() && i < tail.len() {
                assert(listed(tail, (tail[i].0 as int, tail[i].1 as int)));
            }
        }
        assert forall|s: Set<(int, int)>| #[trigger] st.fill_closed(s) && st.open_set().subset_of(s) implies next.open_set().subset_of(s) by {
            assert(cur.open_set().subset_of(s));
            cur.lemma_fill_closed_same(st, s);
            assert(s.contains(p));
            assert(cur.cell(q.0, q.1).visible != Visibility::Flagged);
            assert(s.contains(q));
        }
    }

    /// One pass of flood fill: every closed neighbour of an open zero cell is
    /// opened, row after row, and appended to `opened`. Returns how many were opened.
    fn inner_open_visible(&mut self, opened: &mut Vec<(u16, u16)>) -> (r: usize)
        requires
            old(self).inv(),
        ensures
            GameBoard::pass_progress(old(self), final(self), old(opened)@, final(opened)@, r as int),
            r == 0 ==> old(self).fill_closed(old(self).open_set()),
    {
        let w = self.board.dimensions().1;
        let h = self.board.len();
        let ghost st = *self;
        let ghost o0 = opened@;
        let mut count: usize = 0;
        proof {
            assert(opened@.subrange(0, o0.len() as int) =~= o0);
            assert(opened@.subrange(o0.len() as int, opened@.len() as int) =~= Seq::<(u16, u16)>::empty());
        }
        let mut y: usize = 0;
        while y < h
            invariant
                w == st.width(),
                h == st.height(),
                y <= h,
                GameBoard::pass_progress(&st, self, o0, opened@, count as int),
                count <= self.opened_count(),
                forall|a: int, b: int, qa: int, qb: int|
                    #![trigger st.cell(a, b), self.cell(qa, qb)]
                    st.in_bounds(a, b) && b < y && st.cell(a, b).visible == Visibility::Visible
                        && st.cell(a, b).tile == Tile::Zero && st.in_bounds(qa, qb) && adjacent((qa, qb), (a, b))
                        ==> self.cell(qa, qb).visible != Visibility::NotVisible,
            decreases h - y,
        {
            let mut x: usize = 0;
            while x < w
                invariant
                    w == st.width(),
                    h == st.height(),
                    y < h,
                    x <= w,
                    GameBoard::pass_progress(&st, self, o0, opened@, count as int),
                    count <= self.opened_count(),
                    forall|a: int, b: int, qa: int, qb: int|
                        #![trigger st.cell(a, b), self.cell(qa, qb)]
                        st.in_bounds(a, b) && (b < y || (b == y && a < x)) && st.cell(a, b).visible == Visibility::Visible
                            && st.cell(a, b).tile == Tile::Zero && st.in_bounds(qa, qb) && adjacent((qa, qb), (a, b))
                            ==> self.cell(qa, qb).visible != Visibility::NotVisible,
                decreases w - x,
            {
                let t = self.tile_at(x, y);
                if t.visible == Visibility::Visible && t.tile == Tile::Zero {
                    let nb = self.normalize_around_3x3(x as u16, y as u16);
                    let mut k: usize = 0;
                    while k < nb.len()
                        invariant
                            w == st.width(),
                            h == st.height(),
                            y < h,
                            x < w,
                            k <= nb.len(),
                            GameBoard::pass_progress(&st, self, o0, opened@, count as int),
                            count <= self.opened_count(),
                            self.cell(x as int, y as int).visible == Visibility::Visible,
                            self.cell(x as int, y as int).tile == Tile::Zero,
                            forall|i: int|
                                0 <= i < nb.len() ==> self.in_bounds((#[trigger] nb@[i]).0 as int, nb@[i].1 as int)
                                    && adjacent((nb@[i].0 as int, nb@[i].1 as int), (x as int, y as int)),
                            forall|a: int, b: int|
                                self.in_bounds(a, b) && #[trigger] adjacent((a, b), (x as int, y as int))
                                    ==> exists|i: int| 0 <= i < nb.len() && nb@[i] == (a as usize, b as usize),
                            forall|i: int| 0 <= i < k ==> self.cell((#[trigger] nb@[i]).0 as int, nb@[i].1 as int).visible != Visibility::NotVisible,
                            forall|a: int, b: int, qa: int, qb: int|
                                #![trigger st.cell(a, b), self.cell(qa, qb)]
                                st.in_bounds(a, b) && (b < y || (b == y && a < x)) && st.cell(a, b).visible == Visibility::Visible
                                    && st.cell(a, b).tile == Tile::Zero && st.in_bounds(qa, qb) && adjacent((qa, qb), (a, b))
                                    ==> self.cell(qa, qb).visible != Visibility::NotVisible,
                        decreases nb.len() - k,
                    {
                        let (a, b) = nb[k];
                        let c = self.tile_at(a, b);
                        if c.visible == Visibility::NotVisible {
                            let ghost cur = *self;
                            let ghost ocur = opened@;
                            proof {
                                self.lemma_zero_no_mine_around((x as int, y as int), (a as int, b as int));
                            }
                            self.open_cell(a, b);
                            opened.push((a as u16, b as u16));
                            proof {
                                GameBoard::lemma_count_le_cells(self);
                                GameBoard::lemma_pass_step(&st, &cur, self, o0, ocur, count as int, (x as int, y as int), (a as int, b as int));
                            }
                            count = count + 1;
                        }
                        k = k + 1;
                    }
                    proof {
                        assert forall|qa: int, qb: int| st.in_bounds(qa, qb) && adjacent((qa, qb), (x as int, y as int))
                            implies #[trigger] self.cell(qa, qb).visible != Visibility::NotVisible by {
                            let i = choose|i: int| 0 <= i < nb.len() && nb@[i] == (qa as usize, qb as usize);
                            assert(self.cell((nb@[i]).0 as int, nb@[i].1 as int).visible != Visibility::NotVisible);
                        }
                    }
                } else {
                    proof {
                        if st.cell(x as int, y as int).visible == Visibility::Visible {
                            assert(st.open_set().contains((x as int, y as int)));
                            assert(self.open_set().contains((x as int, y as int)));
                        }
                    }
                }
                x = x + 1;
            }
            y = y + 1;
        }
        proof {
            if count == 0 {
                assert forall|p: (int, int), q: (int, int)|
                    #![trigger st.open_set().contains(p), adjacent(q, p)]
                    st.open_set().contains(p) && st.in_bounds(p.0, p.1) && st.cell(p.0, p.1).tile == Tile::Zero
                        && st.in_bounds(q.0, q.1) && adjacent(q, p) && st.cell(q.0, q.1).visible
                        != Visibility::Flagged implies st.open_set().contains(q) by {
                    assert(self.cell(q.0, q.1).visible != Visibility::NotVisible);
                }
            }
        }
        count
    }

    /// The open cells are at most all cells, which are at most a hundred million.
    proof fn lemma_count_le_cells(b: &GameBoard)
        requires
            b.shape_ok(),
        ensures
            b.opened_count() <= b.cells().len() <= 100000000,
    {
        let w = b.width();
        let h = b.height();
        assert(h * w <= 100000000) by (nonlinear_arith)
            requires
                1 <= w <= 10000,
                1 <= h <= 10000,
        ;
        lemma_count_bound(b.cells().len() as int, |j: int| (|t: BoardTile| t.visible == Visibility::Visible)(b.cells()[j]));
    }

    /// Two passes of flood fill in a row make one.
    proof fn lemma_pass_compose(
        st: &GameBoard,
        mid: &GameBoard,
        end: &GameBoard,
        o0: Seq<(u16, u16)>,
        o1: Seq<(u16, u16)>,
        o2: Seq<(u16, u16)>,
        c1: int,
        c2: int,
    )
        requires
            GameBoard::pass_progress(st, mid, o0, o1, c1),
            GameBoard::pass_progress(mid, end, o1, o2, c2),
            c1 >= 0,
            c2 >= 0,
        ensures
            GameBoard::pass_progress(st, end, o0, o2, c1 + c2),
    {
        let t1 = o1.subrange(o0.len() as int, o1.len() as int);
        let t2 = o2.subrange(o1.len() as int, o2.len() as int);
        let t = o2.subrange(o0.len() as int, o2.len() as int);
        assert(o2.subrange(0, o0.len() as int) =~= o0) by {
            assert(o2.subrange(0, o1.len() as int) == o1);
            assert forall|i: int| 0 <= i < o0.len() implies o2.subrange(0, o0.len() as int)[i] == o0[i] by {
                assert(o2[i] == o1[i]);
                assert(o1[i] == o0[i]);
            }
        }
        assert(t =~= t1 + t2) by {
            assert(o2.subrange(0, o1.len() as int) == o1);
            assert forall|i: int| 0 <= i < t.len() implies t[i] == (t1 + t2)[i] by {
                if i < t1.len() {
                    assert(o2[o0.len() + i] == o1[o0.len() + i]);
                }
            }
        }
        assert forall|p: (int, int)| #[trigger] listed(t, p) <==> listed(t1, p) || listed(t2, p) by {
            if listed(t, p) {
                let i = choose|i: int| 0 <= i < t.len() && (t[i].0 as int, t[i].1 as int) == p;
                if i < t1.len() {
                    assert(t1[i] == t[i]);
                } else {
                    assert(t2[i - t1.len()] == t[i]);
                }
            }
            if listed(t1, p) {
                let i = choose|i: int| 0 <= i < t1.len() && (t1[i].0 as int, t1[i].1 as int) == p;
                assert(t[i] == t1[i]);
            }
            if listed(t2, p) {
                let i = choose|i: int| 0 <= i < t2.len() && (t2[i].0 as int, t2[i].1 as int) == p;
                assert(t[t1.len() + i] == t2[i]);
            }
        }
        assert forall|i: int, j: int| 0 <= i < t.len() && 0 <= j < t.len() && i != j implies t[i] != t[j] by {
            if i < t1.len() && j >= t1.len() {
                assert(listed(t1, (t[i].0 as int, t[i].1 as int)));
                assert(listed(t2, (t[j].0 as int, t[j].1 as int)));
            }
            if j < t1.len() && i >= t1.len() {
                assert(listed(t1, (t[j].0 as int, t[j].1 as int)));
                assert(listed(t2, (t[i].0 as int, t[i].1 as int)));
            }
        }
        assert forall|x: int, y: int| end.in_bounds(x, y) implies (#[trigger] end.cell(x, y)).tile == st.cell(x, y).tile by {
            assert(mid.cell(x, y).tile == st.cell(x, y).tile);
        }
        assert forall|x: int, y: int| end.in_bounds(x, y) implies ((#[trigger] end.cell(x, y)).visible == Visibility::Flagged
            <==> st.cell(x, y).visible == Visibility::Flagged) by {
            assert(mid.cell(x, y).visible == Visibility::Flagged <==> st.cell(x, y).visible == Visibility::Flagged);
        }
        assert forall|s: Set<(int, int)>| #[trigger] st.fill_closed(s) && st.open_set().subset_of(s) implies end.open_set().subset_of(s) by {
            assert(mid.open_set().subset_of(s));
            mid.lemma_fill_closed_same(st, s);
        }
    }

    /// Opens every closed neighbour of an open zero cell, again and again,
    /// until nothing more opens, and returns the cells it opened. What it
    /// opens is exactly the connected zero regions that touch the open cells
    /// and their borders: flood fill, done by repeated passes over the board.
    pub fn open_visible(&mut self) -> (r: Vec<(u16, u16)>)
        requires
            old(self).inv(),
        ensures
            final(self).inv(),
            final(self).same_layout(old(self)),
            final(self).same_flags(old(self)),
            old(self).fill_of(old(self).open_set(), final(self).open_set()),
            GameBoard::lists_opened(old(self), final(self), r@),
            final(self).opened_count() == old(self).opened_count() + r.len(),
    {
        let ghost base = *self;
        let mut out: Vec<(u16, u16)> = Vec::new();
        let mut per_iter = self.inner_open_visible(&mut out);
        proof {
            GameBoard::lemma_count_le_cells(self);
        }
        while per_iter != 0
            invariant
                GameBoard::pass_progress(&base, self, Seq::empty(), out@, out.len() as int),
                per_iter == 0 ==> self.fill_closed(self.open_set()),
                self.opened_count() <= self.cells().len(),
            decreases self.cells().len() - self.opened_count() + if per_iter == 0 { 0int } else { 1int },
        {
            let ghost mid = *self;
            let ghost o1 = out@;
            per_iter = self.inner_open_visible(&mut out);
            proof {
                GameBoard::lemma_pass_compose(&base, &mid, self, Seq::empty(), o1, out@, o1.len() as int, per_iter as int);
                GameBoard::lemma_count_le_cells(self);
                if per_iter == 0 {
                    assert(self.open_set() =~= mid.open_set());
                    mid.lemma_fill_closed_same(self, mid.open_set());
                }
            }
        }
        proof {
            self.lemma_fill_closed_same(&base, self.open_set());
            assert(out@.subrange(0, out@.len() as int) =~= out@);
        }
        out
    }

    /// What a player sees changes exactly on the listed cells, from closed to open.
    proof fn lemma_opened_view(before: &GameBoard, after: &GameBoard, v: Seq<(u16, u16)>)
        requires
            after.same_layout(before),
            after.same_flags(before),
            GameBoard::lists_opened(before, after, v),
        ensures
            forall|a: int, b: int|
                #[trigger] listed(v, (a, b)) ==> before.spec_tile(a, b) == Some(VisibleTile::NotVisible)
                    && after.spec_tile(a, b) matches Some(VisibleTile::Visible(_)),
            forall|a: int, b: int|
                #[trigger] after.spec_tile(a, b) != before.spec_tile(a, b) ==> listed(v, (a, b)),
    {
        assert forall|a: int, b: int| #[trigger] listed(v, (a, b)) implies before.spec_tile(a, b) == Some(VisibleTile::NotVisible)
            && after.spec_tile(a, b) matches Some(VisibleTile::Visible(_)) by {
            assert(after.open_set().contains((a, b)));
            assert(!before.open_set().contains((a, b)));
            assert(after.cell(a, b).visible == Visibility::Flagged <==> before.cell(a, b).visible == Visibility::Flagged);
        }
        assert forall|a: int, b: int| #[trigger] after.spec_tile(a, b) != before.spec_tile(a, b) implies listed(v, (a, b)) by {
            if !listed(v, (a, b)) && before.in_bounds(a, b) {
                assert(after.open_set().contains((a, b)) == before.open_set().contains((a, b)));
                assert(after.cell(a, b).visible == Visibility::Flagged <==> before.cell(a, b).visible == Visibility::Flagged);
                assert(after.cell(a, b).tile == before.cell(a, b).tile);
                assert(after.cell(a, b) == before.cell(a, b));
            }
        }
    }

    /// A fresh board with a mine-free clearing around `(cx, cy)` accepts an
    /// open, a chorded open and a flag there.
    proof fn lemma_fresh_clearing(b: &GameBoard, cx: int, cy: int)
        requires
            b.inv(),
            b.all_closed(),
            !b.is_over(),
            b.in_bounds(cx, cy),
            forall|a: int, c: int| #[trigger] b.in_clearing(cx, cy, a, c) ==> !b.is_mine(a, c),
        ensures
            b.open_tile_error(cx, cy) is None,
            b.open_around_error(cx, cy) is None,
            b.flag_tile_error(cx, cy) is None,
    {
        reveal(GameBoard::hint_ok_at);
        assert(b.hint_ok_at(cx, cy));
        assert(b.in_clearing(cx, cy, cx, cy));
        assert forall|a: int, c: int| -1 <= a - cx <= 1 && -1 <= c - cy <= 1 implies b.mine_ind(a, c) == 0
            && b.flag_ind(a, c) == 0 by {
            if b.in_bounds(a, c) {
                assert(b.in_clearing(cx, cy, a, c));
                assert(b.cell(a, c).visible == Visibility::NotVisible);
            }
        }
        assert(b.mines_around(cx, cy) == 0);
        assert(b.flags_around(cx, cy) == 0);
        assert forall|q: (int, int)| #[trigger] b.chord_set(cx, cy).contains(q) implies !b.is_mine(q.0, q.1) by {
            assert(b.in_clearing(cx, cy, q.0, q.1));
        }
    }

    /// Extending a list of opened cells by one more opened cell.
    proof fn lemma_list_extend(
        before: &GameBoard,
        cur: &GameBoard,
        next: &GameBoard,
        v: Seq<(u16, u16)>,
        q: (int, int),
    )
        requires
            GameBoard::lists_opened(before, cur, v),
            before.open_set().subset_of(cur.open_set()),
            !cur.open_set().contains(q),
            next.open_set() == cur.open_set().insert(q),
            0 <= q.0 < 65536,
            0 <= q.1 < 65536,
        ensures
            GameBoard::lists_opened(before, next, v.push((q.0 as u16, q.1 as u16))),
    {
        let v2 = v.push((q.0 as u16, q.1 as u16));
        assert forall|a: (int, int)| #[trigger] listed(v2, a) ==> !before.open_set().contains(a) by {
            if listed(v2, a) {
                let i = choose|i: int| 0 <= i < v2.len() && (v2[i].0 as int, v2[i].1 as int) == a;
                if i < v.len() {
                    assert(listed(v, a));
                }
            }
        }
        assert forall|a: (int, int)| #[trigger] next.open_set().contains(a) <==> before.open_set().contains(a) || listed(v2, a) by {
            if listed(v, a) {
                let i = choose|i: int| 0 <= i < v.len() && (v[i].0 as int, v[i].1 as int) == a;
                assert(v2[i] == v[i]);
            }
            if listed(v2, a) {
                let i = choose|i: int| 0 <= i < v2.len() && (v2[i].0 as int, v2[i].1 as int) == a;
                if i < v.len() {
                    assert(listed(v, a));
                }
            }
            if a == q {
                assert(v2[v.len() as int] == (q.0 as u16, q.1 as u16));
            }
        }
        assert forall|i: int, j: int| 0 <= i < v2.len() && 0 <= j < v2.len() && i != j implies v2[i] != v2[j] by {
            if i == v.len() && j < v.len() {
                assert(listed(v, (v[j].0 as int, v[j].1 as int)));
            }
            if j == v.len() && i < v.len() {
                assert(listed(v, (v[i].0 as int, v[i].1 as int)));
            }
        }
    }

    /// Two lists of opened cells, one after the other.
    proof fn lemma_list_concat(
        a: &GameBoard,
        b: &GameBoard,
        c: &GameBoard,
        v1: Seq<(u16, u16)>,
        v2: Seq<(u16, u16)>,
    )
        requires
            GameBoard::lists_opened(a, b, v1),
            GameBoard::lists_opened(b, c, v2),
        ensures
            GameBoard::lists_opened(a, c, v1 + v2),
    {
        let t = v1 + v2;
        assert forall|p: (int, int)| #[trigger] listed(t, p) <==> listed(v1, p) || listed(v2, p) by {
            if listed(t, p) {
                let i = choose|i: int| 0 <= i < t.len() && (t[i].0 as int, t[i].1 as int) == p;
                if i < v1.len() {
                    assert(v1[i] == t[i]);
                } else {
                    assert(v2[i - v1.len()] == t[i]);
                }
            }
            if listed(v1, p) {
                let i = choose|i: int| 0 <= i < v1.len() && (v1[i].0 as int, v1[i].1 as int) == p;
                assert(t[i] == v1[i]);
            }
            if listed(v2, p) {
                let i = choose|i: int| 0 <= i < v2.len() && (v2[i].0 as int, v2[i].1 as int) == p;
                assert(t[v1.len() + i] == v2[i]);
            }
        }
        assert forall|i: int, j: int| 0 <= i < t.len() && 0 <= j < t.len() && i != j implies t[i] != t[j] by {
            if i < v1.len() && j >= v1.len() {
                assert(t[i] == v1[i]);
                assert(t[j] == v2[j - v1.len()]);
                assert(listed(v1, (t[i].0 as int, t[i].1 as int)));
                assert(listed(v2, (t[j].0 as int, t[j].1 as int)));
            }
            if j < v1.len() && i >= v1.len() {
                assert(t[j] == v1[j]);
                assert(t[i] == v2[i - v1.len()]);
                assert(listed(v1, (t[j].0 as int, t[j].1 as int)));
                assert(listed(v2, (t[i].0 as int, t[i].1 as int)));
            }
            if i < v1.len() && j < v1.len() {
                assert(t[i] == v1[i] && t[j] == v1[j]);
            }
            if i >= v1.len() && j >= v1.len() {
                assert(t[i] == v2[i - v1.len()] && t[j] == v2[j - v1.len()]);
            }
        }
    }

    /// Checks that a configuration is within the limits: neither side over
    /// ten thousand, at most a hundred million mines, no more mines than cells,
    /// no zero side, a clearing on the board, and, when a clearing is asked
    /// for, room without a mine for every cell of it: the 3 by 3 block around
    /// the given point clipped at the edges, or nine cells when no point is
    /// given yet. Creating a board from a
    /// configuration that passes cannot fail.
    pub fn validate_board(
        x: u16,
        y: u16,
        bombs: u32,
        has_clearing: bool,
        clearing_coordinates: Option<(u16, u16)>,
    ) -> (r: Result<(), NewBoardError>)
        ensures
            r == config_check(x, y, bombs, has_clearing, clearing_coordinates),
    {
        Self::validate_size_constraints(x, y, bombs)?;
        let area: u32 = widening_mul(x, y);
        if area < bombs {
            return Err(NewBoardError::BombOverflow);
        }
        if x == 0 || y == 0 {
            return Err(NewBoardError::ZeroDimension);
        }
        if let Some((clearx, cleary)) = clearing_coordinates {
            if !((clearx < x) && (cleary < y)) {
                return Err(NewBoardError::SizeConstraintOverflow);
            }
        }
        if has_clearing {
            let room = match clearing_coordinates {
                Some((clearx, cleary)) => clearing_cells(x, y, clearx, cleary),
                None => CLEARING_SIZE,
            };
            if area - bombs < room {
                return Err(NewBoardError::BombOverflow);
            }
        }
        Ok(())
    }

    /// Refuses a side over ten thousand or more than a hundred million mines.
    fn validate_size_constraints(x: u16, y: u16, bombs: u32) -> (r: Result<(), NewBoardError>)
        ensures
            r is Err <==> (x > MAX_SIDE || y > MAX_SIDE || bombs > MAX_BOMBS),
            r is Err ==> r == Err::<(), NewBoardError>(NewBoardError::SizeConstraintOverflow),
    {
        if x > MAX_SIDE || y > MAX_SIDE || bombs > MAX_BOMBS {
            Err(NewBoardError::SizeConstraintOverflow)
        } else {
            Ok(())
        }
    }

    /// A board of `x` columns and `y` rows, every cell a closed zero.
    fn blank_board(x: u16, y: u16, bombs: u32) -> (r: Self)
        requires
            config_check(x, y, bombs, false, None) is Ok,
        ensures
            r.shape_ok(),
            r.width() == x,
            r.height() == y,
            r.bomb_total() == bombs,
            !r.is_over(),
            forall|i: int|
                0 <= i < r.cells().len() ==> #[trigger] r.cells()[i] == (BoardTile {
                    tile: Tile::Zero,
                    visible: Visibility::NotVisible,
                }),
    {
        assert(y as int * x as int <= 100000000) by (nonlinear_arith)
            requires
                x <= 10000,
                y <= 10000,
        ;
        GameBoard {
            bombs,
            board: FlatBoard::new(
                y as usize,
                x as usize,
                BoardTile { tile: Tile::Zero, visible: Visibility::NotVisible },
            ),
            over: false,
        }
    }
}

impl GameBoard {
    /// A board of `x` columns, `y` rows and `bombs` mines placed uniformly at
    /// random. Fails exactly when the configuration does not pass `validate_board`.
    pub fn new(x: u16, y: u16, bombs: u32) -> (r: Result<Self, NewBoardError>)
        ensures
            r is Err <==> config_check(x, y, bombs, false, None) is Err,
            r is Err ==> r->Err_0 == config_check(x, y, bombs, false, None)->Err_0,
            r matches Ok(b) ==> b.inv() && b.all_closed() && !b.is_over() && b.width() == x
                && b.height() == y && b.bomb_total() == bombs,
    {
        Self::validate_board(x, y, bombs, false, None)?;
        let mut gb = Self::blank_board(x, y, bombs);
        gb.populate();
        Ok(gb)
    }

    /// The error of a chorded open at `(x, y)` that comes before any neighbour is looked at.
    fn chord_precheck(&self, x: u16, y: u16) -> (r: Result<(), UnopenableError>)
        requires
            self.inv(),
        ensures
            r is Err ==> self.open_around_error(x as int, y as int) is Some && r == Err::<(), UnopenableError>(self.open_around_error(x as int, y as int)->Some_0),
            r is Ok ==> self.in_bounds(x as int, y as int) && !self.is_over() && self.cell(x as int, y as int).tile != Tile::Bomb
                && self.flags_around(x as int, y as int) == tile_count(self.cell(x as int, y as int).tile)->Some_0 as int,
    {
        if x as usize >= self.board.dimensions().1 || y as usize >= self.board.len() {
            return Err(UnopenableError::OutOfBounds);
        }
        if self.over {
            return Err(UnopenableError::GameOver);
        }
        let t = self.tile_at(x as usize, y as usize);
        let c = match t.tile.as_count() {
            None => {
                return Err(UnopenableError::BombHit);
            },
            Some(c) => c,
        };
        let flags = self.count_around(x as usize, y as usize, false);
        if flags != c {
            return Err(UnopenableError::FlagCountMismatch);
        }
        Ok(())
    }
}

impl BaseGameBoard for GameBoard {
    open spec fn spec_inv(&self) -> bool {
        self.inv()
    }

    open spec fn spec_width(&self) -> nat {
        self.width() as nat
    }

    open spec fn spec_height(&self) -> nat {
        self.height() as nat
    }

    open spec fn spec_bombs(&self) -> nat {
        self.bomb_total()
    }

    open spec fn spec_tile(&self, x: int, y: int) -> Option<VisibleTile> {
        if self.in_bounds(x, y) {
            Some(self.visible_at(x, y))
        } else {
            None
        }
    }

    open spec fn spec_opened(&self) -> nat {
        self.opened_count()
    }

    open spec fn spec_flagged(&self) -> nat {
        self.flagged_count()
    }

    open spec fn spec_open_error(&self, x: int, y: int) -> Option<UnopenableError> {
        self.open_tile_error(x, y)
    }

    open spec fn spec_chord_error(&self, x: int, y: int) -> Option<UnopenableError> {
        self.open_around_error(x, y)
    }

    open spec fn spec_flag_error(&self, x: int, y: int) -> Option<UnopenableError> {
        self.flag_tile_error(x, y)
    }

    open spec fn spec_undo_error(&self, e: GameBoardEvent) -> Option<UndoError> {
        match e {
            GameBoardEvent::ToggleFlagCell(x, y) => if !self.in_bounds(x as int, y as int) {
                Some(UndoError::OutOfBounds)
            } else if self.cell(x as int, y as int).visible == Visibility::Visible {
                Some(UndoError::AlreadyOpen)
            } else {
                None
            },
            GameBoardEvent::OpenCell(v) => self.undo_open_error(v@),
        }
    }

    open spec fn spec_opens_clearing() -> bool {
        false
    }

    proof fn lemma_counts(&self) {
        lemma_tiles_left(self);
        let n = self.cells().len() as int;
        let ff = |j: int| self.cells()[j].visible == Visibility::Flagged;
        lemma_count_where_ext(self.cells(), |t: BoardTile| t.visible == Visibility::Flagged, ff);
        lemma_count_bound(n, ff);
        assert(self.height() * self.width() == self.width() * self.height()) by (nonlinear_arith);
        assert(self.flagged_count() <= n);
        assert((self.width() as nat) * (self.height() as nat) == self.width() * self.height());
        assert(self.spec_flagged() == self.flagged_count());
        assert(self.spec_width() == self.width());
        assert(self.spec_height() == self.height());
    }

    fn dimensions(&self) -> (r: (u16, u16)) {
        (self.board.dimensions().1 as u16, self.board.len() as u16)
    }

    fn bomb_count(&self) -> (r: u32) {
        self.bombs
    }

    fn opened(&self) -> (r: u32) {
        let cells = self.board.iter_backing();
        let mut count: u32 = 0;
        let mut i: usize = 0;
        proof {
            GameBoard::lemma_count_le_cells(self);
        }
        while i < cells.len()
            invariant
                cells@ == self.cells(),
                self.cells().len() <= 100000000,
                i <= cells@.len(),
                count == count_idx(i as int, |j: int| self.cells()[j].visible == Visibility::Visible),
                count <= i,
            decreases cells.len() - i,
        {
            if cells[i].visible == Visibility::Visible {
                count = count + 1;
            }
            i = i + 1;
        }
        proof {
            lemma_count_where_ext(self.cells(), |t: BoardTile| t.visible == Visibility::Visible, |j: int| self.cells()[j].visible == Visibility::Visible);
        }
        count
    }

    fn flagged(&self) -> (r: u32) {
        let cells = self.board.iter_backing();
        let mut count: u32 = 0;
        let mut i: usize = 0;
        proof {
            GameBoard::lemma_count_le_cells(self);
        }
        while i < cells.len()
            invariant
                cells@ == self.cells(),
                self.cells().len() <= 100000000,
                i <= cells@.len(),
                count == count_idx(i as int, |j: int| self.cells()[j].visible == Visibility::Flagged),
                count <= i,
            decreases cells.len() - i,
        {
            if cells[i].visible == Visibility::Flagged {
                count = count + 1;
            }
            i = i + 1;
        }
        proof {
            lemma_count_where_ext(self.cells(), |t: BoardTile| t.visible == Visibility::Flagged, |j: int| self.cells()[j].visible == Visibility::Flagged);
        }
        count
    }

    /// The mines avoid the clearing: the cell `(clear_x, clear_y)` and its
    /// neighbours; the mine count is as asked, every cell is closed.
    fn with_clearing(x: u16, y: u16, bombs: u32, clear_x: u16, clear_y: u16) -> (r: Result<
        Self,
        NewBoardError,
    >)
        ensures
            r matches Ok(b) ==> b.inv() && b.all_closed() && !b.is_over() && b.width() == x
                && b.height() == y && b.bomb_total() == bombs && b.mines_on_board() == bombs,
            r matches Ok(b) ==> forall|a: int, c: int|
                #[trigger] b.in_clearing(clear_x as int, clear_y as int, a, c) ==> !b.is_mine(a, c),
    {
        Self::validate_board(x, y, bombs, true, Some((clear_x, clear_y)))?;
        let mut gb = Self::blank_board(x, y, bombs);
        proof {
            lemma_clearing_size(x as int, y as int, clear_x as int, clear_y as int);
            assert(y as int * x as int == x as int * y as int) by (nonlinear_arith);
        }
        let res = gb.populate_without(clear_x, clear_y);
        match res {
            Ok(()) => {
                proof {
                    GameBoard::lemma_fresh_clearing(&gb, clear_x as int, clear_y as int);
                    assert forall|a: int, b: int| #[trigger] gb.spec_tile(a, b) == if 0 <= a < x && 0 <= b < y {
                        Some(VisibleTile::NotVisible)
                    } else {
                        None
                    } by {
                    }
                }
                Ok(gb)
            },
            Err(e) => Err(e),
        }
    }

    fn open_tile(&mut self, x: u16, y: u16) -> (r: Result<GameBoardEvent, UnopenableError>)
        ensures
            old(self).open_tile_error(x as int, y as int) is Some ==> r == Err::<GameBoardEvent, UnopenableError>(
                old(self).open_tile_error(x as int, y as int)->Some_0,
            ) && *final(self) == *old(self),
            old(self).open_tile_error(x as int, y as int) is None ==> r is Ok && r->Ok_0 is OpenCell
                && final(self).same_layout(old(self)) && final(self).same_flags(old(self))
                && old(self).fill_of(old(self).open_set().insert((x as int, y as int)), final(self).open_set())
                && GameBoard::lists_opened(old(self), final(self), opened_cells(r->Ok_0)),
    {
        if x as usize >= self.board.dimensions().1 || y as usize >= self.board.len() {
            return Err(UnopenableError::OutOfBounds);
        }
        if self.over {
            return Err(UnopenableError::GameOver);
        }
        let t = self.tile_at(x as usize, y as usize);
        match t.visible {
            Visibility::Visible => {
                return Err(UnopenableError::AlreadyOpen);
            },
            Visibility::Flagged => {
                return Err(UnopenableError::FlaggedTile);
            },
            Visibility::NotVisible => {},
        }
        if t.tile.is_bomb() {
            return Err(UnopenableError::BombHit);
        }
        let ghost before = *self;
        self.open_cell(x as usize, y as usize);
        let ghost mid = *self;
        let mut opened: Vec<(u16, u16)> = Vec::new();
        opened.push((x, y));
        proof {
            GameBoard::lemma_list_extend(&before, &before, &mid, Seq::empty(), (x as int, y as int));
            assert(Seq::<(u16, u16)>::empty().push((x, y)) == opened@);
        }
        let ghost o1 = opened@;
        let mut more = self.open_visible();
        let ghost o2 = more@;
        opened.append(&mut more);
        proof {
            GameBoard::lemma_list_concat(&before, &mid, self, o1, o2);
            assert forall|s: Set<(int, int)>| #[trigger] before.fill_closed(s) == mid.fill_closed(s) by {
                before.lemma_fill_closed_same(&mid, s);
            }
            assert(mid.open_set() == before.open_set().insert((x as int, y as int)));
            GameBoard::lemma_opened_view(&before, self, opened@);
            assert(self.open_set().contains((x as int, y as int)));
        }
        Ok(GameBoardEvent::OpenCell(opened))
    }

    fn open_around(&mut self, x: u16, y: u16) -> (r: Result<GameBoardEvent, UnopenableError>)
        ensures
            old(self).open_around_error(x as int, y as int) is Some ==> r == Err::<GameBoardEvent, UnopenableError>(
                old(self).open_around_error(x as int, y as int)->Some_0,
            ) && *final(self) == *old(self),
            old(self).open_around_error(x as int, y as int) is None ==> r is Ok && r->Ok_0 is OpenCell
                && final(self).same_layout(old(self)) && final(self).same_flags(old(self))
                && old(self).fill_of(old(self).open_set().union(old(self).chord_set(x as int, y as int)), final(self).open_set())
                && GameBoard::lists_opened(old(self), final(self), opened_cells(r->Ok_0)),
    {
        self.chord_precheck(x, y)?;
        let nb = self.normalize_around_3x3(x, y);
        let mut k: usize = 0;
        while k < nb.len()
            invariant
                self.inv(),
                k <= nb.len(),
                self.in_bounds(x as int, y as int) && !self.is_over() && self.cell(x as int, y as int).tile != Tile::Bomb
                    && self.flags_around(x as int, y as int) == tile_count(self.cell(x as int, y as int).tile)->Some_0 as int,
                forall|i: int|
                    0 <= i < nb.len() ==> self.in_bounds((#[trigger] nb@[i]).0 as int, nb@[i].1 as int)
                        && adjacent((nb@[i].0 as int, nb@[i].1 as int), (x as int, y as int)),
                forall|a: int, b: int|
                    self.in_bounds(a, b) && #[trigger] adjacent((a, b), (x as int, y as int))
                        ==> exists|i: int| 0 <= i < nb.len() && nb@[i] == (a as usize, b as usize),
                forall|i: int|
                    0 <= i < k ==> self.cell((#[trigger] nb@[i]).0 as int, nb@[i].1 as int).visible == Visibility::NotVisible
                        ==> !self.is_mine(nb@[i].0 as int, nb@[i].1 as int),
            decreases nb.len() - k,
        {
            let (a, b) = nb[k];
            let c = self.tile_at(a, b);
            if c.visible == Visibility::NotVisible && c.tile.is_bomb() {
                proof {
                    assert(self.chord_set(x as int, y as int).contains((a as int, b as int)));
                }
                return Err(UnopenableError::BombHit);
            }
            k = k + 1;
        }
        proof {
            assert forall|q: (int, int)| #[trigger] self.chord_set(x as int, y as int).contains(q) implies !self.is_mine(q.0, q.1) by {
                let i = choose|i: int| 0 <= i < nb.len() && nb@[i] == (q.0 as usize, q.1 as usize);
                assert(self.cell((nb@[i]).0 as int, nb@[i].1 as int).visible == Visibility::NotVisible);
            }
        }
        let ghost before = *self;
        let ghost chord = before.chord_set(x as int, y as int);
        let mut opened: Vec<(u16, u16)> = Vec::with_capacity(8);
        let mut k: usize = 0;
        while k < nb.len()
            invariant
                self.inv(),
                self.same_layout(&before),
                self.same_flags(&before),
                before.inv(),
                chord == before.chord_set(x as int, y as int),
                forall|q: (int, int)| #[trigger] chord.contains(q) ==> !before.is_mine(q.0, q.1),
                k <= nb.len(),
                forall|i: int|
                    0 <= i < nb.len() ==> self.in_bounds((#[trigger] nb@[i]).0 as int, nb@[i].1 as int)
                        && adjacent((nb@[i].0 as int, nb@[i].1 as int), (x as int, y as int)),
                GameBoard::lists_opened(&before, self, opened@),
                before.open_set().subset_of(self.open_set()),
                self.open_set().subset_of(before.open_set().union(chord)),
                forall|i: int|
                    0 <= i < k ==> before.cell((#[trigger] nb@[i]).0 as int, nb@[i].1 as int).visible == Visibility::NotVisible
                        ==> self.open_set().contains((nb@[i].0 as int, nb@[i].1 as int)),
                forall|a: int, b: int|
                    self.in_bounds(a, b) && self.cell(a, b).visible == Visibility::NotVisible ==> #[trigger] before.cell(a, b).visible == Visibility::NotVisible,
            decreases nb.len() - k,
        {
            let (a, b) = nb[k];
            let c = self.tile_at(a, b);
            if c.visible == Visibility::NotVisible {
                let ghost cur = *self;
                let ghost o_prev = opened@;
                proof {
                    assert(before.cell(a as int, b as int).visible == Visibility::NotVisible);
                    assert(chord.contains((a as int, b as int)));
                }
                self.open_cell(a, b);
                opened.push((a as u16, b as u16));
                proof {
                    GameBoard::lemma_list_extend(&before, &cur, self, o_prev, (a as int, b as int));
                }
            }
            k = k + 1;
        }
        proof {
            assert(self.open_set() =~= before.open_set().union(chord)) by {
                assert forall|q: (int, int)| #[trigger] chord.contains(q) implies self.open_set().contains(q) by {
                    let i = choose|i: int| 0 <= i < nb.len() && nb@[i] == (q.0 as usize, q.1 as usize);
                    assert(before.cell((nb@[i]).0 as int, nb@[i].1 as int).visible == Visibility::NotVisible);
                }
            }
        }
        let ghost mid = *self;
        let ghost o1 = opened@;
        let mut more = self.open_visible();
        let ghost o2 = more@;
        opened.append(&mut more);
        proof {
            GameBoard::lemma_list_concat(&before, &mid, self, o1, o2);
            assert forall|s: Set<(int, int)>| #[trigger] before.fill_closed(s) == mid.fill_closed(s) by {
                before.lemma_fill_closed_same(&mid, s);
            }
            GameBoard::lemma_opened_view(&before, self, opened@);
        }
        Ok(GameBoardEvent::OpenCell(opened))
    }

    fn flag_tile(&mut self, x: u16, y: u16) -> (r: Result<GameBoardEvent, UnopenableError>)
        ensures
            old(self).flag_tile_error(x as int, y as int) is Some ==> r == Err::<GameBoardEvent, UnopenableError>(
                old(self).flag_tile_error(x as int, y as int)->Some_0,
            ) && *final(self) == *old(self),
            old(self).flag_tile_error(x as int, y as int) is None ==> r == Ok::<GameBoardEvent, UnopenableError>(
                GameBoardEvent::ToggleFlagCell(x, y),
            ) && old(self).with_visibility(final(self), x as int, y as int, toggled(old(self).cell(x as int, y as int).visible))
                && final(self).opened_count() == old(self).opened_count(),
    {
        if x as usize >= self.board.dimensions().1 || y as usize >= self.board.len() {
            return Err(UnopenableError::OutOfBounds);
        }
        if self.over {
            return Err(UnopenableError::GameOver);
        }
        let t = self.tile_at(x as usize, y as usize);
        let v = match t.visible {
            Visibility::Visible => {
                return Err(UnopenableError::AlreadyOpen);
            },
            Visibility::Flagged => Visibility::NotVisible,
            Visibility::NotVisible => Visibility::Flagged,
        };
        let ghost before = *self;
        self.set_visibility(x as usize, y as usize, v);
        proof {
            GameBoard::lemma_counts_after_set(&before, self, x as int, y as int, v);
        }
        Ok(GameBoardEvent::flag_tile(x, y))
    }

    fn undo_move(&mut self, event: &GameBoardEvent) -> (r: Result<(), UndoError>)
        ensures
            event matches GameBoardEvent::ToggleFlagCell(x, y) ==> {
                &&& !old(self).in_bounds(x as int, y as int) ==> r == Err::<(), UndoError>(UndoError::OutOfBounds) && *final(self) == *old(self)
                &&& old(self).in_bounds(x as int, y as int) && old(self).cell(x as int, y as int).visible == Visibility::Visible
                    ==> r == Err::<(), UndoError>(UndoError::AlreadyOpen) && *final(self) == *old(self)
                &&& old(self).in_bounds(x as int, y as int) && old(self).cell(x as int, y as int).visible != Visibility::Visible
                    ==> r is Ok && old(self).with_visibility(final(self), x as int, y as int, toggled(old(self).cell(x as int, y as int).visible))
            },
            event matches GameBoardEvent::OpenCell(v) ==> {
                &&& old(self).undo_open_error(v@) is Some ==> r == Err::<(), UndoError>(old(self).undo_open_error(v@)->Some_0) && *final(self) == *old(self)
                &&& old(self).undo_open_error(v@) is None ==> r is Ok && old(self).with_closed(final(self), v@)
            },
    {
        match event {
            GameBoardEvent::ToggleFlagCell(x, y) => {
                let (x, y) = (*x, *y);
                if x as usize >= self.board.dimensions().1 || y as usize >= self.board.len() {
                    return Err(UndoError::OutOfBounds);
                }
                let t = self.tile_at(x as usize, y as usize);
                let v = match t.visible {
                    Visibility::Visible => {
                        return Err(UndoError::AlreadyOpen);
                    },
                    Visibility::Flagged => Visibility::NotVisible,
                    Visibility::NotVisible => Visibility::Flagged,
                };
                self.set_visibility(x as usize, y as usize, v);
                Ok(())
            },
            GameBoardEvent::OpenCell(cells) => {
                let ghost pre = *self;
                let r = self.undo_open(cells);
                proof {
                    if r is Ok {
                        lemma_undo_open_none(&pre, cells@);
                        assert forall|a: int, b: int| #[trigger] self.spec_tile(a, b) == if listed(cells@, (a, b)) {
                            Some(VisibleTile::NotVisible)
                        } else {
                            pre.spec_tile(a, b)
                        } by {
                            if listed(cells@, (a, b)) {
                                let i = choose|i: int| 0 <= i < cells@.len() && (cells@[i].0 as int, cells@[i].1 as int) == (a, b);
                                assert(pre.in_bounds(cells@[i].0 as int, cells@[i].1 as int));
                            } else if pre.in_bounds(a, b) {
                                assert(self.cell(a, b).tile == pre.cell(a, b).tile);
                                assert(self.cell(a, b) == pre.cell(a, b));
                            }
                        }
                    }
                }
                r
            },
        }
    }

    /// A primary press opens a closed cell, makes a chorded open on an open
    /// one and does nothing on a flagged one; a secondary press toggles the
    /// flag of a cell that is not open. Control events do nothing.
    fn do_event(&mut self, k: KeyEvent) -> (r: Result<(), UnopenableError>)
        ensures
            k matches KeyEvent::Mouse1(x, y) ==> {
                &&& old(self).in_bounds(x as int, y as int) && old(self).cell(x as int, y as int).visible == Visibility::Flagged
                    ==> r is Ok && *final(self) == *old(self)
                &&& old(self).in_bounds(x as int, y as int) && old(self).cell(x as int, y as int).visible == Visibility::NotVisible
                    ==> (r is Err <==> old(self).open_tile_error(x as int, y as int) is Some)
                &&& old(self).in_bounds(x as int, y as int) && old(self).cell(x as int, y as int).visible == Visibility::NotVisible
                    && r is Ok ==> old(self).fill_of(old(self).open_set().insert((x as int, y as int)), final(self).open_set())
                    && final(self).same_layout(old(self)) && final(self).same_flags(old(self))
                &&& r is Err ==> *final(self) == *old(self)
                &&& old(self).in_bounds(x as int, y as int) && old(self).cell(x as int, y as int).visible == Visibility::Visible
                    ==> (r is Err <==> old(self).open_around_error(x as int, y as int) is Some)
                &&& old(self).in_bounds(x as int, y as int) && old(self).cell(x as int, y as int).visible == Visibility::Visible
                    && r is Ok ==> old(self).fill_of(old(self).open_set().union(old(self).chord_set(x as int, y as int)), final(self).open_set())
                    && final(self).same_layout(old(self)) && final(self).same_flags(old(self))
            },
            k matches KeyEvent::Mouse2(x, y) ==> {
                &&& old(self).in_bounds(x as int, y as int) && old(self).cell(x as int, y as int).visible == Visibility::Visible
                    ==> r is Ok && *final(self) == *old(self)
                &&& old(self).in_bounds(x as int, y as int) && old(self).cell(x as int, y as int).visible != Visibility::Visible
                    ==> (r is Err <==> old(self).is_over())
                &&& old(self).in_bounds(x as int, y as int) && old(self).cell(x as int, y as int).visible != Visibility::Visible
                    && r is Ok ==> old(self).with_visibility(final(self), x as int, y as int, toggled(old(self).cell(x as int, y as int).visible))
                &&& r is Err ==> *final(self) == *old(self)
            },
            (k is Pause || k is UnPause || k is Idle) ==> r is Ok && *final(self) == *old(self),
    {
        match k {
            KeyEvent::Mouse1(x, y) => {
                let tile = match self.get_board_tile(x, y) {
                    Some(v) => v,
                    None => {
                        return Err(UnopenableError::OutOfBounds);
                    },
                };
                match tile {
                    VisibleTile::NotVisible => {
                        self.open_tile(x, y)?;
                    },
                    VisibleTile::Visible(_) => {
                        self.open_around(x, y)?;
                    },
                    VisibleTile::Flagged => {},
                }
            },
            KeyEvent::Mouse2(x, y) => {
                let tile = match self.get_board_tile(x, y) {
                    Some(v) => v,
                    None => {
                        return Err(UnopenableError::OutOfBounds);
                    },
                };
                match tile {
                    VisibleTile::NotVisible | VisibleTile::Flagged => {
                        self.flag_tile(x, y)?;
                    },
                    VisibleTile::Visible(_) => {},
                }
            },
            _ => {},
        }
        Ok(())
    }

    fn get_board_tile(&self, x: u16, y: u16) -> (r: Option<VisibleTile>) {
        if x as usize >= self.board.dimensions().1 || y as usize >= self.board.len() {
            None
        } else {
            Some(self.tile_at(x as usize, y as usize).to_visible())
        }
    }

    fn lose_game(&mut self)
        ensures
            final(self).is_over(),
            final(self).cells() == old(self).cells(),
    {
        let ghost before = *self;
        self.over = true;
        proof {
            GameBoard::lemma_inv_same_board(&before, self);
        }
    }

    fn win_game(&mut self) -> (r: Result<(), u32>)
        ensures
            r is Ok <==> forall|a: int, b: int| #[trigger] old(self).is_mine(a, b) || !old(self).in_bounds(a, b)
                || old(self).cell(a, b).visible == Visibility::Visible,
            r matches Err(n) ==> n == old(self).height() * old(self).width() - old(self).bomb_total() - old(self).opened_count(),
            r is Ok ==> final(self).is_over() && final(self).cells() == old(self).cells(),
            r is Err ==> *final(self) == *old(self),
    {
        let left = self.tiles_left();
        proof {
            lemma_tiles_left(self);
            assert(self.height() * self.width() == self.width() * self.height()) by (nonlinear_arith);
        }
        if left == 0 {
            let ghost before = *self;
            self.over = true;
            proof {
                GameBoard::lemma_inv_same_board(&before, self);
            }
            Ok(())
        } else {
            Err(left)
        }
    }

    fn render(&self) -> (r: FlatBoard<VisibleTile>) {
        let cells = self.board.iter_backing();
        let mut data: Vec<VisibleTile> = Vec::with_capacity(cells.len());
        let mut i: usize = 0;
        while i < cells.len()
            invariant
                cells@ == self.cells(),
                i <= cells@.len(),
                data.len() == i,
                forall|j: int| 0 <= j < i ==> #[trigger] data@[j] == visible_of(self.cells()[j]),
            decreases cells.len() - i,
        {
            data.push(cells[i].to_visible());
            i = i + 1;
        }
        let r = FlatBoard::from_vec(self.board.len(), self.board.dimensions().1, data);
        proof {
            assert forall|x: int, y: int| self.in_bounds(x, y) implies self.spec_tile(x, y) == Some(#[trigger] r.at(y, x)) by {
                lemma_flat_index(self.height(), self.width(), y, x);
            }
        }
        r
    }
}

/// The open cells and the mines fit on the board together, and they fill it
/// exactly when every cell without a mine is open: the number of cells left
/// to open is never negative and is zero just when the game is won.
pub proof fn lemma_tiles_left(b: &GameBoard)
    requires
        b.inv(),
    ensures
        b.opened_count() + b.bomb_total() <= b.height() * b.width(),
        b.height() * b.width() - b.bomb_total() - b.opened_count() == 0 <==> forall|x: int, y: int|
            #[trigger] b.in_bounds(x, y) && !b.is_mine(x, y) ==> b.cell(x, y).visible == Visibility::Visible,
{
    let n = b.cells().len() as int;
    let s = b.cells();
    let fo = |j: int| s[j].visible == Visibility::Visible;
    let fb = |j: int| s[j].tile == Tile::Bomb;
    let either = |j: int| s[j].visible == Visibility::Visible || s[j].tile == Tile::Bomb;
    lemma_count_where_ext(s, |t: BoardTile| t.visible == Visibility::Visible, fo);
    lemma_count_where_ext(s, |t: BoardTile| t.tile == Tile::Bomb, fb);
    assert forall|j: int| 0 <= j < n implies !(#[trigger] fo(j) && fb(j)) by {
        b.lemma_cell_of_index(j);
        let x = j % b.width();
        let y = j / b.width();
        assert(b.cell(x, y) == s[j]);
    }
    lemma_count_disjoint(n, fo, fb, either);
    lemma_count_bound(n, either);
    if b.height() * b.width() - b.bomb_total() - b.opened_count() == 0 {
        assert forall|x: int, y: int| #[trigger] b.in_bounds(x, y) && !b.is_mine(x, y) implies b.cell(x, y).visible == Visibility::Visible by {
            lemma_flat_index(b.height(), b.width(), y, x);
            assert(either(flat_index(b.width(), y, x)));
        }
    }
    if forall|x: int, y: int| #[trigger] b.in_bounds(x, y) && !b.is_mine(x, y) ==> b.cell(x, y).visible == Visibility::Visible {
        assert forall|j: int| 0 <= j < n implies #[trigger] either(j) by {
            b.lemma_cell_of_index(j);
            let x = j % b.width();
            let y = j / b.width();
            assert(b.cell(x, y) == s[j]);
            assert(b.in_bounds(x, y));
        }
    }
}

/// Flood fill settles: filling again from what a fill opened opens nothing
/// more, and a fill from open cells that already leave no zero cell with a
/// closed neighbour opens nothing at all.
pub proof fn lemma_fill_idempotent(b: &GameBoard, base: Set<(int, int)>, result: Set<(int, int)>)
    requires
        b.fill_of(base, result),
    ensures
        b.fill_of(result, result),
        b.fill_closed(base) ==> result == base,
{
    if b.fill_closed(base) {
        assert(result.subset_of(base));
        assert(result =~= base);
    }
}

/// A list of cells that can be undone lies on the board.
proof fn lemma_undo_open_none(b: &GameBoard, v: Seq<(u16, u16)>)
    requires
        b.undo_open_error(v) is None,
    ensures
        forall|i: int| 0 <= i < v.len() ==> b.in_bounds((#[trigger] v[i]).0 as int, v[i].1 as int),
    decreases v.len(),
{
    if v.len() > 0 {
        lemma_undo_open_none(b, v.drop_first());
        assert forall|i: int| 0 <= i < v.len() implies b.in_bounds((#[trigger] v[i]).0 as int, v[i].1 as int) by {
            if i > 0 {
                assert(v[i] == v.drop_first()[i - 1]);
            }
        }
    }
}

/// A list of cells that are all on the board and open can be undone.
proof fn lemma_undo_open_ok(b: &GameBoard, v: Seq<(u16, u16)>)
    requires
        forall|i: int| 0 <= i < v.len() ==> b.in_bounds((#[trigger] v[i]).0 as int, v[i].1 as int)
            && b.cell(v[i].0 as int, v[i].1 as int).visible == Visibility::Visible,
    ensures
        b.undo_open_error(v) is None,
    decreases v.len(),
{
    if v.len() > 0 {
        assert forall|i: int| 0 <= i < v.drop_first().len() implies b.in_bounds((#[trigger] v.drop_first()[i]).0 as int, v.drop_first()[i].1 as int)
            && b.cell(v.drop_first()[i].0 as int, v.drop_first()[i].1 as int).visible == Visibility::Visible by {
            assert(v.drop_first()[i] == v[i + 1]);
        }
        lemma_undo_open_ok(b, v.drop_first());
    }
}

/// Undoing the record of an opening restores the board: the record lists
/// exactly the cells the move opened, every one of them can be closed again,
/// and closing them gives back every cell as it was before the move.
pub proof fn lemma_undo_open_restores(
    before: &GameBoard,
    opened: &GameBoard,
    undone: &GameBoard,
    v: Seq<(u16, u16)>,
)
    requires
        opened.same_layout(before),
        opened.same_flags(before),
        GameBoard::lists_opened(before, opened, v),
        opened.with_closed(undone, v),
    ensures
        opened.undo_open_error(v) is None,
        forall|x: int, y: int| before.in_bounds(x, y) ==> #[trigger] undone.cell(x, y) == before.cell(x, y),
{
    assert forall|i: int| 0 <= i < v.len() implies opened.in_bounds((#[trigger] v[i]).0 as int, v[i].1 as int)
        && opened.cell(v[i].0 as int, v[i].1 as int).visible == Visibility::Visible by {
        let p = (v[i].0 as int, v[i].1 as int);
        assert(listed(v, p));
        assert(opened.open_set().contains(p));
    }
    lemma_undo_open_ok(opened, v);
    assert forall|x: int, y: int| before.in_bounds(x, y) implies #[trigger] undone.cell(x, y) == before.cell(x, y) by {
        let p = (x, y);
        assert(undone.cell(x, y).tile == before.cell(x, y).tile);
        assert(opened.cell(x, y).visible == Visibility::Flagged <==> before.cell(x, y).visible == Visibility::Flagged);
        if listed(v, p) {
            assert(!before.open_set().contains(p));
            assert(opened.open_set().contains(p));
        } else {
            assert(opened.open_set().contains(p) <==> before.open_set().contains(p));
        }
    }
}

/// Toggling the flag of a cell that is not open twice gives the cell back
/// as it was, and every other cell with it.
pub proof fn lemma_flag_round_trip(b0: &GameBoard, b1: &GameBoard, b2: &GameBoard, x: int, y: int)
    requires
        b0.in_bounds(x, y),
        b0.cell(x, y).visible != Visibility::Visible,
        b0.with_visibility(b1, x, y, toggled(b0.cell(x, y).visible)),
        b1.with_visibility(b2, x, y, toggled(b1.cell(x, y).visible)),
    ensures
        forall|a: int, c: int| b0.in_bounds(a, c) ==> #[trigger] b2.cell(a, c) == b0.cell(a, c),
{
    assert forall|a: int, c: int| b0.in_bounds(a, c) implies #[trigger] b2.cell(a, c) == b0.cell(a, c) by {
        if a == x && c == y {
            assert(b2.cell(a, c).tile == b0.cell(a, c).tile);
        } else {
            assert(b1.cell(a, c) == b0.cell(a, c));
        }
    }
}

/// `bombs` trues followed by falses, `area` entries in all.
fn mine_vector(bombs: usize, area: usize) -> (r: Vec<bool>)
    requires
        bombs <= area,
    ensures
        r.len() == area,
        forall|j: int| 0 <= j < area ==> r@[j] == (j < bombs),
        count_idx(area as int, |j: int| r@[j]) == bombs,
{
    let mut arr: Vec<bool> = Vec::with_capacity(area);
    let mut i: usize = 0;
    while i < area
        invariant
            i <= area,
            arr.len() == i,
            forall|j: int| 0 <= j < i ==> arr@[j] == (j < bombs),
        decreases area - i,
    {
        arr.push(i < bombs);
        i = i + 1;
    }
    proof {
        lemma_count_prefix(area as int, bombs as int);
        lemma_count_ext(area as int, |j: int| arr@[j], |j: int| j < bombs);
    }
    arr
}

/// Whether `v` lists the index `j`.
fn lists_index(v: &Vec<usize>, j: usize) -> (r: bool)
    ensures
        r == v@.map_values(|u: usize| u as int).contains(j as int),
{
    let ghost vi = v@.map_values(|u: usize| u as int);
    let mut k: usize = 0;
    while k < v.len()
        invariant
            k <= v.len(),
            vi == v@.map_values(|u: usize| u as int),
            forall|i: int| 0 <= i < k ==> vi[i] != j,
        decreases v.len() - k,
    {
        if v[k] == j {
            assert(vi[k as int] == j);
            return true;
        }
        k = k + 1;
    }
    false
}

/// The number of cells of the clearing of `(cx, cy)` on a board of `x`
/// columns and `y` rows.
fn clearing_cells(x: u16, y: u16, cx: u16, cy: u16) -> (r: u32)
    requires
        cx < x,
        cy < y,
    ensures
        r == clearing_size(x as int, y as int, cx as int, cy as int),
{
    let sx: u32 = (if cx > 0 { 1 } else { 0 }) + 1 + (if cx as u32 + 1 < x as u32 { 1 } else { 0 });
    let sy: u32 = (if cy > 0 { 1 } else { 0 }) + 1 + (if cy as u32 + 1 < y as u32 { 1 } else { 0 });
    assert(sx * sy <= 9) by (nonlinear_arith)
        requires
            sx <= 3,
            sy <= 3,
    ;
    sx * sy
}

/// The product of two sides, which cannot overflow.
pub fn widening_mul(a: u16, b: u16) -> (r: u32)
    ensures
        r == a * b,
{
    assert(a as int * b as int <= 65535 * 65535) by (nonlinear_arith)
        requires
            a <= 65535,
            b <= 65535,
    ;
    (a as u32) * (b as u32)
}

} // verus!
