use minefield::{
    assert_not_bomb, widening_mul, BaseGameBoard, BaseGameBoard_do_event, FlatBoard,
    GameBoard, GameBoardEvent, KeyEvent, NewBoardError, Tile, UndoError, UnopenableError,
    VisibleTile,
};

fn count_visible(b: &GameBoard) -> usize {
    let (w, h) = b.dimensions();
    let mut n = 0;
    for y in 0..h {
        for x in 0..w {
            if let Some(VisibleTile::Visible(_)) = b.get_board_tile(x, y) {
                n += 1;
            }
        }
    }
    n
}

#[test]
fn clearing_on_a_five_by_five_board_is_safe() {
    let mut b = GameBoard::with_clearing(5, 5, 1, 2, 2).unwrap();
    assert!(b.open_tile(2, 2).is_ok());
    for y in 1..4u16 {
        for x in 1..4u16 {
            match b.open_tile(x, y) {
                Ok(_) | Err(UnopenableError::AlreadyOpen) => {}
                Err(e) => panic!("clearing cell ({x}, {y}) failed with {:?}", e),
            }
        }
    }
}

#[test]
fn full_clearing_leaves_every_other_cell_a_mine() {
    let mut b = GameBoard::with_clearing(10, 10, 91, 5, 5).unwrap();
    assert_eq!(b.bomb_count(), 91);
    let ev = b.open_tile(5, 5).unwrap();
    match ev {
        GameBoardEvent::OpenCell(v) => {
            assert_eq!(v.len(), 9);
            assert_eq!(v[0], (5, 5));
        }
        _ => panic!("opening gave a flag record"),
    }
    assert_eq!(b.get_board_tile(5, 5), Some(VisibleTile::Visible(Tile::Zero)));
    assert_eq!(b.get_board_tile(4, 4), Some(VisibleTile::Visible(Tile::Five)));
    assert_eq!(b.get_board_tile(5, 4), Some(VisibleTile::Visible(Tile::Three)));
    assert_eq!(b.tiles_left(), 0);
    assert_eq!(b.opened(), 9);
    assert_eq!(b.open_tile(0, 0), Err(UnopenableError::BombHit));
    assert_eq!(b.win_game(), Ok(()));
    assert_eq!(b.open_tile(0, 0), Err(UnopenableError::GameOver));
}

#[test]
fn clearing_needs_room_for_its_clipped_cells() {
    assert!(GameBoard::with_clearing(3, 3, 1, 0, 0).is_ok());
    assert!(GameBoard::with_clearing(2, 2, 0, 0, 0).is_ok());
    assert!(matches!(
        GameBoard::with_clearing(3, 3, 6, 0, 0),
        Err(NewBoardError::BombOverflow)
    ));
    assert!(matches!(
        GameBoard::with_clearing(3, 3, 1, 1, 1),
        Err(NewBoardError::BombOverflow)
    ));
    assert!(matches!(
        GameBoard::with_clearing(5, 5, 1, 5, 0),
        Err(NewBoardError::SizeConstraintOverflow)
    ));
}

#[test]
fn corner_clearing_is_mine_free() {
    let mut b = GameBoard::with_clearing(3, 3, 5, 0, 0).unwrap();
    let ev = b.open_tile(0, 0).unwrap();
    match ev {
        GameBoardEvent::OpenCell(v) => assert_eq!(v.len(), 4),
        _ => panic!("opening gave a flag record"),
    }
    assert_eq!(b.get_board_tile(0, 0), Some(VisibleTile::Visible(Tile::Zero)));
    assert_eq!(b.get_board_tile(1, 1), Some(VisibleTile::Visible(Tile::Five)));
    assert_eq!(b.tiles_left(), 0);
}

#[test]
fn validate_board_reports_each_error() {
    assert_eq!(
        GameBoard::validate_board(10001, 5, 1, false, None),
        Err(NewBoardError::SizeConstraintOverflow)
    );
    assert_eq!(
        GameBoard::validate_board(5, 5, 100_000_001, false, None),
        Err(NewBoardError::SizeConstraintOverflow)
    );
    assert_eq!(GameBoard::validate_board(5, 5, 26, false, None), Err(NewBoardError::BombOverflow));
    assert_eq!(GameBoard::validate_board(0, 5, 0, false, None), Err(NewBoardError::ZeroDimension));
    assert_eq!(
        GameBoard::validate_board(5, 5, 1, false, Some((5, 1))),
        Err(NewBoardError::SizeConstraintOverflow)
    );
    assert_eq!(GameBoard::validate_board(5, 5, 17, true, None), Err(NewBoardError::BombOverflow));
    assert_eq!(GameBoard::validate_board(2, 2, 0, true, Some((0, 0))), Ok(()));
    assert_eq!(
        GameBoard::validate_board(2, 2, 1, true, Some((0, 0))),
        Err(NewBoardError::BombOverflow)
    );
    assert_eq!(GameBoard::validate_board(5, 5, 19, true, Some((0, 2))), Ok(()));
    assert_eq!(
        GameBoard::validate_board(5, 5, 20, true, Some((0, 2))),
        Err(NewBoardError::BombOverflow)
    );
    assert_eq!(GameBoard::validate_board(5, 5, 16, true, Some((4, 4))), Ok(()));
    assert_eq!(GameBoard::validate_board(10000, 10000, 100_000_000, false, None), Ok(()));
}

#[test]
fn new_board_is_closed_with_its_mines() {
    let b = GameBoard::new(8, 6, 10).unwrap();
    assert_eq!(b.dimensions(), (8, 6));
    assert_eq!(b.bomb_count(), 10);
    assert_eq!(b.area(), 48);
    assert_eq!(b.opened(), 0);
    assert_eq!(b.flagged(), 0);
    assert_eq!(b.tiles_left(), 38);
    assert_eq!(b.unflagged_bombs(), 10);
    assert_eq!(b.get_board_tile(7, 5), Some(VisibleTile::NotVisible));
    assert_eq!(b.get_board_tile(8, 5), None);
    assert_eq!(b.get_board_tile(7, 6), None);
    assert!(matches!(GameBoard::new(0, 3, 0), Err(NewBoardError::ZeroDimension)));
}

#[test]
fn all_mine_board_shows_only_mines() {
    let mut b = GameBoard::new(3, 2, 6).unwrap();
    for y in 0..2 {
        for x in 0..3 {
            assert_eq!(b.open_tile(x, y), Err(UnopenableError::BombHit));
        }
    }
    assert_eq!(b.tiles_left(), 0);
}

#[test]
fn flood_fill_opens_a_board_without_mines() {
    let mut b = GameBoard::new(6, 4, 0).unwrap();
    let ev = b.open_tile(0, 0).unwrap();
    match &ev {
        GameBoardEvent::OpenCell(v) => {
            assert_eq!(v.len(), 24);
            let mut seen = v.clone();
            seen.sort();
            seen.dedup();
            assert_eq!(seen.len(), 24);
        }
        _ => panic!("opening gave a flag record"),
    }
    assert_eq!(b.opened(), 24);
    assert_eq!(b.tiles_left(), 0);
    assert!(b.open_visible().is_empty());
    assert_eq!(b.open_tile(3, 3), Err(UnopenableError::AlreadyOpen));
}

#[test]
fn flood_fill_stops_at_a_flag() {
    let mut b = GameBoard::new(4, 1, 0).unwrap();
    assert!(b.flag_tile(2, 0).is_ok());
    let ev = b.open_tile(0, 0).unwrap();
    match ev {
        GameBoardEvent::OpenCell(v) => assert_eq!(v.len(), 2),
        _ => panic!("opening gave a flag record"),
    }
    assert_eq!(b.get_board_tile(2, 0), Some(VisibleTile::Flagged));
    assert_eq!(b.get_board_tile(3, 0), Some(VisibleTile::NotVisible));
    assert_eq!(b.tiles_left(), 2);
}

#[test]
fn flag_round_trip_and_open_cell_refusal() {
    let mut b = GameBoard::with_clearing(5, 5, 1, 2, 2).unwrap();
    assert_eq!(b.flag_tile(0, 0), Ok(GameBoardEvent::ToggleFlagCell(0, 0)));
    assert_eq!(b.get_board_tile(0, 0), Some(VisibleTile::Flagged));
    assert_eq!(b.flagged(), 1);
    assert_eq!(b.unflagged_bombs(), 0);
    assert_eq!(b.open_tile(0, 0), Err(UnopenableError::FlaggedTile));
    assert!(b.flag_tile(0, 0).is_ok());
    assert_eq!(b.get_board_tile(0, 0), Some(VisibleTile::NotVisible));
    assert_eq!(b.flagged(), 0);
    b.open_tile(2, 2).unwrap();
    assert_eq!(b.flag_tile(2, 2), Err(UnopenableError::AlreadyOpen));
    assert_eq!(b.flag_tile(5, 2), Err(UnopenableError::OutOfBounds));
}

#[test]
fn more_flags_than_mines_leave_no_unflagged_mines() {
    let mut b = GameBoard::new(3, 3, 1).unwrap();
    b.flag_tile(0, 0).unwrap();
    b.flag_tile(1, 0).unwrap();
    assert_eq!(b.unflagged_bombs(), 0);
}

#[test]
fn open_around_with_wrong_flag_count_changes_nothing() {
    let mut b = GameBoard::new(3, 1, 2).unwrap();
    let mut free = None;
    for x in 0..3u16 {
        if b.open_tile(x, 0).is_ok() {
            free = Some(x);
        }
    }
    let x = free.unwrap();
    let before = b.render();
    let shown = b.get_board_tile(x, 0).unwrap();
    if x == 1 {
        assert_eq!(shown, VisibleTile::Visible(Tile::Two));
        b.flag_tile(0, 0).unwrap();
    } else {
        assert_eq!(shown, VisibleTile::Visible(Tile::One));
    }
    let flagged = b.render();
    assert_eq!(b.open_around(x, 0), Err(UnopenableError::FlagCountMismatch));
    assert_eq!(b.render(), flagged);
    if x == 1 {
        b.flag_tile(2, 0).unwrap();
        assert!(b.open_around(1, 0).is_ok());
        b.flag_tile(0, 0).unwrap();
        b.flag_tile(2, 0).unwrap();
        assert_eq!(b.render(), before);
    }
}

#[test]
fn open_around_with_wrong_flag_hits_a_mine_and_changes_nothing() {
    let mut b = GameBoard::new(3, 1, 1).unwrap();
    let mut mine = None;
    for x in 0..3u16 {
        if b.open_tile(x, 0) == Err(UnopenableError::BombHit) {
            mine = Some(x);
        }
    }
    let m = mine.unwrap();
    for x in 0..3u16 {
        if x != m {
            let _ = b.undo_move(&GameBoardEvent::OpenCell(vec![(x, 0)]));
        }
    }
    let target = if m == 0 { 1 } else { m - 1 };
    b.open_tile(target, 0).unwrap();
    let wrong = if m == 0 { 2 } else if m == 2 { 0 } else { 2 };
    if (wrong as i32 - target as i32).abs() == 1 {
        b.flag_tile(wrong, 0).unwrap();
        let snapshot = b.render();
        assert_eq!(b.open_around(target, 0), Err(UnopenableError::BombHit));
        assert_eq!(b.render(), snapshot);
    }
}

#[test]
fn open_around_a_mine_or_off_the_board_fails() {
    let mut b = GameBoard::new(2, 2, 4).unwrap();
    assert_eq!(b.open_around(0, 0), Err(UnopenableError::BombHit));
    assert_eq!(b.open_around(2, 0), Err(UnopenableError::OutOfBounds));
}

#[test]
fn undo_open_restores_the_board() {
    let mut b = GameBoard::new(5, 5, 0).unwrap();
    let before = b.render();
    let ev = b.open_tile(1, 1).unwrap();
    assert_eq!(count_visible(&b), 25);
    assert_eq!(b.undo_move(&ev), Ok(()));
    assert_eq!(b.render(), before);
    assert_eq!(b.undo_move(&ev), Err(UndoError::AlreadyClosed));
    assert_eq!(
        b.undo_move(&GameBoardEvent::OpenCell(vec![(9, 9)])),
        Err(UndoError::OutOfBounds)
    );
}

#[test]
fn undo_open_is_all_or_nothing() {
    let mut b = GameBoard::new(3, 3, 0).unwrap();
    b.open_tile(0, 0).unwrap();
    let snapshot = b.render();
    let bad = GameBoardEvent::OpenCell(vec![(0, 0), (1, 1), (7, 0)]);
    assert_eq!(b.undo_move(&bad), Err(UndoError::OutOfBounds));
    assert_eq!(b.render(), snapshot);
    assert_eq!(b.opened(), 9);
}

#[test]
fn undo_flag_toggles_back() {
    let mut b = GameBoard::new(4, 4, 2).unwrap();
    let ev = b.flag_tile(3, 1).unwrap();
    assert_eq!(b.undo_move(&ev), Ok(()));
    assert_eq!(b.get_board_tile(3, 1), Some(VisibleTile::NotVisible));
    assert_eq!(
        b.undo_move(&GameBoardEvent::ToggleFlagCell(4, 1)),
        Err(UndoError::OutOfBounds)
    );
    let mut c = GameBoard::new(2, 2, 0).unwrap();
    c.open_tile(0, 0).unwrap();
    assert_eq!(c.undo_move(&GameBoardEvent::ToggleFlagCell(0, 0)), Err(UndoError::AlreadyOpen));
}

#[test]
fn win_reports_cells_left() {
    let mut b = GameBoard::new(3, 3, 1).unwrap();
    assert_eq!(b.win_game(), Err(8));
    b.lose_game();
    assert_eq!(b.open_tile(0, 0), Err(UnopenableError::GameOver));
    assert_eq!(b.flag_tile(0, 0), Err(UnopenableError::GameOver));
}

#[test]
fn render_matches_the_tiles() {
    let mut b = GameBoard::new(4, 3, 0).unwrap();
    b.flag_tile(3, 2).unwrap();
    let r = b.render();
    assert_eq!(r.dimensions(), (3, 4));
    assert_eq!(r.get(2).unwrap()[3], VisibleTile::Flagged);
    assert_eq!(r.get(0).unwrap()[0], VisibleTile::NotVisible);
    b.open_tile(0, 0).unwrap();
    let r = b.render();
    assert_eq!(r.get(1).unwrap()[1], VisibleTile::Visible(Tile::Zero));
    assert_eq!(r.get(2).unwrap()[3], VisibleTile::Flagged);
}

#[test]
fn do_event_dispatches_presses() {
    let mut b = GameBoard::new(3, 3, 0).unwrap();
    assert_eq!(b.do_event(KeyEvent::Mouse2(1, 1)), Ok(()));
    assert_eq!(b.get_board_tile(1, 1), Some(VisibleTile::Flagged));
    assert_eq!(b.do_event(KeyEvent::Mouse1(1, 1)), Ok(()));
    assert_eq!(b.get_board_tile(1, 1), Some(VisibleTile::Flagged));
    assert_eq!(b.do_event(KeyEvent::Mouse1(0, 0)), Ok(()));
    assert_eq!(b.opened(), 8);
    assert_eq!(b.do_event(KeyEvent::Mouse2(0, 0)), Ok(()));
    assert_eq!(b.do_event(KeyEvent::Pause), Ok(()));
    assert_eq!(b.do_event(KeyEvent::Mouse1(3, 0)), Err(UnopenableError::OutOfBounds));
    assert_eq!(BaseGameBoard_do_event(&mut b, KeyEvent::Mouse2(1, 1)), Ok(()));
    assert_eq!(b.get_board_tile(1, 1), Some(VisibleTile::NotVisible));
    assert_eq!(BaseGameBoard_do_event(&mut b, KeyEvent::Mouse2(9, 1)), Err(UnopenableError::OutOfBounds));
}

#[test]
fn tiles_report_counts_and_labels() {
    assert!(Tile::Bomb.is_bomb());
    assert!(!Tile::Three.is_bomb());
    assert_eq!(Tile::Seven.as_count(), Some(7));
    assert_eq!(Tile::Bomb.as_count(), None);
    assert_eq!(Tile::Zero.as_str_count(), " ");
    assert_eq!(Tile::Eight.as_str_count(), "8");
    assert_eq!(Tile::Bomb.as_str_count(), "B");
    assert_eq!(Tile::from_count(4), Some(Tile::Four));
    assert_eq!(Tile::from_count(9), None);
    assert_eq!(Tile::try_from(3u8), Ok(Tile::Three));
    assert_eq!(Tile::try_from(9u8), Err(()));
    assert_eq!(assert_not_bomb(Tile::Bomb), Err(UnopenableError::BombHit));
    assert_eq!(assert_not_bomb(Tile::Two), Ok(()));
}

#[test]
fn widening_mul_does_not_overflow() {
    assert_eq!(widening_mul(65535, 65535), 4_294_836_225);
    assert_eq!(widening_mul(16, 16), 256);
}

#[test]
fn flatboard_rows() {
    let mut f = FlatBoard::new(2, 3, 7u8);
    assert_eq!(f.dimensions(), (2, 3));
    assert_eq!(f.len(), 2);
    assert_eq!(f.get(1).unwrap(), &[7, 7, 7]);
    assert!(f.get(2).is_none());
    f.get_mut(1).unwrap()[2] = 9;
    assert_eq!(f.get(1).unwrap(), &[7, 7, 9]);
    assert_eq!(f.get(0).unwrap(), &[7, 7, 7]);
    assert!(f.get_mut(5).is_none());
    let rows = f.iter();
    assert_eq!(rows.len(), 2);
    assert_eq!(rows[1], &[7, 7, 9]);
    let d: FlatBoard<u32> = FlatBoard::new_default(3, 1);
    assert_eq!(d.get(2).unwrap(), &[0]);
}

#[test]
fn flatboard_rows_for_writing_and_default() {
    let mut f = FlatBoard::new(3, 2, 0i32);
    {
        let mut rows = f.iter_mut();
        assert_eq!(rows.len(), 3);
        rows[2][1] = 5;
        rows[0][0] = 1;
    }
    assert_eq!(f.get(0).unwrap(), &[1, 0]);
    assert_eq!(f.get(2).unwrap(), &[0, 5]);
    let d: FlatBoard<u8> = FlatBoard::default();
    assert_eq!(d.dimensions(), (0, 0));
    assert!(d.get(0).is_none());
}

#[test]
fn mines_land_in_different_places() {
    let mut spots = Vec::new();
    for _ in 0..60 {
        let mut b = GameBoard::new(10, 1, 1).unwrap();
        for x in 0..10u16 {
            if b.open_tile(x, 0) == Err(UnopenableError::BombHit) {
                spots.push(x);
                break;
            }
        }
    }
    assert_eq!(spots.len(), 60);
    spots.sort();
    spots.dedup();
    assert!(spots.len() > 1);
}

#[test]
fn move_records_are_built_from_cells() {
    assert_eq!(
        GameBoardEvent::from(vec![(1, 2), (3, 4)]),
        GameBoardEvent::OpenCell(vec![(1, 2), (3, 4)])
    );
    assert_eq!(GameBoardEvent::flag_tile(7, 8), GameBoardEvent::ToggleFlagCell(7, 8));
}

#[test]
fn dispatcher_flag_press_leaves_other_cells() {
    let mut b = GameBoard::new(3, 3, 0).unwrap();
    b.open_tile(0, 0).unwrap();
    let mut c = GameBoard::new(3, 3, 0).unwrap();
    assert_eq!(BaseGameBoard_do_event(&mut c, KeyEvent::Mouse2(2, 2)), Ok(()));
    let r = c.render();
    for y in 0..3usize {
        for x in 0..3usize {
            let want = if (x, y) == (2, 2) { VisibleTile::Flagged } else { VisibleTile::NotVisible };
            assert_eq!(r.get(y).unwrap()[x], want);
        }
    }
    assert_eq!(BaseGameBoard_do_event(&mut b, KeyEvent::Mouse1(1, 1)), Ok(()));
    assert_eq!(b.opened(), 9);
}
