use minefield::logged::clamp_micros;
use minefield::{
    BaseGameBoard, GameBoard, GameBoardEvent, KeyEvent, KeyEventEffect, LazyGameBoard,
    LoggedGameBoard, NewBoardError, UndoError, UnopenableError, VisibleTile,
};

#[test]
fn lazy_board_is_closed_until_the_first_move() {
    let mut b: LazyGameBoard<GameBoard> = LazyGameBoard::new_uninit(6, 5, 4).unwrap();
    assert_eq!(b.dimensions(), (6, 5));
    assert_eq!(b.bomb_count(), 4);
    assert_eq!(b.opened(), 0);
    assert_eq!(b.flagged(), 0);
    assert_eq!(b.get_board_tile(5, 4), Some(VisibleTile::NotVisible));
    assert_eq!(b.get_board_tile(6, 4), None);
    assert_eq!(b.render().dimensions(), (5, 6));
    assert_eq!(b.win_game(), Err(26));
    assert_eq!(
        b.undo_move(&GameBoardEvent::ToggleFlagCell(0, 0)),
        Err(UndoError::AlreadyClosed)
    );
    assert_eq!(b.open_tile(6, 0), Err(UnopenableError::OutOfBounds));
    assert_eq!(b.opened(), 0);
    assert!(b.open_tile(2, 2).is_ok());
    assert!(b.opened() >= 1);
    assert_eq!(b.open_tile(2, 2), Err(UnopenableError::AlreadyOpen));
}

#[test]
fn lazy_board_first_press_lands_in_a_clearing() {
    let mut b: LazyGameBoard<GameBoard> = LazyGameBoard::new_uninit(10, 10, 91).unwrap();
    assert_eq!(b.do_event(KeyEvent::Mouse1(5, 5)), Ok(()));
    assert_eq!(b.opened(), 9);
    assert_eq!(b.tiles_left(), 0);
}

#[test]
fn lazy_board_accepts_what_validation_accepts() {
    let mut b: LazyGameBoard<GameBoard> = LazyGameBoard::new_uninit(2, 2, 0).unwrap();
    assert!(b.open_tile(1, 1).is_ok());
    assert_eq!(b.opened(), 4);
    let r: Result<LazyGameBoard<GameBoard>, NewBoardError> = LazyGameBoard::new_uninit(0, 3, 0);
    assert!(matches!(r, Err(NewBoardError::ZeroDimension)));
    let r: Result<LazyGameBoard<GameBoard>, NewBoardError> = LazyGameBoard::new_uninit(3, 3, 10);
    assert!(matches!(r, Err(NewBoardError::BombOverflow)));
}

#[test]
fn lazy_board_first_move_needs_room_for_its_clearing() {
    let mut b: LazyGameBoard<GameBoard> = LazyGameBoard::new_uninit(3, 3, 5).unwrap();
    assert_eq!(b.open_tile(1, 1), Err(UnopenableError::NoRoomForClearing));
    assert_eq!(b.flag_tile(1, 0), Err(UnopenableError::NoRoomForClearing));
    assert_eq!(b.opened(), 0);
    assert_eq!(b.get_board_tile(1, 1), Some(VisibleTile::NotVisible));
    assert!(b.open_tile(0, 0).is_ok());
    assert_eq!(b.opened(), 4);
}

#[test]
fn lazy_board_flag_creates_the_board() {
    let mut b: LazyGameBoard<GameBoard> = LazyGameBoard::new_uninit(4, 4, 2).unwrap();
    assert_eq!(b.do_event(KeyEvent::Mouse2(1, 1)), Ok(()));
    assert_eq!(b.get_board_tile(1, 1), Some(VisibleTile::Flagged));
    assert_eq!(b.flagged(), 1);
    assert_eq!(b.unflagged_bombs(), 1);
    assert_eq!(b.do_event(KeyEvent::Mouse1(9, 9)), Err(UnopenableError::OutOfBounds));
}

#[test]
fn logged_board_opens_the_clearing_first() {
    let b: LoggedGameBoard<GameBoard> = LoggedGameBoard::start_new(10, 10, 91, 5, 5).unwrap();
    assert_eq!(b.opened(), 9);
    assert_eq!(b.frames().len(), 1);
    match &b.frames()[0].trace {
        KeyEventEffect::Mouse1(5, 5, GameBoardEvent::OpenCell(v)) => assert_eq!(v.len(), 9),
        other => panic!("unexpected first frame {:?}", other),
    }
}

#[test]
fn logged_board_logs_only_what_succeeds() {
    let mut b: LoggedGameBoard<GameBoard> = LoggedGameBoard::start_new(4, 4, 0, 0, 0).unwrap();
    assert_eq!(b.frames().len(), 1);
    assert_eq!(b.do_event(KeyEvent::Pause), Ok(()));
    assert_eq!(b.frames().len(), 2);
    assert_eq!(b.frames()[1].trace, KeyEventEffect::Pause);
    assert_eq!(b.do_event(KeyEvent::Mouse2(0, 0)), Ok(()));
    assert_eq!(b.do_event(KeyEvent::Mouse1(4, 0)), Err(UnopenableError::OutOfBounds));
    assert_eq!(b.frames().len(), 2);
    assert_eq!(b.do_event(KeyEvent::Idle), Ok(()));
    assert_eq!(b.do_event(KeyEvent::UnPause), Ok(()));
    assert_eq!(b.frames().len(), 4);
    assert!(b.frames()[3].time_offset_micros >= b.frames()[0].time_offset_micros);
}

#[test]
fn logged_board_logs_flags() {
    let mut b: LoggedGameBoard<GameBoard> = LoggedGameBoard::start_new(5, 5, 16, 2, 2).unwrap();
    assert_eq!(b.do_event(KeyEvent::Mouse2(0, 0)), Ok(()));
    assert_eq!(b.frames().len(), 2);
    assert_eq!(
        b.frames()[1].trace,
        KeyEventEffect::Mouse2(0, 0, GameBoardEvent::ToggleFlagCell(0, 0))
    );
    assert_eq!(b.do_event(KeyEvent::Mouse1(0, 0)), Ok(()));
    assert_eq!(b.get_board_tile(0, 0), Some(VisibleTile::Flagged));
    assert_eq!(b.frames().len(), 2);
}

#[test]
fn logged_board_reports_configuration_errors() {
    let r: Result<LoggedGameBoard<GameBoard>, NewBoardError> = LoggedGameBoard::start_new(5, 5, 17, 2, 2);
    assert!(matches!(r, Err(NewBoardError::BombOverflow)));
}

#[test]
fn lazy_logged_board_composes() {
    let mut b: LazyGameBoard<LoggedGameBoard<GameBoard>> = LazyGameBoard::new_uninit(16, 16, 40).unwrap();
    let _ = b.do_event(KeyEvent::Mouse1(3, 3));
    assert!(b.opened() >= 1);
    assert_eq!(b.get_board_tile(3, 3).map(|t| matches!(t, VisibleTile::Visible(_))), Some(true));
}

#[test]
fn clamp_micros_saturates() {
    assert_eq!(clamp_micros(-5), 0);
    assert_eq!(clamp_micros(1234), 1234);
    assert_eq!(clamp_micros(u64::MAX as i128 + 1), u64::MAX);
}

#[test]
fn lazy_logged_first_chord_finds_nothing_left_to_open() {
    let mut b: LazyGameBoard<LoggedGameBoard<GameBoard>> = LazyGameBoard::new_uninit(8, 8, 10).unwrap();
    assert_eq!(b.open_around(4, 4), Ok(GameBoardEvent::OpenCell(Vec::new())));
    assert_eq!(b.get_board_tile(4, 4), Some(VisibleTile::Visible(minefield::Tile::Zero)));
    assert_eq!(b.open_tile(4, 4), Err(UnopenableError::AlreadyOpen));
}

#[test]
fn lazy_board_first_open_lists_the_pressed_cell() {
    let mut b: LazyGameBoard<GameBoard> = LazyGameBoard::new_uninit(8, 8, 10).unwrap();
    match b.open_tile(0, 7).unwrap() {
        GameBoardEvent::OpenCell(v) => assert!(v.contains(&(0, 7))),
        _ => panic!("opening gave a flag record"),
    }
}

#[test]
fn logged_board_logs_direct_commands_and_undo() {
    let mut b: LoggedGameBoard<GameBoard> = LoggedGameBoard::start_new(6, 6, 0, 0, 0).unwrap();
    assert_eq!(b.frames().len(), 1);
    let first = match &b.frames()[0].trace {
        KeyEventEffect::Mouse1(_, _, ev) => ev.clone(),
        other => panic!("unexpected first frame {:?}", other),
    };
    assert_eq!(b.undo_move(&first), Ok(()));
    assert_eq!(b.frames().len(), 2);
    assert_eq!(b.frames()[1].trace, KeyEventEffect::Undo(first.clone()));
    assert_eq!(b.flag_tile(2, 2), Ok(GameBoardEvent::ToggleFlagCell(2, 2)));
    assert_eq!(b.frames().len(), 3);
    let ev = b.open_tile(5, 5).unwrap();
    assert_eq!(b.frames().len(), 4);
    assert_eq!(b.frames()[3].trace, KeyEventEffect::Mouse1(5, 5, ev));
    assert_eq!(b.open_tile(5, 5), Err(UnopenableError::AlreadyOpen));
    assert_eq!(b.undo_move(&first), Err(UndoError::AlreadyClosed));
    assert_eq!(b.frames().len(), 4);
    for i in 1..4 {
        assert!(b.frames()[i].time_offset_micros >= b.frames()[i - 1].time_offset_micros);
    }
}
