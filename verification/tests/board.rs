use c6::{Board, Bounds, Point, SetError, Stone};

#[test]
fn occupied_cell_is_refused_and_board_unchanged() {
    let mut board = Board::new_infinite();
    assert_eq!(board.set(Point::new(0, 0), Stone::Black), Ok(()));
    assert_eq!(board.set(Point::new(0, 0), Stone::White), Err(SetError::Occupied));
    assert_eq!(board.get(Point::new(0, 0)), Some(Stone::Black));
    assert_eq!(board.index(), 1);
    assert_eq!(board.total_count(), 1);
    assert_eq!(board.past_record(), &[(Point::new(0, 0), Stone::Black)][..]);
}

#[test]
fn rect_bounds_lie_over_zigzag_codes() {
    let bounds = Bounds::Rect(19, 19);
    assert!(bounds.contains(Point::new(-9, -9)));
    assert!(bounds.contains(Point::new(9, 9)));
    assert!(bounds.contains(Point::new(0, 0)));
    assert!(!bounds.contains(Point::new(10, 0)));
    assert!(!bounds.contains(Point::new(0, 10)));
    assert!(!bounds.contains(Point::new(-10, 0)));
    assert!(!bounds.contains(Point::new(0, -10)));
    let even = Bounds::Rect(4, 2);
    assert!(even.contains(Point::new(-2, -1)));
    assert!(even.contains(Point::new(1, 0)));
    assert!(!even.contains(Point::new(2, 0)));
    assert!(!even.contains(Point::new(0, 1)));
    assert!(!Bounds::Rect(0, 5).contains(Point::new(0, 0)));
    assert!(Bounds::Infinite.contains(Point::new(i32::MIN, i32::MAX)));
    assert!(Bounds::Rect(u32::MAX, u32::MAX).contains(Point::new(i32::MAX, i32::MAX)));
    assert!(!Bounds::Rect(u32::MAX, u32::MAX).contains(Point::new(i32::MIN, 0)));
    assert_eq!(Bounds::default(), Bounds::Infinite);
}

#[test]
fn infer_turn_after_opening() {
    let mut board = Board::new_infinite();
    assert_eq!(board.infer_turn(), (Stone::Black, true));
    board.set(Point::new(0, 0), Stone::Black).unwrap();
    assert_eq!(board.infer_turn(), (Stone::White, false));

    let mut board = Board::new_infinite();
    board.set(Point::new(0, 0), Stone::White).unwrap();
    assert_eq!(board.infer_turn(), (Stone::White, true));
}

#[test]
fn infer_turn_in_pairs() {
    let mut board = Board::new_infinite();
    board.set(Point::new(0, 0), Stone::Black).unwrap();
    board.set(Point::new(1, 0), Stone::White).unwrap();
    assert_eq!(board.infer_turn(), (Stone::White, true));
    board.set(Point::new(2, 0), Stone::White).unwrap();
    assert_eq!(board.infer_turn(), (Stone::Black, false));
    board.set(Point::new(3, 0), Stone::Black).unwrap();
    assert_eq!(board.infer_turn(), (Stone::Black, true));
    board.set(Point::new(4, 0), Stone::Black).unwrap();
    assert_eq!(board.infer_turn(), (Stone::White, false));
    board.unset();
    assert_eq!(board.infer_turn(), (Stone::Black, true));
    board.jump(0);
    assert_eq!(board.infer_turn(), (Stone::Black, true));
}

#[test]
fn out_of_bounds_is_checked_before_occupied() {
    let mut board = Board::new_square(3);
    assert_eq!(board.bounds(), Bounds::Rect(3, 3));
    assert_eq!(board.set(Point::new(2, 0), Stone::Black), Err(SetError::OutOfBounds));
    assert_eq!(board.set(Point::new(1, -1), Stone::Black), Ok(()));
    assert_eq!(board.set(Point::new(1, -1), Stone::Black), Err(SetError::Occupied));
    assert!(board.get(Point::new(2, 0)).is_none());
    assert_eq!(board.index(), 1);
}

#[test]
fn undo_and_redo() {
    let mut board = Board::new_infinite();
    assert!(board.is_empty());
    assert_eq!(board.unset(), None);
    assert_eq!(board.reset(), None);
    board.set(Point::new(1, 2), Stone::Black).unwrap();
    board.set(Point::new(3, 4), Stone::White).unwrap();
    assert!(!board.is_empty());
    assert_eq!(board.unset(), Some((Point::new(3, 4), Stone::White)));
    assert_eq!(board.get(Point::new(3, 4)), None);
    assert_eq!(board.get(Point::new(1, 2)), Some(Stone::Black));
    assert_eq!(board.index(), 1);
    assert_eq!(board.total_count(), 2);
    assert_eq!(board.reset(), Some((Point::new(3, 4), Stone::White)));
    assert_eq!(board.get(Point::new(3, 4)), Some(Stone::White));
    assert_eq!(board.index(), 2);
    assert_eq!(board.reset(), None);
    assert_eq!(board.unset(), Some((Point::new(3, 4), Stone::White)));
    assert_eq!(board.unset(), Some((Point::new(1, 2), Stone::Black)));
    assert_eq!(board.unset(), None);
    assert!(board.is_empty());
    assert_eq!(board.total_count(), 2);
    assert_eq!(board.past_record(), &[][..]);
}

#[test]
fn new_move_discards_undone_moves() {
    let mut board = Board::new_infinite();
    board.set(Point::new(0, 0), Stone::Black).unwrap();
    board.set(Point::new(1, 0), Stone::White).unwrap();
    board.set(Point::new(2, 0), Stone::White).unwrap();
    board.unset();
    board.unset();
    board.set(Point::new(5, 5), Stone::White).unwrap();
    assert_eq!(board.total_count(), 2);
    assert_eq!(board.index(), 2);
    assert_eq!(board.reset(), None);
    assert_eq!(
        board.past_record(),
        &[(Point::new(0, 0), Stone::Black), (Point::new(5, 5), Stone::White)][..]
    );
    assert_eq!(board.get(Point::new(1, 0)), None);
    // an undone cell can be taken anew
    board.set(Point::new(1, 0), Stone::Black).unwrap();
    assert_eq!(board.get(Point::new(1, 0)), Some(Stone::Black));
}

#[test]
fn failed_set_keeps_undone_moves() {
    let mut board = Board::new_square(5);
    board.set(Point::new(0, 0), Stone::Black).unwrap();
    board.set(Point::new(1, 0), Stone::White).unwrap();
    board.unset();
    assert_eq!(board.set(Point::new(0, 0), Stone::White), Err(SetError::Occupied));
    assert_eq!(board.set(Point::new(9, 0), Stone::White), Err(SetError::OutOfBounds));
    assert_eq!(board.total_count(), 2);
    assert_eq!(board.reset(), Some((Point::new(1, 0), Stone::White)));
}

#[test]
fn jump_moves_the_cursor() {
    let mut board = Board::new_infinite();
    let moves = [
        (Point::new(0, 0), Stone::Black),
        (Point::new(1, 0), Stone::White),
        (Point::new(2, 0), Stone::White),
        (Point::new(-7, 3), Stone::Black),
    ];
    for (p, s) in moves {
        board.set(p, s).unwrap();
    }
    board.jump(4);
    board.jump(4);
    assert_eq!(board.index(), 4);
    assert_eq!(board.past_record(), &moves[..]);
    board.jump(1);
    assert_eq!(board.index(), 1);
    assert_eq!(board.total_count(), 4);
    assert_eq!(board.get(moves[0].0), Some(Stone::Black));
    for (p, _) in &moves[1..] {
        assert_eq!(board.get(*p), None);
    }
    board.jump(3);
    assert_eq!(board.past_record(), &moves[..3]);
    assert_eq!(board.get(moves[2].0), Some(Stone::White));
    assert_eq!(board.get(moves[3].0), None);
    board.jump(0);
    assert!(board.is_empty());
    for (p, _) in moves {
        assert_eq!(board.get(p), None);
    }
    board.jump(board.total_count());
    for (p, s) in moves {
        assert_eq!(board.get(p), Some(s));
    }
    assert_eq!(board.past_record(), &moves[..]);
}

#[test]
fn equality_looks_at_bounds_and_applied_moves() {
    let mut a = Board::new_infinite();
    let mut b = Board::new_infinite();
    assert_eq!(a, b);
    assert_eq!(a, Board::default());
    assert_ne!(a, Board::new_square(19));
    assert_ne!(Board::new(Bounds::Rect(2, 3)), Board::new(Bounds::Rect(3, 2)));
    a.set(Point::new(0, 0), Stone::Black).unwrap();
    assert_ne!(a, b);
    b.set(Point::new(0, 0), Stone::Black).unwrap();
    assert_eq!(a, b);
    a.set(Point::new(1, 1), Stone::White).unwrap();
    b.set(Point::new(1, 1), Stone::Black).unwrap();
    assert_ne!(a, b);
    a.unset();
    assert_ne!(a, b);
    b.unset();
    // the undone moves differ, the applied ones do not
    assert_eq!(a, b);
    a.set(Point::new(2, 2), Stone::White).unwrap();
    b.set(Point::new(2, 3), Stone::White).unwrap();
    assert_ne!(a, b);
}
