use c6::{Point, RawBoard, Stone};

#[test]
fn raw_board_starts_empty() {
    let board = RawBoard::new();
    assert_eq!(board.get(Point::new(0, 0)), None);
    assert_eq!(board.get(Point::new(i32::MIN, i32::MAX)), None);
}

#[test]
fn raw_board_set_get_unset() {
    let mut board = RawBoard::new();
    let p = Point::new(3, -5);
    assert!(board.set(p, Stone::White));
    assert_eq!(board.get(p), Some(Stone::White));
    assert!(!board.set(p, Stone::Black));
    assert!(!board.set(p, Stone::White));
    assert_eq!(board.get(p), Some(Stone::White));
    assert_eq!(board.unset(p), Some(Stone::White));
    assert_eq!(board.get(p), None);
    assert_eq!(board.unset(p), None);
    assert!(board.set(p, Stone::Black));
    assert_eq!(board.get(p), Some(Stone::Black));
}

#[test]
fn raw_board_unset_of_unallocated_cell() {
    let mut board = RawBoard::new();
    assert_eq!(board.unset(Point::new(1000, 1000)), None);
    assert_eq!(board.get(Point::new(1000, 1000)), None);
}

#[test]
fn raw_board_cells_do_not_disturb_each_other() {
    let mut board = RawBoard::new();
    let mut expected = Vec::new();
    for x in -20..20 {
        for y in -20..20 {
            if (x * 7 + y * 13) % 3 != 0 {
                let stone = if (x + y) % 2 == 0 { Stone::Black } else { Stone::White };
                assert!(board.set(Point::new(x, y), stone));
                expected.push((x, y, Some(stone)));
            } else {
                expected.push((x, y, None));
            }
        }
    }
    for (x, y, stone) in &expected {
        assert_eq!(board.get(Point::new(*x, *y)), *stone);
    }
    for (x, y, stone) in &expected {
        if (x + 2 * y) % 5 == 0 {
            assert_eq!(board.unset(Point::new(*x, *y)), *stone);
        }
    }
    for (x, y, stone) in &expected {
        let now = if (x + 2 * y) % 5 == 0 { None } else { *stone };
        assert_eq!(board.get(Point::new(*x, *y)), now);
    }
}

#[test]
fn raw_board_far_cells() {
    let mut board = RawBoard::new();
    let corners = [
        Point::new(i32::MIN, i32::MIN),
        Point::new(i32::MAX, i32::MAX),
        Point::new(i32::MIN, i32::MAX),
        Point::new(i32::MAX, i32::MIN),
    ];
    for (i, p) in corners.iter().enumerate() {
        let stone = if i % 2 == 0 { Stone::Black } else { Stone::White };
        assert!(board.set(*p, stone));
    }
    for (i, p) in corners.iter().enumerate() {
        let stone = if i % 2 == 0 { Stone::Black } else { Stone::White };
        assert_eq!(board.get(*p), Some(stone));
    }
    assert_eq!(board.get(Point::new(i32::MIN + 1, i32::MIN)), None);
}

#[test]
fn stone_opposite_and_bits() {
    assert_eq!(Stone::Black.opposite(), Stone::White);
    assert_eq!(Stone::White.opposite(), Stone::Black);
    assert_eq!(Stone::Black.bit(), 0);
    assert_eq!(Stone::White.bit(), 1);
    assert_eq!(Stone::from_bit(0), Stone::Black);
    assert_eq!(Stone::from_bit(1), Stone::White);
    assert_eq!(Stone::from_bit(200), Stone::White);
}

#[test]
fn raw_board_default_is_empty() {
    let board = RawBoard::default();
    assert_eq!(board.get(Point::new(0, 0)), None);
}
