use c6::record::{
    encode_record_moves, parse_bounds_bytes, read_checksum, replay, write_body, write_checksum,
    write_head,
};
use c6::{Board, Bounds, LoadRecordError, Point, SetError, Stone};

fn record_expected() -> &'static [u8] {
    b"-----BEGIN CONNECT6 RECORD-----\n\
Version: c6 0.1.0\n\
Board: Rect(19*19)\n\
Count: 361\n\
\n\
hgzWBsYGlgaGBtYExgSWBIYEggSSBMIE0gSCBpIGwgbSBoIMkgyuCf4D7gO+A64D\n\
/gHuAb4BrgGqAboB6gH6AaoDugPqA/oDqgm6CaYJ9gPmA7YDpgP2AeYBtgGmAaIB\n\
sgHiAfIBogOyA+ID8gOiCbIJjgneA84DngOOA94BzgGeAY4BigGaAcoB2gGKA5oD\n\
ygPaA4oJmgmGCdYDxgOWA4YD1gHGAZYBhgGCAZIBwgHSAYIDkgPCA9IDggmSCa4I\n\
/gLuAr4CrgJ+bj4uKjpqeqoCugLqAvoCqgi6CKYI9gLmArYCpgJ2ZjYmIjJicqIC\n\
sgLiAvICogiyCI4I3gLOAp4CjgJeTh4OChpKWooCmgLKAtoCigiaCIYI1gLGApYC\n\
hgJWRhYGAhJCUoICkgLCAtICggiSCIQI1ALEApQChAJURBQEABBAUIACkALAAtAC\n\
gAiQCIwI3ALMApwCjAJcTBwMCBhIWIgCmALIAtgCiAiYCKQI9ALkArQCpAJ0ZDQk\n\
IDBgcKACsALgAvACoAiwCKwI/ALsArwCrAJ8bDwsKDhoeKgCuALoAvgCqAi4CIQJ\n\
1APEA5QDhAPUAcQBlAGEAYABkAHAAdABgAOQA8AD0AOACZAJjAncA8wDnAOMA9wB\n\
zAGcAYwBiAGYAcgB2AGIA5gDyAPYA4gJmAmkCfQD5AO0A6QD9AHkAbQBpAGgAbAB\n\
4AHwAaADsAPgA/ADoAmwCawJ/APsA7wDrAP8AewBvAGsAagBuAHoAfgBqAO4A+gD\n\
+AOoCbgJhAzUBsQGlAaEBtQExASUBIQEgASQBMAE0ASABpAGwAbQBoAMkAyMDNwG\n\
zAacBowG3ATMBJwEjASIBJgEyATYBIgGmAbIBtgGiAyYDA==\n\
=5LMR\n\
-----END CONNECT6 RECORD-----\n"
}

fn full_board() -> Board {
    let mut board = Board::new_square(19);
    for x in -9..=9 {
        for y in -9..=9 {
            board.set(Point::new(x, y), Stone::Black).unwrap();
        }
    }
    board
}

fn small_record() -> &'static str {
    "-----BEGIN CONNECT6 RECORD-----\nVersion: c6 0.1.0\nBoard: Infinite\nCount: 3\n\nAAkR\n=roE4\n-----END CONNECT6 RECORD-----\n"
}

fn small_board() -> Board {
    let mut board = Board::new_infinite();
    board.set(Point::new(0, 0), Stone::Black).unwrap();
    board.set(Point::new(1, 0), Stone::White).unwrap();
    board.set(Point::new(0, 1), Stone::White).unwrap();
    board
}

#[test]
fn test_record_save_load() {
    let board = full_board();
    let record = board.save_record();
    let board_expected = Board::load_record(record_expected()).unwrap();
    assert_eq!(board, board_expected);
    assert_eq!(record, record_expected());
}

#[test]
fn save_small_record_exact_text() {
    let record = small_board().save_record();
    assert_eq!(String::from_utf8(record).unwrap(), small_record());
}

#[test]
fn save_empty_board() {
    let record = Board::new_square(19).save_record();
    assert_eq!(
        String::from_utf8(record).unwrap(),
        "-----BEGIN CONNECT6 RECORD-----\nVersion: c6 0.1.0\nBoard: Rect(19*19)\nCount: 0\n\n=zgS3\n-----END CONNECT6 RECORD-----\n"
    );
}

#[test]
fn save_writes_applied_moves_only() {
    let mut board = small_board();
    board.set(Point::new(5, 5), Stone::Black).unwrap();
    board.unset();
    assert_eq!(board.total_count(), 4);
    assert_eq!(String::from_utf8(board.save_record()).unwrap(), small_record());
}

#[test]
fn load_small_record() {
    let board = Board::load_record(small_record().as_bytes()).unwrap();
    assert_eq!(board.bounds(), Bounds::Infinite);
    assert_eq!(board.index(), 3);
    assert_eq!(board.total_count(), 3);
    assert_eq!(
        board.past_record(),
        &[
            (Point::new(0, 0), Stone::Black),
            (Point::new(1, 0), Stone::White),
            (Point::new(0, 1), Stone::White)
        ][..]
    );
    assert_eq!(board.get(Point::new(1, 0)), Some(Stone::White));
    assert_eq!(board.get(Point::new(1, 1)), None);
    assert_eq!(board, small_board());
}

#[test]
fn round_trip_keeps_bounds_and_applied_moves() {
    let mut board = Board::new(Bounds::Rect(7, 4));
    board.set(Point::new(-3, 1), Stone::White).unwrap();
    board.set(Point::new(3, -2), Stone::Black).unwrap();
    board.set(Point::new(0, 0), Stone::Black).unwrap();
    board.unset();
    let loaded = Board::load_record(&board.save_record()).unwrap();
    assert_eq!(loaded, board);
    assert_eq!(loaded.bounds(), Bounds::Rect(7, 4));
    assert_eq!(loaded.total_count(), 2);
    assert_eq!(loaded.index(), 2);
}

#[test]
fn round_trip_of_far_points() {
    let mut board = Board::new_infinite();
    board.set(Point::new(i32::MAX, i32::MIN), Stone::White).unwrap();
    board.set(Point::new(i32::MIN, i32::MIN), Stone::Black).unwrap();
    board.set(Point::new(-1, i32::MAX), Stone::White).unwrap();
    let text = board.save_record();
    let loaded = Board::load_record(&text).unwrap();
    assert_eq!(loaded, board);
    assert_eq!(loaded.past_record(), board.past_record());
}

#[test]
fn round_trip_of_many_lines() {
    let mut board = Board::new_infinite();
    for i in 0..200 {
        let stone = if i % 3 == 0 { Stone::Black } else { Stone::White };
        board.set(Point::new(i * 1000 - 7, 40000 - i * 17), stone).unwrap();
    }
    let text = board.save_record();
    for line in text.split(|b| *b == b'\n') {
        assert!(line.len() <= 64);
    }
    let loaded = Board::load_record(&text).unwrap();
    assert_eq!(loaded, board);
    assert_eq!(loaded.index(), 200);
}

#[test]
fn load_accepts_carriage_returns_and_missing_last_line() {
    let text = "-----BEGIN CONNECT6 RECORD-----\r\nBoard: Infinite\r\nCount: 3\r\n\r\nAAkR\r\n=roE4";
    let board = Board::load_record(text.as_bytes()).unwrap();
    assert_eq!(board, small_board());
}

#[test]
fn load_ignores_unknown_keys_and_defaults() {
    let text = "-----BEGIN CONNECT6 RECORD-----\nComment: a:b\n\nAAkR\n=roE4\n";
    let board = Board::load_record(text.as_bytes()).unwrap();
    assert_eq!(board.bounds(), Bounds::Infinite);
    assert_eq!(board.index(), 3);
}

#[test]
fn load_trims_white_space_in_headers() {
    let text = "-----BEGIN CONNECT6 RECORD-----\nBoard:  \tRect(+3*3) \u{a0}\u{3000}\nCount:\u{2003}3\t\n \t \nAAkR\n=roE4\n";
    let board = Board::load_record(text.as_bytes()).unwrap();
    assert_eq!(board.bounds(), Bounds::Rect(3, 3));
    assert_eq!(board.index(), 3);
}

#[test]
fn load_takes_the_last_of_repeated_headers() {
    let text = "-----BEGIN CONNECT6 RECORD-----\nCount: 9\nBoard: Rect(1*1)\nBoard: Infinite\nCount: 3\n\nAAkR\n=roE4\n";
    let board = Board::load_record(text.as_bytes()).unwrap();
    assert_eq!(board.bounds(), Bounds::Infinite);
}

#[test]
fn load_accepts_body_in_other_line_lengths() {
    let text = "-----BEGIN CONNECT6 RECORD-----\n\n\nAA==\nCRE=\n\n=roE4\n";
    let board = Board::load_record(text.as_bytes()).unwrap();
    assert_eq!(board, small_board());
}

fn syntax_error(text: &str) -> &'static str {
    match Board::load_record(text.as_bytes()) {
        Err(LoadRecordError::Syntax(what)) => what,
        other => panic!("no syntax error: {:?}", other.err()),
    }
}

fn data_error(text: &str) -> &'static str {
    match Board::load_record(text.as_bytes()) {
        Err(LoadRecordError::Data(what)) => what,
        other => panic!("no data error: {:?}", other.err()),
    }
}

#[test]
fn load_rejects_missing_header_line() {
    assert_eq!(syntax_error(""), "expected header line");
    assert_eq!(syntax_error("\n"), "expected header line");
    assert_eq!(syntax_error("-----BEGIN CONNECT6 RECORD----- \n\n=zgS3\n"), "expected header line");
    assert_eq!(syntax_error("Board: Infinite\n\n=zgS3\n"), "expected header line");
}

#[test]
fn load_rejects_early_end() {
    assert_eq!(syntax_error("-----BEGIN CONNECT6 RECORD-----\n"), "unexpected EOF");
    assert_eq!(syntax_error("-----BEGIN CONNECT6 RECORD-----\nCount: 0\n"), "unexpected EOF");
    assert_eq!(syntax_error("-----BEGIN CONNECT6 RECORD-----\n\n"), "unexpected EOF");
    assert_eq!(syntax_error("-----BEGIN CONNECT6 RECORD-----\n\nAAkR\n"), "unexpected EOF");
}

#[test]
fn load_rejects_header_without_colon() {
    assert_eq!(
        syntax_error("-----BEGIN CONNECT6 RECORD-----\nBoard Infinite\n\n=zgS3\n"),
        "expected colon in header"
    );
}

#[test]
fn load_rejects_bad_board_header() {
    for value in ["", "infinite", "Rect(19)", "Rect(19*19", "Rect(*19)", "Rect(19*)", "Rect(1*2*3)", "Rect(-1*2)", "Rect(4294967296*1)", "Rect(1 *2)", "Rect(+*1)"] {
        let text = format!("-----BEGIN CONNECT6 RECORD-----\nBoard: {}\n\n=zgS3\n", value);
        assert_eq!(syntax_error(&text), "invalid header: Board");
    }
}

#[test]
fn load_accepts_largest_rect() {
    let text = "-----BEGIN CONNECT6 RECORD-----\nBoard: Rect(4294967295*0)\n\n=zgS3\n";
    let board = Board::load_record(text.as_bytes()).unwrap();
    assert_eq!(board.bounds(), Bounds::Rect(u32::MAX, 0));
}

#[test]
fn load_rejects_bad_count_header() {
    for value in ["", "x", "-1", "3.0", "+", "99999999999999999999999999", "1 2"] {
        let text = format!("-----BEGIN CONNECT6 RECORD-----\nCount: {}\n\n=zgS3\n", value);
        assert_eq!(syntax_error(&text), "invalid header: Count");
    }
}

#[test]
fn load_rejects_bad_checksum_line() {
    assert_eq!(syntax_error("-----BEGIN CONNECT6 RECORD-----\n\n=zgS\n"), "expected checksum");
    assert_eq!(syntax_error("-----BEGIN CONNECT6 RECORD-----\n\n=zgS3 \n"), "expected checksum");
    assert_eq!(syntax_error("-----BEGIN CONNECT6 RECORD-----\n\n=\n"), "expected checksum");
}

#[test]
fn load_rejects_bad_base64() {
    for text in [
        "-----BEGIN CONNECT6 RECORD-----\n\nAAk\n=roE4\n",
        "-----BEGIN CONNECT6 RECORD-----\n\nAA*R\n=roE4\n",
        "-----BEGIN CONNECT6 RECORD-----\n\nAAkR \n=roE4\n",
        "-----BEGIN CONNECT6 RECORD-----\n\nAAkR\n=ro!4\n",
        "-----BEGIN CONNECT6 RECORD-----\n\n-----END CONNECT6 RECORD-----\n",
    ] {
        match Board::load_record(text.as_bytes()) {
            Err(LoadRecordError::Base64(_)) => {}
            other => panic!("no base64 error: {:?}", other.err()),
        }
    }
}

#[test]
fn load_reports_the_decoder_error() {
    let text = "-----BEGIN CONNECT6 RECORD-----\n\nAA*R\n=roE4\n";
    match Board::load_record(text.as_bytes()) {
        Err(LoadRecordError::Base64(e)) => assert_eq!(e, base64::DecodeError::InvalidByte(2, b'*')),
        other => panic!("no base64 error: {:?}", other.err()),
    }
}

#[test]
fn load_rejects_wrong_checksum() {
    assert_eq!(
        data_error("-----BEGIN CONNECT6 RECORD-----\n\nAAkR\n=roE5\n"),
        "wrong checksum"
    );
    assert_eq!(data_error("-----BEGIN CONNECT6 RECORD-----\n\nAAkR\n=zgS3\n"), "wrong checksum");
}

#[test]
fn load_rejects_any_changed_byte_of_the_moves() {
    let raw: Vec<u8> = vec![0x00, 0x09, 0x11];
    let crc = c6::crc::crc24(&raw);
    assert!(replay(Bounds::Infinite, Some(3), &raw, crc).is_ok());
    for at in 0..raw.len() {
        for flip in 1..=255u8 {
            let mut changed = raw.clone();
            changed[at] ^= flip;
            match replay(Bounds::Infinite, None, &changed, crc) {
                Err(LoadRecordError::Data(what)) => assert_eq!(what, "wrong checksum"),
                other => panic!("accepted: {:?}", other.err()),
            }
        }
    }
}

#[test]
fn load_rejects_changed_body_text() {
    // "AAkR" with its second byte changed from 0x09 to 0x08
    assert_eq!(data_error("-----BEGIN CONNECT6 RECORD-----\nCount: 3\n\nAAgR\n=roE4\n"), "wrong checksum");
}

#[test]
fn load_rejects_wrong_count() {
    assert_eq!(
        data_error("-----BEGIN CONNECT6 RECORD-----\nCount: 2\n\nAAkR\n=roE4\n"),
        "wrong count"
    );
    assert_eq!(
        data_error("-----BEGIN CONNECT6 RECORD-----\nCount: 4\n\nAAkR\n=roE4\n"),
        "wrong count"
    );
    assert_eq!(data_error("-----BEGIN CONNECT6 RECORD-----\nCount: 1\n\n=zgS3\n"), "wrong count");
}

#[test]
fn replay_checks_in_order() {
    let raw: Vec<u8> = vec![0x00, 0x09, 0x11];
    let crc = c6::crc::crc24(&raw);
    assert_eq!(crc, 0x3881ae);
    let board = replay(Bounds::Infinite, None, &raw, crc).unwrap();
    assert_eq!(board, small_board());
    assert!(matches!(
        replay(Bounds::Infinite, Some(2), &raw, crc),
        Err(LoadRecordError::Data("wrong count"))
    ));
    assert!(matches!(
        replay(Bounds::Infinite, Some(2), &raw, crc + 1),
        Err(LoadRecordError::Data("wrong checksum"))
    ));
    // the second move lies outside, and the count is wrong too
    assert!(matches!(
        replay(Bounds::Rect(1, 1), Some(7), &raw, crc),
        Err(LoadRecordError::Place(SetError::OutOfBounds))
    ));
}

#[test]
fn replay_rejects_malformed_varint() {
    for raw in [vec![0x80u8], vec![0x00, 0x81], vec![0x80, 0x80, 0x80, 0x80, 0x80, 0x80, 0x80, 0x80, 0x80, 0x04]] {
        let crc = c6::crc::crc24(&raw);
        assert!(matches!(
            replay(Bounds::Infinite, None, &raw, crc),
            Err(LoadRecordError::Data("malformed varint"))
        ));
    }
}

#[test]
fn replay_rejects_repeated_and_outside_moves() {
    let raw: Vec<u8> = vec![0x00, 0x01];
    let crc = c6::crc::crc24(&raw);
    assert!(matches!(
        replay(Bounds::Infinite, None, &raw, crc),
        Err(LoadRecordError::Place(SetError::Occupied))
    ));
    let raw: Vec<u8> = vec![0x09];
    let crc = c6::crc::crc24(&raw);
    assert!(matches!(
        replay(Bounds::Rect(2, 2), None, &raw, crc),
        Err(LoadRecordError::Place(SetError::OutOfBounds))
    ));
    assert!(replay(Bounds::Rect(3, 2), None, &raw, crc).is_ok());
}

#[test]
fn load_reads_short_checksums_with_zero_high_bytes() {
    // the checksum line decodes to one byte; the checksum of no moves is 0xb704ce
    assert_eq!(data_error("-----BEGIN CONNECT6 RECORD-----\n\n=zg==\n"), "wrong checksum");
    assert_eq!(read_checksum(b"=zg==").unwrap(), 0xce);
    assert_eq!(read_checksum(b"=zgQ=").unwrap(), 0x04ce);
    assert_eq!(read_checksum(b"=zgS3").unwrap(), 0xb704ce);
}

#[test]
fn parse_bounds_values() {
    assert_eq!(parse_bounds_bytes(b"Infinite"), Some(Bounds::Infinite));
    assert_eq!(parse_bounds_bytes(b"Rect(19*19)"), Some(Bounds::Rect(19, 19)));
    assert_eq!(parse_bounds_bytes(b"Rect(007*+1)"), Some(Bounds::Rect(7, 1)));
    assert_eq!(parse_bounds_bytes(b"Rect(19,19)"), None);
    assert_eq!(parse_bounds_bytes(b"Rect("), None);
    assert_eq!(parse_bounds_bytes(b"Infinite "), None);
}

#[test]
fn writers_append() {
    let mut out = b"x".to_vec();
    write_head(&mut out, Bounds::Rect(3, 40), 12);
    assert_eq!(
        String::from_utf8(out).unwrap(),
        "x-----BEGIN CONNECT6 RECORD-----\nVersion: c6 0.1.0\nBoard: Rect(3*40)\nCount: 12\n\n"
    );
    let mut out = b"x".to_vec();
    write_checksum(&mut out, 0x3881ae);
    assert_eq!(out, b"x=roE4\n");
    let mut out = b"x".to_vec();
    write_body(&mut out, &[0u8; 49]);
    assert_eq!(
        String::from_utf8(out).unwrap(),
        "xAAAAAAAAAAAAAAAAAAAAAAAAAAAAAAAAAAAAAAAAAAAAAAAAAAAAAAAAAAAAAAAA\nAA==\n"
    );
    let mut out = b"x".to_vec();
    write_body(&mut out, &[]);
    assert_eq!(out, b"x");
}

#[test]
fn encode_moves_bytes() {
    let moves = [
        (Point::new(0, 0), Stone::Black),
        (Point::new(1, 0), Stone::White),
        (Point::new(0, 1), Stone::White),
        (Point::new(-9, -9), Stone::Black),
    ];
    assert_eq!(encode_record_moves(&moves), vec![0x00, 0x09, 0x11, 0x86, 0x0c]);
    assert_eq!(encode_record_moves(&[]), Vec::<u8>::new());
}

#[test]
fn error_messages() {
    assert_eq!(LoadRecordError::Syntax("unexpected EOF").message(), "syntax error: unexpected EOF");
    assert_eq!(LoadRecordError::Data("wrong count").message(), "corrupted data: wrong count");
    assert_eq!(
        LoadRecordError::Place(SetError::Occupied).message(),
        "unable to set on board: occupied"
    );
    assert_eq!(
        LoadRecordError::from(SetError::OutOfBounds).message(),
        "unable to set on board: out of bounds"
    );
    assert_eq!(
        LoadRecordError::Base64(base64::DecodeError::InvalidPadding).message(),
        "unable to decode base64: Invalid padding"
    );
    assert_eq!(SetError::Occupied.message(), "occupied");
    assert_eq!(SetError::OutOfBounds.message(), "out of bounds");
}
