use c6::crc::crc24;
use c6::text::{
    bytes_eq, find_byte, parse_number_bytes, push_bytes, push_decimal, strip_prefix,
    trim_end_bytes, trim_start_bytes, LineReader,
};
use c6::varint::{read_var_u65, write_var_u65};

fn var(hi: u64, lo: u8) -> Vec<u8> {
    let mut buf = Vec::new();
    write_var_u65(&mut buf, hi, lo);
    buf
}

#[test]
fn var_u65_known_bytes() {
    assert_eq!(var(0, 0), vec![0x00]);
    assert_eq!(var(0, 1), vec![0x01]);
    assert_eq!(var(63, 1), vec![0x7f]);
    assert_eq!(var(64, 0), vec![0x80, 0x01]);
    assert_eq!(var(300, 0), vec![0xd8, 0x04]);
    assert_eq!(var(1 << 62, 0), vec![0x80, 0x80, 0x80, 0x80, 0x80, 0x80, 0x80, 0x80, 0x80, 0x01]);
    assert_eq!(var(u64::MAX, 1), vec![0xff, 0xff, 0xff, 0xff, 0xff, 0xff, 0xff, 0xff, 0xff, 0x03]);
}

#[test]
fn var_u65_is_appended() {
    let mut buf = vec![7u8, 8];
    write_var_u65(&mut buf, 64, 1);
    write_var_u65(&mut buf, 1, 0);
    assert_eq!(buf, vec![7, 8, 0x81, 0x01, 0x02]);
}

#[test]
fn var_u65_round_trip() {
    let mut hi: u64 = 1;
    for _ in 0..200 {
        for lo in 0..2u8 {
            let mut bytes = var(hi, lo);
            let n = bytes.len();
            bytes.push(0xff);
            assert_eq!(read_var_u65(&bytes), Some((hi, lo, n)));
        }
        hi = hi.wrapping_mul(6364136223846793005).wrapping_add(1442695040888963407);
    }
    for shift in 0..64 {
        let hi = 1u64 << shift;
        assert_eq!(read_var_u65(&var(hi, 1)), Some((hi, 1, var(hi, 1).len())));
        assert_eq!(read_var_u65(&var(hi - 1, 0)), Some((hi - 1, 0, var(hi - 1, 0).len())));
    }
}

#[test]
fn var_u65_read_edges() {
    assert_eq!(read_var_u65(&[]), None);
    assert_eq!(read_var_u65(&[0x80]), None);
    assert_eq!(read_var_u65(&[0xff, 0xff]), None);
    assert_eq!(read_var_u65(&[0x05, 0x80]), Some((2, 1, 1)));
    // zero groups at the end are read
    assert_eq!(read_var_u65(&[0x80, 0x00]), Some((0, 0, 2)));
    assert_eq!(read_var_u65(&[0x82, 0x80, 0x00, 0x33]), Some((1, 0, 3)));
    // the tenth byte holds two bits and ends the number
    let nine = [0x80u8; 9];
    let mut ten = nine.to_vec();
    ten.push(0x03);
    assert_eq!(read_var_u65(&ten), Some((3 << 62, 0, 10)));
    ten[9] = 0x04;
    assert_eq!(read_var_u65(&ten), None);
    ten[9] = 0x80;
    assert_eq!(read_var_u65(&ten), None);
    ten[9] = 0x00;
    ten.push(0x01);
    assert_eq!(read_var_u65(&ten), Some((0, 0, 10)));
    assert_eq!(read_var_u65(&nine), None);
}

#[test]
fn crc24_known_values() {
    assert_eq!(crc24(b""), 0xb704ce);
    assert_eq!(crc24(b"123456789"), 0x21cf02);
    assert_eq!(crc24(&[0x00, 0x09, 0x11]), 0x3881ae);
}

#[test]
fn crc24_tells_one_changed_byte() {
    let data = b"the quick brown fox jumps over the lazy dog".to_vec();
    let crc = crc24(&data);
    for at in 0..data.len() {
        for flip in [1u8, 2, 0x80, 0xff, 0x55] {
            let mut changed = data.clone();
            changed[at] ^= flip;
            assert_ne!(crc24(&changed), crc);
        }
    }
}

#[test]
fn lines_are_split() {
    let text = b"one\r\ntwo\n\n\rfour\r\r\nlast";
    let mut reader = LineReader::new(text);
    assert_eq!(reader.read_line(), Some(&b"one"[..]));
    assert_eq!(reader.read_line(), Some(&b"two"[..]));
    assert_eq!(reader.read_line(), Some(&b""[..]));
    assert_eq!(reader.read_line(), Some(&b"\rfour\r"[..]));
    assert_eq!(reader.read_line(), Some(&b"last"[..]));
    assert_eq!(reader.read_line(), None);
    assert_eq!(reader.read_line(), None);
    let mut reader = LineReader::new(b"end\r");
    assert_eq!(reader.read_line(), Some(&b"end\r"[..]));
    assert_eq!(reader.read_line(), None);
    let mut reader = LineReader::new(b"\n");
    assert_eq!(reader.read_line(), Some(&b""[..]));
    assert_eq!(reader.read_line(), None);
    let mut reader = LineReader::new(b"");
    assert_eq!(reader.read_line(), None);
}

#[test]
fn trimming_agrees_with_str() {
    let samples = [
        "",
        " ",
        "a",
        " a ",
        "\t\n\x0b\x0c\r a b \r\n\t",
        "\u{85}x\u{a0}",
        "\u{1680}\u{2000}\u{200a}x y\u{2028}\u{2029}\u{202f}\u{205f}\u{3000}",
        "\u{200b}x\u{200b}",
        "\u{e000}",
        "x\u{3001}",
        "x\u{2001} \u{2002}",
        "é ",
        " é",
        "\u{a0}\u{a1}",
    ];
    for s in samples {
        assert_eq!(trim_end_bytes(s.as_bytes()), s.trim_end().as_bytes());
        assert_eq!(trim_start_bytes(s.as_bytes()), s.trim_start().as_bytes());
    }
}

#[test]
fn numbers_are_parsed_as_std_does() {
    let samples = [
        "", "0", "7", "+7", "-7", "++7", "+", "007", "19", "4294967295", "4294967296",
        "18446744073709551615", "18446744073709551616", "99999999999999999999", "1a", "a1",
        " 1", "1 ", "1_000", "+0", "000000000000000000000000000000001",
    ];
    for s in samples {
        assert_eq!(parse_number_bytes(s.as_bytes(), u64::MAX), s.parse::<u64>().ok());
        assert_eq!(
            parse_number_bytes(s.as_bytes(), u32::MAX as u64),
            s.parse::<u32>().ok().map(|v| v as u64)
        );
    }
    assert_eq!(parse_number_bytes(b"10", 9), None);
    assert_eq!(parse_number_bytes(b"9", 9), Some(9));
    assert_eq!(parse_number_bytes(b"0", 0), Some(0));
}

#[test]
fn decimals_are_written() {
    for n in [0u64, 1, 9, 10, 19, 361, 1000, 4294967295, u64::MAX] {
        let mut out = b"n=".to_vec();
        push_decimal(&mut out, n);
        assert_eq!(String::from_utf8(out).unwrap(), format!("n={}", n));
    }
}

#[test]
fn byte_helpers() {
    assert_eq!(find_byte(b"a:b:c", b':', 0), 1);
    assert_eq!(find_byte(b"a:b:c", b':', 2), 3);
    assert_eq!(find_byte(b"a:b:c", b':', 4), 5);
    assert_eq!(find_byte(b"a:b:c", b'x', 0), 5);
    assert_eq!(find_byte(b"", b'x', 0), 0);
    assert!(bytes_eq(b"Board", b"Board"));
    assert!(!bytes_eq(b"Board", b"board"));
    assert!(!bytes_eq(b"Board", b"Boar"));
    assert!(bytes_eq(b"", b""));
    assert_eq!(strip_prefix(b"Rect(1*2)", b"Rect("), Some(&b"1*2)"[..]));
    assert_eq!(strip_prefix(b"Rect(", b"Rect("), Some(&b""[..]));
    assert_eq!(strip_prefix(b"Rec", b"Rect("), None);
    assert_eq!(strip_prefix(b"rect(1", b"Rect("), None);
    let mut out = vec![1u8];
    push_bytes(&mut out, &[2, 3]);
    push_bytes(&mut out, &[]);
    assert_eq!(out, vec![1, 2, 3]);
}
