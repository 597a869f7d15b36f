use crate::board::{Board, BoardView, SetError};
use crate::bounds::Bounds;
use crate::crc::{crc24, crc24_of};
use crate::point::Point;
use crate::stone::Stone;
use crate::text::{
    bytes_eq, decimal, find_byte, first_index, lemma_next_line, next_line, parse_number,
    parse_number_bytes, push_bytes, push_decimal, strip_prefix, trim_end, trim_end_bytes,
    trim_start, trim_start_bytes, LineReader, CLOSING_BRACKET, COLON, EQUALS, LINE_FEED, STAR,
};
use crate::transport::{
    base64_decoded, base64_len, base64_of, decode_vec, encode_slice, is_base64_byte,
};
use crate::varint::{
    lemma_parse_var_u65_bounds, parse_var_u65, read_var_u65, var_u65, write_var_u65,
};
use vstd::prelude::*;
use vstd::string::StringExecFns;
use vstd::string::StringSliceAdditionalSpecFns;

verus! {

/// Why a record could not be loaded.
#[derive(Debug)]
pub enum LoadRecordError {
    /// The text is no record: a line is missing or malformed.
    Syntax(&'static str),
    /// A line of the body or the checksum is no base64 text.
    Base64(base64::DecodeError),
    /// The text is a record, but what it holds is inconsistent.
    Data(&'static str),
    /// A move of the record cannot be placed on the board.
    Place(SetError),
}

impl LoadRecordError {
    /// The error in words: what kind of error it is, and after that what went
    /// wrong. For `Base64` the second part is the decoder's own text.
    pub fn message(&self) -> (r: String)
        ensures
            match *self {
                LoadRecordError::Syntax(what) => r@ == "syntax error: "@ + what@,
                LoadRecordError::Base64(_) => r@.len() >= "unable to decode base64: "@.len()
                    && r@.take("unable to decode base64: "@.len() as int)
                    == "unable to decode base64: "@,
                LoadRecordError::Data(what) => r@ == "corrupted data: "@ + what@,
                LoadRecordError::Place(e) => r@ == "unable to set on board: "@
                    + e.spec_message()@,
            },
    {
        match self {
            LoadRecordError::Syntax(what) => String::from_str("syntax error: ").concat(what),
            LoadRecordError::Base64(e) => {
                let r = String::from_str("unable to decode base64: ").concat(
                    e.to_string().as_str(),
                );
                assert(r@.take("unable to decode base64: "@.len() as int)
                    =~= "unable to decode base64: "@);
                r
            },
            LoadRecordError::Data(what) => String::from_str("corrupted data: ").concat(what),
            LoadRecordError::Place(e) => String::from_str("unable to set on board: ").concat(
                e.message(),
            ),
        }
    }
}

impl From<SetError> for LoadRecordError {
    fn from(e: SetError) -> (r: LoadRecordError) {
        LoadRecordError::Place(e)
    }
}

impl vstd::std_specs::convert::FromSpecImpl<SetError> for LoadRecordError {
    open spec fn obeys_from_spec() -> bool {
        true
    }

    open spec fn from_spec(e: SetError) -> LoadRecordError {
        LoadRecordError::Place(e)
    }
}

/// The first line of a record.
pub open spec fn header_line() -> Seq<u8> {
    "-----BEGIN CONNECT6 RECORD-----".spec_bytes()
}

/// The last line of a record.
pub open spec fn tail_line() -> Seq<u8> {
    "-----END CONNECT6 RECORD-----".spec_bytes()
}

/// The bounds that the value of a `Board` header stands for: `Infinite`, or
/// `Rect(` width `*` height `)` with both numbers in 32 bits.
pub open spec fn parse_bounds(s: Seq<u8>) -> Option<Bounds> {
    if s == "Infinite".spec_bytes() {
        Some(Bounds::Infinite)
    } else if !(s.len() >= 6 && s.take(5) == "Rect(".spec_bytes() && s.last() == CLOSING_BRACKET) {
        None
    } else {
        let inner = s.subrange(5, s.len() - 1);
        let star = first_index(inner, STAR, 0);
        if star >= inner.len() {
            None
        } else {
            match (
                parse_number(inner.take(star), u32::MAX as nat),
                parse_number(inner.skip(star + 1), u32::MAX as nat),
            ) {
                (Some(width), Some(height)) => Some(Bounds::Rect(width as u32, height as u32)),
                _ => None,
            }
        }
    }
}

/// What the header lines from `pos` on say, up to the empty line that ends them:
/// the bounds, the count of moves where one is given, and where the body starts.
/// `bounds` and `count` are what the lines before `pos` said. A later `Board` or
/// `Count` line overrides an earlier one, and lines with other keys say nothing.
#[verifier::opaque]
pub open spec fn parse_head(text: Seq<u8>, pos: int, bounds: Bounds, count: Option<nat>) -> Result<
    (Bounds, Option<nat>, int),
    LoadRecordError,
>
    decreases text.len() - pos,
{
    match next_line(text, pos) {
        None => Err(LoadRecordError::Syntax("unexpected EOF")),
        Some((raw_line, next)) => {
            let line = trim_end(raw_line);
            let colon = first_index(line, COLON, 0);
            if line.len() == 0 {
                Ok((bounds, count, next))
            } else if colon >= line.len() {
                Err(LoadRecordError::Syntax("expected colon in header"))
            } else {
                let key = line.take(colon);
                let value = trim_start(line.skip(colon + 1));
                proof {
                    lemma_next_line(text, pos);
                }
                if key == "Board".spec_bytes() {
                    match parse_bounds(value) {
                        None => Err(LoadRecordError::Syntax("invalid header: Board")),
                        Some(given) => parse_head(text, next, given, count),
                    }
                } else if key == "Count".spec_bytes() {
                    match parse_number(value, usize::MAX as nat) {
                        None => Err(LoadRecordError::Syntax("invalid header: Count")),
                        Some(given) => parse_head(text, next, bounds, Some(given)),
                    }
                } else {
                    parse_head(text, next, bounds, count)
                }
            }
        },
    }
}

/// What the body lines from `pos` on hold, up to the first line that starts
/// with `=`: the bytes that the lines decode to, one after the other, behind
/// `raw`, and that line.
#[verifier::opaque]
pub open spec fn parse_body(text: Seq<u8>, pos: int, raw: Seq<u8>) -> Result<
    (Seq<u8>, Seq<u8>),
    LoadRecordError,
>
    decreases text.len() - pos,
{
    match next_line(text, pos) {
        None => Err(LoadRecordError::Syntax("unexpected EOF")),
        Some((line, next)) => {
            proof {
                lemma_next_line(text, pos);
            }
            if line.len() > 0 && line[0] == EQUALS {
                Ok((raw, line))
            } else {
                match base64_decoded(line) {
                    Err(e) => Err(LoadRecordError::Base64(e)),
                    Ok(bytes) => parse_body(text, next, raw + bytes),
                }
            }
        },
    }
}

/// The number that `bytes` make, the low byte first.
pub open spec fn le_value(bytes: Seq<u8>) -> nat
    decreases bytes.len(),
{
    if bytes.len() == 0 {
        0
    } else {
        bytes[0] as nat + 256 * le_value(bytes.skip(1))
    }
}

/// The checksum that a checksum line gives: the line is `=` and four
/// characters of base64, which decode to the checksum's bytes, the low byte first.
pub open spec fn parse_checksum(line: Seq<u8>) -> Result<nat, LoadRecordError> {
    if !(line.len() == 5 && line[0] == EQUALS) {
        Err(LoadRecordError::Syntax("expected checksum"))
    } else {
        match base64_decoded(line.skip(1)) {
            Err(e) => Err(LoadRecordError::Base64(e)),
            Ok(bytes) => Ok(le_value(bytes)),
        }
    }
}

/// The board after the moves that `raw` holds, one var-u65 each, were placed on
/// `view` in order. The first var-u65 that is malformed and the first move that
/// cannot be placed end it with an error.
pub open spec fn replay_moves(view: BoardView, raw: Seq<u8>) -> Result<BoardView, LoadRecordError>
    decreases raw.len(),
{
    if raw.len() == 0 {
        Ok(view)
    } else {
        match parse_var_u65(raw) {
            None => Err(LoadRecordError::Data("malformed varint")),
            Some((hi, lo, n)) => {
                let placed = view.spec_set(Point::spec_from_index(hi), Stone::spec_from_bit(lo));
                match placed.0 {
                    Err(e) => Err(LoadRecordError::Place(e)),
                    Ok(_) => {
                        proof {
                            lemma_parse_var_u65_bounds(raw);
                        }
                        replay_moves(placed.1, raw.skip(n as int))
                    },
                }
            },
        }
    }
}

/// The board that a record with these bounds, this count, these bytes of moves
/// and this checksum stands for. The checksum is looked at first, then the
/// moves, then the count.
pub open spec fn replayed(bounds: Bounds, count: Option<nat>, raw: Seq<u8>, crc: nat) -> Result<
    BoardView,
    LoadRecordError,
> {
    if crc != crc24_of(raw) {
        Err(LoadRecordError::Data("wrong checksum"))
    } else {
        match replay_moves(BoardView::spec_new(bounds), raw) {
            Err(e) => Err(e),
            Ok(view) => if count is Some && count != Some(view.cursor) {
                Err(LoadRecordError::Data("wrong count"))
            } else {
                Ok(view)
            },
        }
    }
}

/// The board that the text of a record stands for, or why it stands for none.
pub open spec fn parse_record(text: Seq<u8>) -> Result<BoardView, LoadRecordError> {
    match next_line(text, 0) {
        None => Err(LoadRecordError::Syntax("expected header line")),
        Some((first, after_first)) => if first != header_line() {
            Err(LoadRecordError::Syntax("expected header line"))
        } else {
            match parse_head(text, after_first, Bounds::Infinite, None) {
                Err(e) => Err(e),
                Ok((bounds, count, body)) => match parse_body(text, body, Seq::empty()) {
                    Err(e) => Err(e),
                    Ok((raw, line)) => match parse_checksum(line) {
                        Err(e) => Err(e),
                        Ok(crc) => replayed(bounds, count, raw, crc),
                    },
                },
            }
        },
    }
}

/// The bytes of the words of the format.
pub proof fn lemma_words()
    ensures
        "Infinite".spec_bytes() == seq![73u8, 110, 102, 105, 110, 105, 116, 101],
        "Rect(".spec_bytes() == seq![82u8, 101, 99, 116, 40],
        "Board".spec_bytes() == seq![66u8, 111, 97, 114, 100],
        "Count".spec_bytes() == seq![67u8, 111, 117, 110, 116],
        "Board: ".spec_bytes() == seq![66u8, 111, 97, 114, 100, 58, 32],
        "Count: ".spec_bytes() == seq![67u8, 111, 117, 110, 116, 58, 32],
        "Version: c6 0.1.0".spec_bytes() == seq![86u8, 101, 114, 115, 105, 111, 110, 58, 32, 99, 54, 32, 48, 46, 49, 46, 48],
        "-----BEGIN CONNECT6 RECORD-----".spec_bytes() == seq![45u8, 45, 45, 45, 45, 66, 69, 71, 73, 78, 32, 67, 79, 78, 78, 69, 67, 84, 54, 32, 82, 69, 67, 79, 82, 68, 45, 45, 45, 45, 45],
        "-----END CONNECT6 RECORD-----".spec_bytes() == seq![45u8, 45, 45, 45, 45, 69, 78, 68, 32, 67, 79, 78, 78, 69, 67, 84, 54, 32, 82, 69, 67, 79, 82, 68, 45, 45, 45, 45, 45],
{
    reveal_strlit("Infinite");
    reveal_strlit("Rect(");
    reveal_strlit("Board");
    reveal_strlit("Count");
    reveal_strlit("Board: ");
    reveal_strlit("Count: ");
    reveal_strlit("Version: c6 0.1.0");
    reveal_strlit("-----BEGIN CONNECT6 RECORD-----");
    reveal_strlit("-----END CONNECT6 RECORD-----");
    vstd::utf8::is_ascii_chars_encode_utf8("Infinite"@);
    vstd::utf8::is_ascii_chars_encode_utf8("Rect("@);
    vstd::utf8::is_ascii_chars_encode_utf8("Board"@);
    vstd::utf8::is_ascii_chars_encode_utf8("Count"@);
    vstd::utf8::is_ascii_chars_encode_utf8("Board: "@);
    vstd::utf8::is_ascii_chars_encode_utf8("Count: "@);
    vstd::utf8::is_ascii_chars_encode_utf8("Version: c6 0.1.0"@);
    vstd::utf8::is_ascii_chars_encode_utf8("-----BEGIN CONNECT6 RECORD-----"@);
    vstd::utf8::is_ascii_chars_encode_utf8("-----END CONNECT6 RECORD-----"@);
    assert("Infinite".spec_bytes() =~= seq![73u8, 110, 102, 105, 110, 105, 116, 101]);
    assert("Rect(".spec_bytes() =~= seq![82u8, 101, 99, 116, 40]);
    assert("Board".spec_bytes() =~= seq![66u8, 111, 97, 114, 100]);
    assert("Count".spec_bytes() =~= seq![67u8, 111, 117, 110, 116]);
    assert("Board: ".spec_bytes() =~= seq![66u8, 111, 97, 114, 100, 58, 32]);
    assert("Count: ".spec_bytes() =~= seq![67u8, 111, 117, 110, 116, 58, 32]);
    assert("Version: c6 0.1.0".spec_bytes() =~= seq![86u8, 101, 114, 115, 105, 111, 110, 58, 32, 99, 54, 32, 48, 46, 49, 46, 48]);
    assert("-----BEGIN CONNECT6 RECORD-----".spec_bytes() =~= seq![45u8, 45, 45, 45, 45, 66, 69, 71, 73, 78, 32, 67, 79, 78, 78, 69, 67, 84, 54, 32, 82, 69, 67, 79, 82, 68, 45, 45, 45, 45, 45]);
    assert("-----END CONNECT6 RECORD-----".spec_bytes() =~= seq![45u8, 45, 45, 45, 45, 69, 78, 68, 32, 67, 79, 78, 78, 69, 67, 84, 54, 32, 82, 69, 67, 79, 82, 68, 45, 45, 45, 45, 45]);
}

/// Reads the value of a `Board` header.
pub fn parse_bounds_bytes(s: &[u8]) -> (r: Option<Bounds>)
    ensures
        r == parse_bounds(s@),
{
    if bytes_eq(s, "Infinite".as_bytes()) {
        return Some(Bounds::Infinite);
    }
    proof {
        lemma_words();
    }
    let inner = match strip_prefix(s, "Rect(".as_bytes()) {
        None => {
            return None;
        },
        Some(rest) => rest,
    };
    proof {
        lemma_words();
        assert(s@.take(5) =~= "Rect(".spec_bytes());
    }
    if inner.len() == 0 || inner[inner.len() - 1] != CLOSING_BRACKET {
        return None;
    }
    let inner = &inner[0..inner.len() - 1];
    assert(inner@ =~= s@.subrange(5, s@.len() - 1));
    let star = find_byte(inner, STAR, 0);
    if star >= inner.len() {
        return None;
    }
    let x = &inner[0..star];
    let y = &inner[star + 1..inner.len()];
    assert(x@ =~= inner@.take(star as int));
    assert(y@ =~= inner@.skip(star + 1));
    match (parse_number_bytes(x, u32::MAX as u64), parse_number_bytes(y, u32::MAX as u64)) {
        (Some(width), Some(height)) => Some(Bounds::Rect(width as u32, height as u32)),
        _ => None,
    }
}

/// A count of moves as a number without bound.
pub open spec fn count_of(count: Option<usize>) -> Option<nat> {
    match count {
        None => None,
        Some(n) => Some(n as nat),
    }
}

/// Reads the header lines that follow the first line, up to the empty line that
/// ends them.
pub fn read_head<'a>(reader: &mut LineReader<'a>) -> (r: Result<
    (Bounds, Option<usize>),
    LoadRecordError,
>)
    requires
        old(reader).wf(),
    ensures
        final(reader).wf(),
        final(reader).text() == old(reader).text(),
        match r {
            Ok((bounds, count)) => parse_head(
                old(reader).text(),
                old(reader).pos(),
                Bounds::Infinite,
                None,
            ) == Ok::<(Bounds, Option<nat>, int), LoadRecordError>(
                (bounds, count_of(count), final(reader).pos()),
            ),
            Err(e) => parse_head(old(reader).text(), old(reader).pos(), Bounds::Infinite, None)
                == Err::<(Bounds, Option<nat>, int), LoadRecordError>(e),
        },
{
    let mut bounds = Bounds::Infinite;
    let mut count: Option<usize> = None;
    let ghost text = reader.text();
    let ghost whole = parse_head(text, reader.pos(), Bounds::Infinite, None);
    loop
        invariant
            reader.wf(),
            reader.text() == text,
            text == old(reader).text(),
            whole == parse_head(text, old(reader).pos(), Bounds::Infinite, None),
            whole == parse_head(text, reader.pos(), bounds, count_of(count)),
        decreases text.len() - reader.pos(),
    {
        proof {
            reveal(parse_head);
            lemma_next_line(text, reader.pos());
            lemma_words();
        }
        let line = match reader.read_line() {
            None => {
                return Err(LoadRecordError::Syntax("unexpected EOF"));
            },
            Some(line) => line,
        };
        let line = trim_end_bytes(line);
        if line.len() == 0 {
            return Ok((bounds, count));
        }
        let colon = find_byte(line, COLON, 0);
        if colon >= line.len() {
            return Err(LoadRecordError::Syntax("expected colon in header"));
        }
        let key = &line[0..colon];
        let value = trim_start_bytes(&line[colon + 1..line.len()]);
        assert(key@ =~= line@.take(colon as int));
        assert(line@.subrange(colon + 1, line@.len() as int) =~= line@.skip(colon + 1));
        if bytes_eq(key, "Board".as_bytes()) {
            match parse_bounds_bytes(value) {
                None => {
                    return Err(LoadRecordError::Syntax("invalid header: Board"));
                },
                Some(given) => {
                    bounds = given;
                },
            }
        } else if bytes_eq(key, "Count".as_bytes()) {
            match parse_number_bytes(value, usize::MAX as u64) {
                None => {
                    return Err(LoadRecordError::Syntax("invalid header: Count"));
                },
                Some(given) => {
                    count = Some(given as usize);
                },
            }
        }
    }
}

/// Reads the body lines, up to the first line that starts with `=`, and gives
/// the bytes that they decode to and that line.
pub fn read_body<'a>(reader: &mut LineReader<'a>) -> (r: Result<(Vec<u8>, &'a [u8]), LoadRecordError>)
    requires
        old(reader).wf(),
    ensures
        final(reader).wf(),
        final(reader).text() == old(reader).text(),
        match r {
            Ok((raw, line)) => parse_body(old(reader).text(), old(reader).pos(), Seq::empty())
                == Ok::<(Seq<u8>, Seq<u8>), LoadRecordError>((raw@, line@)),
            Err(e) => parse_body(old(reader).text(), old(reader).pos(), Seq::empty()) == Err::<
                (Seq<u8>, Seq<u8>),
                LoadRecordError,
            >(e),
        },
{
    let mut rec_buf: Vec<u8> = Vec::new();
    let ghost text = reader.text();
    let ghost whole = parse_body(text, reader.pos(), Seq::empty());
    loop
        invariant
            reader.wf(),
            reader.text() == text,
            text == old(reader).text(),
            whole == parse_body(text, old(reader).pos(), Seq::empty()),
            whole == parse_body(text, reader.pos(), rec_buf@),
        decreases text.len() - reader.pos(),
    {
        proof {
            reveal(parse_body);
            lemma_next_line(text, reader.pos());
        }
        let line = match reader.read_line() {
            None => {
                return Err(LoadRecordError::Syntax("unexpected EOF"));
            },
            Some(line) => line,
        };
        if line.len() > 0 && line[0] == EQUALS {
            return Ok((rec_buf, line));
        }
        let mut part: Vec<u8> = Vec::new();
        match decode_vec(line, &mut part) {
            Err(e) => {
                return Err(LoadRecordError::Base64(e));
            },
            Ok(()) => {
                assert(part@.skip(0) =~= part@);
                rec_buf.append(&mut part);
            },
        }
    }
}

/// Reads the checksum line.
pub fn read_checksum(line: &[u8]) -> (r: Result<u32, LoadRecordError>)
    ensures
        match r {
            Ok(crc) => parse_checksum(line@) == Ok::<nat, LoadRecordError>(crc as nat),
            Err(e) => parse_checksum(line@) == Err::<nat, LoadRecordError>(e),
        },
{
    if !(line.len() == 5 && line[0] == EQUALS) {
        return Err(LoadRecordError::Syntax("expected checksum"));
    }
    let mut crc: Vec<u8> = Vec::new();
    let coded = &line[1..5];
    assert(coded@ =~= line@.skip(1));
    match decode_vec(coded, &mut crc) {
        Err(e) => Err(LoadRecordError::Base64(e)),
        Ok(()) => {
            assert(crc@.skip(0) =~= crc@);
            let b0: u32 = if crc.len() > 0 {
                crc[0] as u32
            } else {
                0
            };
            let b1: u32 = if crc.len() > 1 {
                crc[1] as u32
            } else {
                0
            };
            let b2: u32 = if crc.len() > 2 {
                crc[2] as u32
            } else {
                0
            };
            proof {
                lemma_le_value_of_three(crc@);
            }
            Ok(b0 + 256 * b1 + 65536 * b2)
        },
    }
}

/// The number that up to three bytes make, the low byte first.
pub proof fn lemma_le_value_of_three(bytes: Seq<u8>)
    requires
        bytes.len() <= 3,
    ensures
        le_value(bytes) == (if bytes.len() > 0 {
            bytes[0] as nat
        } else {
            0
        }) + 256 * (if bytes.len() > 1 {
            bytes[1] as nat
        } else {
            0
        }) + 65536 * (if bytes.len() > 2 {
            bytes[2] as nat
        } else {
            0
        }),
{
    reveal_with_fuel(le_value, 4);
    if bytes.len() > 0 {
        let b = bytes.skip(1);
        if b.len() > 0 {
            let c = b.skip(1);
            assert(b[0] == bytes[1]);
            if c.len() > 0 {
                assert(c[0] == bytes[2]);
                assert(c.skip(1).len() == 0);
            }
        }
    }
}

/// Builds the board of a record from what its lines hold: the bounds, the count
/// of moves where one was given, the bytes of the moves and the checksum.
pub fn replay(bounds: Bounds, count: Option<usize>, raw: &[u8], crc: u32) -> (r: Result<
    Board,
    LoadRecordError,
>)
    ensures
        match r {
            Ok(board) => board.wf() && replayed(bounds, count_of(count), raw@, crc as nat) == Ok::<
                BoardView,
                LoadRecordError,
            >(board@),
            Err(e) => replayed(bounds, count_of(count), raw@, crc as nat) == Err::<
                BoardView,
                LoadRecordError,
            >(e),
        },
{
    if crc != crc24(raw) {
        return Err(LoadRecordError::Data("wrong checksum"));
    }
    let mut board = Board::new(bounds);
    let mut pos: usize = 0;
    let ghost whole = replay_moves(BoardView::spec_new(bounds), raw@);
    assert(raw@.skip(0) =~= raw@);
    while pos < raw.len()
        invariant
            pos <= raw.len(),
            board.wf(),
            crc == crc24_of(raw@),
            whole == replay_moves(BoardView::spec_new(bounds), raw@),
            whole == replay_moves(board@, raw@.skip(pos as int)),
        decreases raw.len() - pos,
    {
        let rest = &raw[pos..raw.len()];
        assert(rest@ =~= raw@.skip(pos as int));
        let (point_i, stone_i, n) = match read_var_u65(rest) {
            None => {
                return Err(LoadRecordError::Data("malformed varint"));
            },
            Some(read) => read,
        };
        proof {
            lemma_parse_var_u65_bounds(rest@);
            assert(rest@.skip(n as int) =~= raw@.skip(pos + n));
        }
        let point = Point::from_index(point_i);
        let stone = Stone::from_bit(stone_i);
        match board.set(point, stone) {
            Err(e) => {
                return Err(LoadRecordError::Place(e));
            },
            Ok(()) => {},
        }
        pos += n;
    }
    let actual_count = board.index();
    match count {
        Some(count) => {
            if count != actual_count {
                return Err(LoadRecordError::Data("wrong count"));
            }
        },
        None => {},
    }
    Ok(board)
}

impl Board {
    /// Reads a board from the text of a record.
    pub fn load_record(text: &[u8]) -> (r: Result<Board, LoadRecordError>)
        ensures
            match r {
                Ok(board) => board.wf() && parse_record(text@) == Ok::<BoardView, LoadRecordError>(
                    board@,
                ),
                Err(e) => parse_record(text@) == Err::<BoardView, LoadRecordError>(e),
            },
    {
        let mut reader = LineReader::new(text);
        match reader.read_line() {
            None => {
                return Err(LoadRecordError::Syntax("expected header line"));
            },
            Some(first) => {
                if !bytes_eq(first, "-----BEGIN CONNECT6 RECORD-----".as_bytes()) {
                    return Err(LoadRecordError::Syntax("expected header line"));
                }
            },
        }
        let (bounds, count) = match read_head(&mut reader) {
            Err(e) => {
                return Err(e);
            },
            Ok(head) => head,
        };
        let (rec_buf, line) = match read_body(&mut reader) {
            Err(e) => {
                return Err(e);
            },
            Ok(body) => body,
        };
        let crc = match read_checksum(line) {
            Err(e) => {
                return Err(e);
            },
            Ok(crc) => crc,
        };
        replay(bounds, count, rec_buf.as_slice(), crc)
    }
}

/// The line that names the writer of a record.
pub open spec fn version_line() -> Seq<u8> {
    "Version: c6 0.1.0".spec_bytes()
}

/// A line of text with its end.
pub open spec fn line(s: Seq<u8>) -> Seq<u8> {
    s.push(LINE_FEED)
}

/// The value of the `Board` header for `bounds`.
pub open spec fn bounds_text(bounds: Bounds) -> Seq<u8> {
    match bounds {
        Bounds::Infinite => "Infinite".spec_bytes(),
        Bounds::Rect(width, height) => "Rect(".spec_bytes() + decimal(width as nat) + seq![STAR]
            + decimal(height as nat) + seq![CLOSING_BRACKET],
    }
}

/// The lines of a record before its body: the first line, the writer, the bounds,
/// the count of moves and an empty line.
pub open spec fn head_text(bounds: Bounds, count: nat) -> Seq<u8> {
    line(header_line()) + line(version_line()) + line("Board: ".spec_bytes() + bounds_text(bounds))
        + line("Count: ".spec_bytes() + decimal(count)) + line(Seq::empty())
}

/// The bytes of a move in a record: the var-u65 of the point's Morton key with
/// the stone's bit below it.
pub open spec fn move_bytes(m: (Point, Stone)) -> Seq<u8> {
    var_u65(m.0.spec_index(), m.1.spec_bit())
}

/// The bytes of the moves of a record, one after the other.
pub open spec fn encode_moves(moves: Seq<(Point, Stone)>) -> Seq<u8>
    decreases moves.len(),
{
    if moves.len() == 0 {
        Seq::empty()
    } else {
        move_bytes(moves[0]) + encode_moves(moves.skip(1))
    }
}

/// How many bytes of moves a line of the body holds at most.
pub const BYTES_PER_LINE: usize = 48;

/// The first bytes of `raw`, as many as a line of the body holds.
pub open spec fn first_chunk(raw: Seq<u8>) -> Seq<u8> {
    if raw.len() > BYTES_PER_LINE {
        raw.take(BYTES_PER_LINE as int)
    } else {
        raw
    }
}

/// The body of a record: the bytes of the moves in base64, 48 bytes to a line.
pub open spec fn body_text(raw: Seq<u8>) -> Seq<u8>
    decreases raw.len(),
{
    if raw.len() == 0 {
        Seq::empty()
    } else {
        line(base64_of(first_chunk(raw))) + body_text(raw.skip(first_chunk(raw).len() as int))
    }
}

/// The three bytes of a checksum, the low byte first.
pub open spec fn checksum_bytes(crc: nat) -> Seq<u8> {
    seq![(crc % 256) as u8, (crc / 256 % 256) as u8, (crc / 65536 % 256) as u8]
}

/// The text of a record that gives these bounds, this count, these bytes of
/// moves and this checksum.
pub open spec fn record_text_of(bounds: Bounds, count: nat, raw: Seq<u8>, crc: nat) -> Seq<u8> {
    head_text(bounds, count) + body_text(raw) + line(
        seq![EQUALS] + base64_of(checksum_bytes(crc)),
    ) + line(tail_line())
}

/// The text of the record of a board with these bounds and these applied moves.
pub open spec fn record_text(bounds: Bounds, moves: Seq<(Point, Stone)>) -> Seq<u8> {
    let raw = encode_moves(moves);
    record_text_of(bounds, moves.len(), raw, crc24_of(raw) as nat)
}

/// What is believed of the base64 coder, said of `chunk`: its text has four
/// characters for every three bytes begun, all of them base64 characters, the
/// first no padding, and the decoder gives `chunk` back for it.
pub open spec fn coded_well(chunk: Seq<u8>) -> bool {
    let coded = base64_of(chunk);
    &&& coded.len() == base64_len(chunk.len())
    &&& base64_decoded(coded) matches Ok(back) && back == chunk
    &&& forall|i: int| 0 <= i < coded.len() ==> is_base64_byte(#[trigger] coded[i])
    &&& chunk.len() > 0 ==> coded[0] != EQUALS
}

/// `coded_well` of every chunk that a line of the body holds.
pub open spec fn body_coded_well(raw: Seq<u8>) -> bool
    decreases raw.len(),
{
    raw.len() == 0 || (coded_well(first_chunk(raw)) && body_coded_well(
        raw.skip(first_chunk(raw).len() as int),
    ))
}

/// The bytes of some moves and one more are those of the moves and then those of
/// the one.
pub proof fn lemma_encode_moves_push(moves: Seq<(Point, Stone)>, m: (Point, Stone))
    ensures
        encode_moves(moves.push(m)) == encode_moves(moves) + move_bytes(m),
    decreases moves.len(),
{
    let all = moves.push(m);
    if moves.len() == 0 {
        assert(all.skip(1) =~= Seq::empty());
        assert(all[0] == m);
        assert(encode_moves(all.skip(1)) =~= Seq::<u8>::empty());
        assert(encode_moves(all) =~= move_bytes(m));
        assert(encode_moves(moves) + move_bytes(m) =~= move_bytes(m));
    } else {
        lemma_encode_moves_push(moves.skip(1), m);
        assert(all.skip(1) =~= moves.skip(1).push(m));
        assert(encode_moves(all) =~= encode_moves(moves) + move_bytes(m));
    }
}

/// The bytes of the moves of a record.
pub fn encode_record_moves(moves: &[(Point, Stone)]) -> (buf: Vec<u8>)
    ensures
        buf@ == encode_moves(moves@),
{
    let mut buf: Vec<u8> = Vec::new();
    let mut i: usize = 0;
    while i < moves.len()
        invariant
            i <= moves.len(),
            buf@ == encode_moves(moves@.take(i as int)),
        decreases moves.len() - i,
    {
        let (point, stone) = moves[i];
        proof {
            lemma_encode_moves_push(moves@.take(i as int), moves@[i as int]);
            assert(moves@.take(i + 1) =~= moves@.take(i as int).push(moves@[i as int]));
            crate::point::lemma_index_round_trip(point);
        }
        write_var_u65(&mut buf, point.index(), stone.bit());
        i += 1;
    }
    assert(moves@.take(i as int) =~= moves@);
    buf
}

/// Appends the lines of a record before its body to `out`.
pub fn write_head(out: &mut Vec<u8>, bounds: Bounds, count: usize)
    ensures
        final(out)@ == old(out)@ + head_text(bounds, count as nat),
{
    let ghost start = out@;
    push_bytes(out, "-----BEGIN CONNECT6 RECORD-----".as_bytes());
    out.push(LINE_FEED);
    push_bytes(out, "Version: c6 0.1.0".as_bytes());
    out.push(LINE_FEED);
    push_bytes(out, "Board: ".as_bytes());
    match bounds {
        Bounds::Infinite => {
            push_bytes(out, "Infinite".as_bytes());
        },
        Bounds::Rect(x, y) => {
            push_bytes(out, "Rect(".as_bytes());
            push_decimal(out, x as u64);
            out.push(STAR);
            push_decimal(out, y as u64);
            out.push(CLOSING_BRACKET);
        },
    }
    out.push(LINE_FEED);
    push_bytes(out, "Count: ".as_bytes());
    push_decimal(out, count as u64);
    out.push(LINE_FEED);
    out.push(LINE_FEED);
    assert(out@ =~= start + head_text(bounds, count as nat));
}

/// Appends the body of a record, the base64 lines of `raw`, to `out`.
pub fn write_body(out: &mut Vec<u8>, raw: &[u8])
    ensures
        final(out)@ == old(out)@ + body_text(raw@),
        body_coded_well(raw@),
{
    let mut b64_buf: Vec<u8> = Vec::new();
    while b64_buf.len() < 64
        invariant
            b64_buf.len() <= 64,
        decreases 64 - b64_buf.len(),
    {
        b64_buf.push(0);
    }
    let mut i: usize = 0;
    assert(raw@.skip(0) =~= raw@);
    assert(old(out)@ + body_text(raw@) =~= out@ + body_text(raw@.skip(0)));
    while i < raw.len()
        invariant
            i <= raw.len(),
            b64_buf.len() == 64,
            old(out)@ + body_text(raw@) == out@ + body_text(raw@.skip(i as int)),
            body_coded_well(raw@.skip(i as int)) ==> body_coded_well(raw@),
        decreases raw.len() - i,
    {
        let end = if raw.len() - i > BYTES_PER_LINE {
            i + BYTES_PER_LINE
        } else {
            raw.len()
        };
        let chunk = &raw[i..end];
        let ghost rest = raw@.skip(i as int);
        assert(chunk@ =~= first_chunk(rest));
        assert(rest.skip(chunk@.len() as int) =~= raw@.skip(end as int));
        let ghost before = out@;
        match encode_slice(chunk, &mut b64_buf) {
            None => {},
            Some(len) => {
                let coded = &b64_buf[0..len];
                assert(coded@ =~= base64_of(chunk@));
                push_bytes(out, coded);
                out.push(LINE_FEED);
                assert(out@ + body_text(raw@.skip(end as int)) =~= before + body_text(rest));
            },
        }
        i = end;
    }
    assert(out@ + body_text(raw@.skip(i as int)) =~= out@);
}

/// Appends the checksum line of a record to `out`.
pub fn write_checksum(out: &mut Vec<u8>, crc: u32)
    ensures
        final(out)@ == old(out)@ + line(seq![EQUALS] + base64_of(checksum_bytes(crc as nat))),
        coded_well(checksum_bytes(crc as nat)),
{
    let ghost start = out@;
    let mut bytes: Vec<u8> = Vec::new();
    bytes.push((crc % 256) as u8);
    bytes.push((crc / 256 % 256) as u8);
    bytes.push((crc / 65536 % 256) as u8);
    assert(bytes@ =~= checksum_bytes(crc as nat));
    let mut b64_buf: Vec<u8> = Vec::new();
    b64_buf.push(0);
    b64_buf.push(0);
    b64_buf.push(0);
    b64_buf.push(0);
    out.push(EQUALS);
    match encode_slice(bytes.as_slice(), &mut b64_buf) {
        None => {},
        Some(len) => {
            let coded = &b64_buf[0..len];
            assert(coded@ =~= base64_of(bytes@));
            push_bytes(out, coded);
        },
    }
    out.push(LINE_FEED);
    assert(out@ =~= start + line(seq![EQUALS] + base64_of(checksum_bytes(crc as nat))));
}

impl Board {
    /// The text of the record of this board: its bounds and its applied moves.
    /// Loading the text gives a board that is equal to this one.
    pub fn save_record(&self) -> (out: Vec<u8>)
        requires
            self.wf(),
        ensures
            out@ == record_text(self@.bounds, self@.applied()),
            parse_record(out@) matches Ok(loaded) && loaded == (BoardView {
                bounds: self@.bounds,
                history: self@.applied(),
                cursor: self@.cursor,
            }),
            parse_record(out@) matches Ok(loaded) && loaded.spec_eq(self@),
    {
        let mut out: Vec<u8> = Vec::new();
        write_head(&mut out, self.bounds(), self.index());
        let buf = encode_record_moves(self.past_record());
        write_body(&mut out, buf.as_slice());
        write_checksum(&mut out, crc24(buf.as_slice()));
        push_bytes(&mut out, "-----END CONNECT6 RECORD-----".as_bytes());
        out.push(LINE_FEED);
        assert(out@ =~= record_text(self@.bounds, self@.applied()));
        proof {
            let moves = self@.applied();
            assert forall|i: int, j: int| 0 <= i < j < moves.len() implies moves[i].0
                != moves[j].0 by {
                assert(moves[i] == self@.history[i] && moves[j] == self@.history[j]);
            }
            assert forall|i: int| 0 <= i < moves.len() implies self@.bounds.spec_contains(
                #[trigger] moves[i].0,
            ) by {
                assert(moves[i] == self@.history[i]);
            }
            crate::round_trip::lemma_record_round_trip(self@.bounds, moves);
            assert(moves.take(moves.len() as int) =~= moves);
        }
        out
    }
}

/// Where one byte of the moves of a record has changed, the record's checksum no
/// longer fits, and the record is refused for it before any move is looked at.
pub proof fn lemma_changed_byte_is_refused(
    bounds: Bounds,
    count: Option<nat>,
    raw: Seq<u8>,
    changed: Seq<u8>,
    at: int,
)
    requires
        changed.len() == raw.len(),
        0 <= at < raw.len(),
        changed[at] != raw[at],
        forall|i: int| 0 <= i < raw.len() && i != at ==> changed[i] == raw[i],
    ensures
        replayed(bounds, count, changed, crc24_of(raw) as nat) == Err::<
            BoardView,
            LoadRecordError,
        >(LoadRecordError::Data("wrong checksum")),
{
    crate::crc::lemma_crc24_detects_byte_change(raw, changed, at);
}

/// A record that is sound without a count is sound with the count of its moves,
/// and refused with any other count.
pub proof fn lemma_count_must_fit(bounds: Bounds, raw: Seq<u8>, crc: nat, count: nat)
    requires
        replayed(bounds, None, raw, crc) is Ok,
    ensures
        count == replayed(bounds, None, raw, crc).unwrap().cursor ==> replayed(
            bounds,
            Some(count),
            raw,
            crc,
        ) == replayed(bounds, None, raw, crc),
        count != replayed(bounds, None, raw, crc).unwrap().cursor ==> replayed(
            bounds,
            Some(count),
            raw,
            crc,
        ) == Err::<BoardView, LoadRecordError>(LoadRecordError::Data("wrong count")),
{
}

/// What is replayed is a well-formed board whose moves are all applied.
pub proof fn lemma_replayed_wf(bounds: Bounds, count: Option<nat>, raw: Seq<u8>, crc: nat)
    requires
        replayed(bounds, count, raw, crc) is Ok,
    ensures
        replayed(bounds, count, raw, crc).unwrap().wf(),
        replayed(bounds, count, raw, crc).unwrap().bounds == bounds,
        replayed(bounds, count, raw, crc).unwrap().cursor == replayed(
            bounds,
            count,
            raw,
            crc,
        ).unwrap().history.len(),
{
    crate::board::lemma_new_board(bounds);
    lemma_replay_moves_wf(BoardView::spec_new(bounds), raw);
}

proof fn lemma_replay_moves_wf(view: BoardView, raw: Seq<u8>)
    requires
        view.wf(),
        view.cursor == view.history.len(),
        replay_moves(view, raw) is Ok,
    ensures
        replay_moves(view, raw).unwrap().wf(),
        replay_moves(view, raw).unwrap().bounds == view.bounds,
        replay_moves(view, raw).unwrap().cursor == replay_moves(view, raw).unwrap().history.len(),
    decreases raw.len(),
{
    if raw.len() > 0 {
        let (hi, lo, n) = parse_var_u65(raw).unwrap();
        let p = Point::spec_from_index(hi);
        let stone = Stone::spec_from_bit(lo);
        lemma_parse_var_u65_bounds(raw);
        crate::board::lemma_operations_keep_wf(view, p, stone, 0);
        assert(view.applied() =~= view.history);
        lemma_replay_moves_wf(view.spec_set(p, stone).1, raw.skip(n as int));
    }
}

} // verus!
