use crate::board::{all_within, distinct_points, lemma_occupancy_dom, BoardView};
use crate::bounds::Bounds;
use crate::crc::{crc24_of, lemma_crc24_register_bound};
use crate::point::{lemma_index_round_trip, Point};
use crate::record::{
    body_coded_well, body_text, bounds_text, checksum_bytes, coded_well, encode_moves, first_chunk,
    header_line, lemma_le_value_of_three, lemma_words, line, move_bytes,
    parse_body, parse_bounds, parse_checksum, parse_head, parse_record, record_text,
    record_text_of, replay_moves,
    replayed, tail_line, version_line, LoadRecordError,
};
use crate::stone::{lemma_stone_bit_round_trip, Stone};
use crate::text::{
    decimal, first_index, is_digit, lemma_decimal_round_trip, lemma_first_index_is,
    lemma_next_line_at, lemma_parse_number_decimal, lemma_trim_end_nothing,
    lemma_trim_start_nothing, next_line, trim_end, trim_start, CARRIAGE_RETURN, CLOSING_BRACKET, COLON,
    EQUALS,
    LINE_FEED, SPACE, STAR,
};
use crate::transport::{base64_of, is_base64_byte};
use crate::varint::{lemma_var_u65_len, lemma_var_u65_round_trip};
use vstd::prelude::*;
use vstd::string::StringSliceAdditionalSpecFns;

verus! {

/// The value of a `Board` header is read back as the bounds that it was written
/// for.
pub proof fn lemma_parse_bounds_text(bounds: Bounds)
    ensures
        parse_bounds(bounds_text(bounds)) == Some(bounds),
        bounds_text(bounds).len() > 0,
        bounds_text(bounds)[0] == 73 || bounds_text(bounds)[0] == 82,
        bounds_text(bounds).last() == 101 || bounds_text(bounds).last() == CLOSING_BRACKET,
        forall|i: int|
            0 <= i < bounds_text(bounds).len() ==> (#[trigger] bounds_text(bounds)[i]) != LINE_FEED
                && bounds_text(bounds)[i] != COLON,
{
    lemma_words();
    match bounds {
        Bounds::Infinite => {},
        Bounds::Rect(width, height) => {
            let w = decimal(width as nat);
            let h = decimal(height as nat);
            let s = bounds_text(bounds);
            lemma_decimal_round_trip(width as nat);
            lemma_decimal_round_trip(height as nat);
            lemma_parse_number_decimal(width as nat, u32::MAX as nat);
            lemma_parse_number_decimal(height as nat, u32::MAX as nat);
            assert(s.take(5) =~= "Rect(".spec_bytes());
            let inner = s.subrange(5, s.len() - 1);
            assert(inner =~= w + seq![STAR] + h);
            assert forall|i: int| 0 <= i < w.len() implies inner[i] != STAR by {
                assert(is_digit(w[i]));
            }
            lemma_first_index_is(inner, STAR, 0, w.len() as int);
            assert(inner.take(w.len() as int) =~= w);
            assert(inner.skip(w.len() as int + 1) =~= h);
            assert forall|i: int| 0 <= i < s.len() implies (#[trigger] s[i]) != LINE_FEED && s[i]
                != COLON by {
                if 5 <= i < 5 + w.len() {
                    assert(is_digit(w[i - 5]));
                } else if 5 + w.len() < i < s.len() - 1 {
                    assert(is_digit(h[i - 6 - w.len()]));
                }
            }
        },
    }
}

/// A header line `key: value` as it stands in a text: where it is read, how it
/// is split, and that it holds no white space at its end.
proof fn lemma_header_line(text: Seq<u8>, pos: int, key: Seq<u8>, value: Seq<u8>)
    requires
        0 <= pos,
        pos + key.len() + 2 + value.len() < text.len(),
        text.subrange(pos, pos + key.len() + 2 + value.len()) == key + seq![COLON, SPACE] + value,
        text[pos + key.len() + 2 + value.len()] == LINE_FEED,
        forall|i: int| 0 <= i < key.len() ==> key[i] != LINE_FEED && key[i] != COLON,
        forall|i: int| 0 <= i < value.len() ==> value[i] != LINE_FEED,
        value.len() > 0,
        value[0] < 128 && !crate::text::is_space_byte(value[0]),
        value.last() < 128 && !crate::text::is_space_byte(value.last()),
    ensures
        next_line(text, pos) == Some(
            (key + seq![COLON, SPACE] + value, pos + key.len() + 2 + value.len() + 1),
        ),
        trim_end(key + seq![COLON, SPACE] + value) == key + seq![COLON, SPACE] + value,
        first_index(key + seq![COLON, SPACE] + value, COLON, 0) == key.len(),
        (key + seq![COLON, SPACE] + value).take(key.len() as int) == key,
        trim_start((key + seq![COLON, SPACE] + value).skip(key.len() as int + 1)) == value,
{
    let s = key + seq![COLON, SPACE] + value;
    assert(s.last() == value.last());
    lemma_next_line_at(text, pos, s);
    lemma_trim_end_nothing(s);
    lemma_first_index_is(s, COLON, 0, key.len() as int);
    assert(s.take(key.len() as int) =~= key);
    let after = s.skip(key.len() as int + 1);
    assert(after =~= seq![SPACE] + value);
    assert(after.skip(1) =~= value);
    lemma_trim_start_nothing(value);
    assert(trim_start(after) == trim_start(after.skip(1)));
}

/// The line `Version: ...` of a record says nothing of the board.
proof fn lemma_head_version(text: Seq<u8>, pos: int, bounds: Bounds, count: Option<nat>)
    requires
        0 <= pos,
        pos + version_line().len() < text.len(),
        text.subrange(pos, pos + version_line().len()) == version_line(),
        text[pos + version_line().len()] == LINE_FEED,
    ensures
        parse_head(text, pos, bounds, count) == parse_head(
            text,
            pos + version_line().len() + 1,
            bounds,
            count,
        ),
{
    reveal(parse_head);
    lemma_words();
    let key = seq![86u8, 101, 114, 115, 105, 111, 110];
    let value = seq![99u8, 54, 32, 48, 46, 49, 46, 48];
    assert(key + seq![COLON, SPACE] + value =~= version_line());
    lemma_header_line(text, pos, key, value);
    assert(key.len() != "Board".spec_bytes().len());
    assert(key.len() != "Count".spec_bytes().len());
}

/// The line `Board: ...` of a record gives its bounds.
proof fn lemma_head_board(
    text: Seq<u8>,
    pos: int,
    bounds: Bounds,
    before: Bounds,
    count: Option<nat>,
)
    requires
        0 <= pos,
        pos + 7 + bounds_text(bounds).len() < text.len(),
        text.subrange(pos, pos + 7 + bounds_text(bounds).len()) == "Board: ".spec_bytes()
            + bounds_text(bounds),
        text[pos + 7 + bounds_text(bounds).len()] == LINE_FEED,
    ensures
        parse_head(text, pos, before, count) == parse_head(
            text,
            pos + 7 + bounds_text(bounds).len() + 1,
            bounds,
            count,
        ),
{
    reveal(parse_head);
    lemma_words();
    lemma_parse_bounds_text(bounds);
    let key = "Board".spec_bytes();
    let value = bounds_text(bounds);
    assert(key + seq![COLON, SPACE] + value =~= "Board: ".spec_bytes() + bounds_text(bounds));
    lemma_header_line(text, pos, key, value);
}

/// The line `Count: ...` of a record gives its count of moves.
proof fn lemma_head_count(
    text: Seq<u8>,
    pos: int,
    count: nat,
    bounds: Bounds,
    before: Option<nat>,
)
    requires
        0 <= pos,
        pos + 7 + decimal(count).len() < text.len(),
        text.subrange(pos, pos + 7 + decimal(count).len()) == "Count: ".spec_bytes() + decimal(
            count,
        ),
        text[pos + 7 + decimal(count).len()] == LINE_FEED,
        count <= usize::MAX,
    ensures
        parse_head(text, pos, bounds, before) == parse_head(
            text,
            pos + 7 + decimal(count).len() + 1,
            bounds,
            Some(count),
        ),
{
    reveal(parse_head);
    lemma_words();
    lemma_decimal_round_trip(count);
    lemma_parse_number_decimal(count, usize::MAX as nat);
    let key = "Count".spec_bytes();
    let value = decimal(count);
    assert(key + seq![COLON, SPACE] + value =~= "Count: ".spec_bytes() + decimal(count));
    assert forall|i: int| 0 <= i < value.len() implies value[i] != LINE_FEED by {
        assert(is_digit(value[i]));
    }
    assert(is_digit(value[0]));
    assert(is_digit(value.last()));
    lemma_header_line(text, pos, key, value);
    assert(key.len() == 5 && key[0] == 67);
    assert("Board".spec_bytes()[0] == 66);
}

/// An empty line ends the header.
proof fn lemma_head_end(text: Seq<u8>, pos: int, bounds: Bounds, count: Option<nat>)
    requires
        0 <= pos < text.len(),
        text[pos] == LINE_FEED,
    ensures
        parse_head(text, pos, bounds, count) == Ok::<(Bounds, Option<nat>, int), LoadRecordError>(
            (bounds, count, pos + 1),
        ),
{
    reveal(parse_head);
    let blank = Seq::<u8>::empty();
    assert(text.subrange(pos, pos) =~= blank);
    lemma_next_line_at(text, pos, blank);
    lemma_trim_end_nothing(blank);
}

/// Where a text holds `a + b`, it holds `a` and then `b`.
proof fn lemma_split(text: Seq<u8>, pos: int, a: Seq<u8>, b: Seq<u8>)
    requires
        0 <= pos,
        pos + a.len() + b.len() <= text.len(),
        text.subrange(pos, pos + a.len() + b.len()) == a + b,
    ensures
        text.subrange(pos, pos + a.len()) == a,
        text.subrange(pos + a.len(), pos + a.len() + b.len()) == b,
{
    let part = text.subrange(pos, pos + a.len() + b.len());
    assert forall|i: int| 0 <= i < a.len() implies text[pos + i] == a[i] by {
        assert(part[i] == (a + b)[i]);
    }
    assert forall|i: int| 0 <= i < b.len() implies text[pos + a.len() + i] == b[i] by {
        assert(part[a.len() + i] == (a + b)[a.len() + i]);
    }
    assert(text.subrange(pos, pos + a.len()) =~= a);
    assert(text.subrange(pos + a.len(), pos + a.len() + b.len()) =~= b);
}

/// Where a text holds a line with its end, it holds the line and then a line
/// feed.
proof fn lemma_line_piece(text: Seq<u8>, pos: int, s: Seq<u8>)
    requires
        0 <= pos,
        pos + s.len() + 1 <= text.len(),
        text.subrange(pos, pos + s.len() + 1) == line(s),
    ensures
        text.subrange(pos, pos + s.len()) == s,
        text[pos + s.len()] == LINE_FEED,
{
    assert(line(s) =~= s + seq![LINE_FEED]);
    lemma_split(text, pos, s, seq![LINE_FEED]);
    assert(text.subrange(pos + s.len(), pos + s.len() + 1)[0] == LINE_FEED);
}

proof fn lemma_key_lengths()
    ensures
        "Board: ".spec_bytes().len() == 7,
        "Count: ".spec_bytes().len() == 7,
{
    reveal_strlit("Board: ");
    reveal_strlit("Count: ");
    vstd::utf8::is_ascii_chars_encode_utf8("Board: "@);
    vstd::utf8::is_ascii_chars_encode_utf8("Count: "@);
}

/// The header lines of a record after the first.
pub open spec fn head_rest(bounds: Bounds, count: nat) -> Seq<u8> {
    line(version_line()) + line("Board: ".spec_bytes() + bounds_text(bounds)) + line(
        "Count: ".spec_bytes() + decimal(count),
    ) + line(Seq::empty())
}

/// The header lines that were written for some bounds and a count are read back
/// as these, whatever the lines before them said.
pub proof fn lemma_parse_head_text(
    text: Seq<u8>,
    pos: int,
    bounds: Bounds,
    count: nat,
    bounds_before: Bounds,
    count_before: Option<nat>,
)
    requires
        0 <= pos,
        pos + head_rest(bounds, count).len() <= text.len(),
        text.subrange(pos, pos + head_rest(bounds, count).len()) == head_rest(bounds, count),
        count <= usize::MAX,
    ensures
        parse_head(text, pos, bounds_before, count_before) == Ok::<
            (Bounds, Option<nat>, int),
            LoadRecordError,
        >((bounds, Some(count), pos + head_rest(bounds, count).len())),
{
    let line1 = version_line();
    let line2 = "Board: ".spec_bytes() + bounds_text(bounds);
    let line3 = "Count: ".spec_bytes() + decimal(count);
    let line4 = Seq::<u8>::empty();
    lemma_key_lengths();
    let at2 = pos + line1.len() + 1;
    let at3 = at2 + line2.len() + 1;
    let at4 = at3 + line3.len() + 1;
    lemma_split(text, pos, line(line1) + line(line2) + line(line3), line(line4));
    lemma_split(text, pos, line(line1) + line(line2), line(line3));
    lemma_split(text, pos, line(line1), line(line2));
    lemma_line_piece(text, pos, line1);
    lemma_line_piece(text, at2, line2);
    lemma_line_piece(text, at3, line3);
    lemma_line_piece(text, at4, line4);
    let got1 = parse_head(text, pos, bounds_before, count_before);
    let got2 = parse_head(text, at2, bounds_before, count_before);
    let got3 = parse_head(text, at3, bounds, count_before);
    let got4 = parse_head(text, at4, bounds, Some(count));
    assert(got1 == got2) by {
        lemma_head_version(text, pos, bounds_before, count_before);
    }
    assert(got2 == got3) by {
        lemma_head_board(text, at2, bounds, bounds_before, count_before);
    }
    assert(got3 == got4) by {
        lemma_head_count(text, at3, count, bounds, count_before);
    }
    assert(got4 == Ok::<(Bounds, Option<nat>, int), LoadRecordError>(
        (bounds, Some(count), at4 + 1),
    )) by {
        lemma_head_end(text, at4, bounds, Some(count));
    }
    assert(at4 + 1 == pos + head_rest(bounds, count).len());
}

/// The body lines that were written for `raw`, with a line after them that
/// starts with `=`, are read back as `raw` and that line.
pub proof fn lemma_parse_body_text(
    text: Seq<u8>,
    pos: int,
    raw: Seq<u8>,
    before: Seq<u8>,
    last: Seq<u8>,
)
    requires
        0 <= pos,
        pos + body_text(raw).len() + last.len() + 1 <= text.len(),
        text.subrange(pos, pos + body_text(raw).len() + last.len() + 1) == body_text(raw) + line(
            last,
        ),
        last.len() > 0,
        last[0] == EQUALS,
        forall|i: int| 0 <= i < last.len() ==> last[i] != LINE_FEED,
        last.last() != CARRIAGE_RETURN,
        body_coded_well(raw),
    ensures
        parse_body(text, pos, before) == Ok::<(Seq<u8>, Seq<u8>), LoadRecordError>(
            (before + raw, last),
        ),
    decreases raw.len(),
{
    reveal(parse_body);
    if raw.len() == 0 {
        assert(body_text(raw) + line(last) =~= line(last));
        lemma_line_piece(text, pos, last);
        lemma_next_line_at(text, pos, last);
        assert(before + raw =~= before);
    } else {
        let chunk = first_chunk(raw);
        let coded = base64_of(chunk);
        let rest = raw.skip(chunk.len() as int);
        let after = body_text(rest) + line(last);
        assert(body_text(raw) + line(last) =~= line(coded) + after);
        lemma_split(text, pos, line(coded), after);
        lemma_line_piece(text, pos, coded);
        assert forall|i: int| 0 <= i < coded.len() implies coded[i] != LINE_FEED by {
            assert(is_base64_byte(coded[i]));
        }
        assert(is_base64_byte(coded.last()));
        lemma_next_line_at(text, pos, coded);
        lemma_parse_body_text(text, pos + coded.len() + 1, rest, before + chunk, last);
        assert((before + chunk) + rest =~= before + raw);
    }
}

/// The checksum line that was written for a checksum of 24 bits is read back as
/// that checksum.
pub proof fn lemma_parse_checksum_text(crc: nat)
    requires
        crc < 0x1000000,
        coded_well(checksum_bytes(crc)),
    ensures
        parse_checksum(seq![EQUALS] + base64_of(checksum_bytes(crc))) == Ok::<nat, LoadRecordError>(
            crc,
        ),
        (seq![EQUALS] + base64_of(checksum_bytes(crc))).len() == 5,
        forall|i: int|
            0 <= i < 5 ==> (#[trigger] (seq![EQUALS] + base64_of(checksum_bytes(crc)))[i]) != LINE_FEED,
        (seq![EQUALS] + base64_of(checksum_bytes(crc))).last() != CARRIAGE_RETURN,
{
    let bytes = checksum_bytes(crc);
    let coded = base64_of(bytes);
    let whole = seq![EQUALS] + coded;
    assert(whole.skip(1) =~= coded);
    lemma_le_value_of_three(bytes);
    assert forall|i: int| 0 <= i < 5 implies (#[trigger] whole[i]) != LINE_FEED by {
        if i > 0 {
            assert(is_base64_byte(coded[i - 1]));
        }
    }
    assert(is_base64_byte(coded[3]));
}

/// The bytes that were written for some moves are replayed as these moves, on a
/// board whose moves are all applied and share no point with them or with each
/// other, where the moves lie within the bounds.
pub proof fn lemma_replay_encoded(view: BoardView, moves: Seq<(Point, Stone)>)
    requires
        view.cursor == view.history.len(),
        distinct_points(view.history + moves),
        all_within(view.bounds, moves),
    ensures
        replay_moves(view, encode_moves(moves)) == Ok::<BoardView, LoadRecordError>(
            BoardView {
                bounds: view.bounds,
                history: view.history + moves,
                cursor: view.history.len() + moves.len(),
            },
        ),
    decreases moves.len(),
{
    let all = view.history + moves;
    if moves.len() == 0 {
        assert(all =~= view.history);
    } else {
        let m = moves[0];
        let rest = moves.skip(1);
        let bytes = move_bytes(m);
        let raw = encode_moves(moves);
        lemma_index_round_trip(m.0);
        lemma_stone_bit_round_trip(m.1);
        lemma_var_u65_len(m.0.spec_index(), m.1.spec_bit());
        lemma_var_u65_round_trip(m.0.spec_index(), m.1.spec_bit(), encode_moves(rest));
        assert(raw.skip(bytes.len() as int) =~= encode_moves(rest));
        assert(view.applied() =~= view.history);
        assert(!view.occupancy().contains_key(m.0)) by {
            lemma_occupancy_dom(view.history, m.0);
            if view.occupancy().contains_key(m.0) {
                let i = choose|i: int|
                    0 <= i < view.history.len() && (#[trigger] view.history[i]).0 == m.0;
                assert(all[i] == view.history[i]);
                assert(all[view.history.len() as int] == m);
            }
        }
        assert(view.bounds.spec_contains(moves[0].0));
        let next = view.spec_set(m.0, m.1).1;
        assert(next.history + rest =~= all);
        assert forall|i: int| 0 <= i < rest.len() implies view.bounds.spec_contains(
            #[trigger] rest[i].0,
        ) by {
            assert(rest[i] == moves[i + 1]);
        }
        lemma_replay_encoded(next, rest);
    }
}

/// The first line of a record and its last hold no line feed and end with no
/// carriage return.
proof fn lemma_frame_lines()
    ensures
        header_line().len() == 31,
        forall|i: int| 0 <= i < header_line().len() ==> header_line()[i] != LINE_FEED,
        header_line().last() != CARRIAGE_RETURN,
{
    lemma_words();
}

/// Reading the text of a record gives what its bounds, its count, its bytes of
/// moves and its checksum stand for: the lines themselves get in nothing's way.
/// The base64 coder is taken to code the lines of the record well.
pub proof fn lemma_record_text_read(bounds: Bounds, count: nat, raw: Seq<u8>, crc: nat)
    requires
        count <= usize::MAX,
        crc < 0x1000000,
        body_coded_well(raw),
        coded_well(checksum_bytes(crc)),
    ensures
        parse_record(record_text_of(bounds, count, raw, crc)) == replayed(
            bounds,
            Some(count),
            raw,
            crc,
        ),
{
    let last = seq![EQUALS] + base64_of(checksum_bytes(crc));
    let text = record_text_of(bounds, count, raw, crc);
    let first = line(header_line());
    let rest = head_rest(bounds, count);
    let body = body_text(raw) + line(last);
    let end = line(tail_line());
    let head_at = first.len() as int;
    let body_at = head_at + rest.len();
    assert(text == first + (rest + (body + end))) by {
        assert(text =~= first + (rest + (body + end)));
    }
    assert(text.subrange(0, text.len() as int) =~= text);
    lemma_split(text, 0, first, rest + (body + end));
    lemma_split(text, head_at, rest, body + end);
    lemma_split(text, body_at, body, end);
    assert(next_line(text, 0) == Some((header_line(), head_at))) by {
        lemma_frame_lines();
        lemma_line_piece(text, 0, header_line());
        lemma_next_line_at(text, 0, header_line());
    }
    assert(parse_head(text, head_at, Bounds::Infinite, None) == Ok::<
        (Bounds, Option<nat>, int),
        LoadRecordError,
    >((bounds, Some(count), body_at))) by {
        lemma_parse_head_text(text, head_at, bounds, count, Bounds::Infinite, None);
    }
    lemma_parse_checksum_text(crc);
    assert(parse_body(text, body_at, Seq::empty()) == Ok::<(Seq<u8>, Seq<u8>), LoadRecordError>(
        (raw, last),
    )) by {
        lemma_parse_body_text(text, body_at, raw, Seq::empty(), last);
        assert(Seq::<u8>::empty() + raw =~= raw);
    }
}

/// Loading what was saved gives the board back: the text of the record of some
/// bounds and some moves, none of them on the point of another and all within the
/// bounds, stands for the board with these bounds on which these moves are
/// applied. The base64 coder is taken to code the lines of the record well.
pub proof fn lemma_record_round_trip(bounds: Bounds, moves: Seq<(Point, Stone)>)
    requires
        distinct_points(moves),
        all_within(bounds, moves),
        moves.len() <= usize::MAX,
        body_coded_well(encode_moves(moves)),
        coded_well(checksum_bytes(crc24_of(encode_moves(moves)) as nat)),
    ensures
        parse_record(record_text(bounds, moves)) == Ok::<BoardView, LoadRecordError>(
            BoardView { bounds, history: moves, cursor: moves.len() },
        ),
{
    let raw = encode_moves(moves);
    lemma_crc24_register_bound(raw);
    lemma_record_text_read(bounds, moves.len(), raw, crc24_of(raw) as nat);
    let empty = BoardView::spec_new(bounds);
    assert(empty.history + moves =~= moves);
    lemma_replay_encoded(empty, moves);
}

/// A record whose header gives another count than that of its moves is refused
/// for its count.
pub proof fn lemma_wrong_count_is_refused(
    bounds: Bounds,
    count: nat,
    moves: Seq<(Point, Stone)>,
)
    requires
        distinct_points(moves),
        all_within(bounds, moves),
        count <= usize::MAX,
        count != moves.len(),
        body_coded_well(encode_moves(moves)),
        coded_well(checksum_bytes(crc24_of(encode_moves(moves)) as nat)),
    ensures
        parse_record(
            record_text_of(bounds, count, encode_moves(moves), crc24_of(encode_moves(moves)) as nat),
        ) == Err::<BoardView, LoadRecordError>(LoadRecordError::Data("wrong count")),
{
    let raw = encode_moves(moves);
    lemma_crc24_register_bound(raw);
    lemma_record_text_read(bounds, count, raw, crc24_of(raw) as nat);
    let empty = BoardView::spec_new(bounds);
    assert(empty.history + moves =~= moves);
    lemma_replay_encoded(empty, moves);
}

/// A record in whose bytes of moves one byte was changed after the checksum was
/// taken is refused for its checksum, whatever else it holds.
pub proof fn lemma_changed_byte_record_is_refused(
    bounds: Bounds,
    count: nat,
    raw: Seq<u8>,
    changed: Seq<u8>,
    at: int,
)
    requires
        changed.len() == raw.len(),
        0 <= at < raw.len(),
        changed[at] != raw[at],
        forall|i: int| 0 <= i < raw.len() && i != at ==> changed[i] == raw[i],
        count <= usize::MAX,
        body_coded_well(changed),
        coded_well(checksum_bytes(crc24_of(raw) as nat)),
    ensures
        parse_record(record_text_of(bounds, count, changed, crc24_of(raw) as nat)) == Err::<
            BoardView,
            LoadRecordError,
        >(LoadRecordError::Data("wrong checksum")),
{
    lemma_crc24_register_bound(raw);
    lemma_record_text_read(bounds, count, changed, crc24_of(raw) as nat);
    crate::record::lemma_changed_byte_is_refused(bounds, Some(count), raw, changed, at);
}

} // verus!
