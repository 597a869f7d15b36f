use vstd::prelude::*;

verus! {

/// The ASCII codes of the characters that the text of a record is made of.
pub const LINE_FEED: u8 = 10;

pub const CARRIAGE_RETURN: u8 = 13;

pub const SPACE: u8 = 32;

pub const CLOSING_BRACKET: u8 = 41;

pub const STAR: u8 = 42;

pub const PLUS: u8 = 43;

pub const ZERO: u8 = 48;

pub const NINE: u8 = 57;

pub const COLON: u8 = 58;

pub const EQUALS: u8 = 61;

/// The first place at or after `from` where `s` holds `byte`, or the length of `s`
/// where it holds none.
pub open spec fn first_index(s: Seq<u8>, byte: u8, from: int) -> int
    decreases s.len() - from,
{
    if from < 0 || from >= s.len() {
        s.len() as int
    } else if s[from] == byte {
        from
    } else {
        first_index(s, byte, from + 1)
    }
}

/// What `first_index` gives lies from `from` on, holds `byte` unless it is the
/// length of `s`, and nothing before it does.
pub proof fn lemma_first_index(s: Seq<u8>, byte: u8, from: int)
    requires
        0 <= from <= s.len(),
    ensures
        from <= first_index(s, byte, from) <= s.len(),
        first_index(s, byte, from) < s.len() ==> s[first_index(s, byte, from)] == byte,
        forall|i: int| from <= i < first_index(s, byte, from) ==> s[i] != byte,
    decreases s.len() - from,
{
    if from < s.len() && s[from] != byte {
        lemma_first_index(s, byte, from + 1);
    }
}

/// The first place at or after `from` where `s` holds `byte`, or the length of `s`.
pub fn find_byte(s: &[u8], byte: u8, from: usize) -> (r: usize)
    requires
        from <= s.len(),
    ensures
        r == first_index(s@, byte, from as int),
        from <= r <= s.len(),
{
    let mut i = from;
    while i < s.len() && s[i] != byte
        invariant
            from <= i <= s.len(),
            first_index(s@, byte, from as int) == first_index(s@, byte, i as int),
        decreases s.len() - i,
    {
        i += 1;
    }
    i
}

/// Whether two byte strings are the same.
pub fn bytes_eq(a: &[u8], b: &[u8]) -> (r: bool)
    ensures
        r == (a@ == b@),
{
    if a.len() != b.len() {
        return false;
    }
    let mut i: usize = 0;
    while i < a.len()
        invariant
            i <= a.len(),
            a.len() == b.len(),
            forall|j: int| 0 <= j < i ==> a@[j] == b@[j],
        decreases a.len() - i,
    {
        if a[i] != b[i] {
            return false;
        }
        i += 1;
    }
    assert(a@ =~= b@);
    true
}

/// The line of `text` that starts at `start`, without its end, and where the next
/// line starts. A line ends with a line feed, which is left out together with a
/// carriage return before it; the last line may end with the text. `None` at the
/// end of the text.
pub open spec fn next_line(text: Seq<u8>, start: int) -> Option<(Seq<u8>, int)> {
    if start < 0 || start >= text.len() {
        None
    } else {
        let end = first_index(text, LINE_FEED, start);
        if end < text.len() {
            if end > start && text[end - 1] == CARRIAGE_RETURN {
                Some((text.subrange(start, end - 1), end + 1))
            } else {
                Some((text.subrange(start, end), end + 1))
            }
        } else {
            Some((text.subrange(start, end), end))
        }
    }
}

/// A line that is read is followed by the place where the next one starts, and
/// lies before it in the text.
pub proof fn lemma_next_line(text: Seq<u8>, start: int)
    ensures
        match next_line(text, start) {
            Some((line, next)) => 0 <= start < next <= text.len() && line.len() <= next - start,
            None => start < 0 || start >= text.len(),
        },
{
    if 0 <= start < text.len() {
        lemma_first_index(text, LINE_FEED, start);
    }
}

/// Reads a text line by line.
pub struct LineReader<'a> {
    text: &'a [u8],
    pos: usize,
}

impl<'a> LineReader<'a> {
    /// The text that is read.
    pub closed spec fn text(&self) -> Seq<u8> {
        self.text@
    }

    /// Where the next line starts.
    pub closed spec fn pos(&self) -> int {
        self.pos as int
    }

    /// The place of the next line lies within the text.
    pub closed spec fn wf(&self) -> bool {
        self.pos <= self.text.len()
    }

    /// A reader at the start of `text`.
    pub fn new(text: &'a [u8]) -> (r: Self)
        ensures
            r.wf(),
            r.text() == text@,
            r.pos() == 0,
    {
        LineReader { text, pos: 0 }
    }

    /// The next line, or `None` at the end of the text.
    pub fn read_line(&mut self) -> (r: Option<&'a [u8]>)
        requires
            old(self).wf(),
        ensures
            final(self).wf(),
            final(self).text() == old(self).text(),
            match r {
                Some(line) => next_line(old(self).text(), old(self).pos()) == Some(
                    (line@, final(self).pos()),
                ) && final(self).pos() > old(self).pos(),
                None => next_line(old(self).text(), old(self).pos()) is None && final(self).pos()
                    == old(self).pos(),
            },
    {
        let text = self.text;
        let start = self.pos;
        if start >= text.len() {
            return None;
        }
        let end = find_byte(text, LINE_FEED, start);
        if end < text.len() {
            self.pos = end + 1;
            if end > start && text[end - 1] == CARRIAGE_RETURN {
                Some(&text[start..end - 1])
            } else {
                Some(&text[start..end])
            }
        } else {
            self.pos = end;
            Some(&text[start..end])
        }
    }
}

/// The white space of one byte: tab, line feed, vertical tab, form feed,
/// carriage return and space.
pub open spec fn is_space_byte(b: u8) -> bool {
    (9 <= b <= 13) || b == SPACE
}

/// The white space of two bytes in UTF-8: U+0085 and U+00A0.
pub open spec fn is_space_pair(a: u8, b: u8) -> bool {
    a == 0xc2 && (b == 0x85 || b == 0xa0)
}

/// The white space of three bytes in UTF-8: U+1680, U+2000 to U+200A, U+2028,
/// U+2029, U+202F, U+205F and U+3000.
pub open spec fn is_space_triple(a: u8, b: u8, c: u8) -> bool {
    ||| a == 0xe1 && b == 0x9a && c == 0x80
    ||| a == 0xe2 && b == 0x80 && (0x80 <= c <= 0x8a || c == 0xa8 || c == 0xa9 || c == 0xaf)
    ||| a == 0xe2 && b == 0x81 && c == 0x9f
    ||| a == 0xe3 && b == 0x80 && c == 0x80
}

/// The number of bytes of the white-space character that `s` ends with, or 0
/// where it ends with none.
pub open spec fn space_at_end(s: Seq<u8>) -> nat {
    let n = s.len() as int;
    if n >= 1 && is_space_byte(s[n - 1]) {
        1
    } else if n >= 2 && is_space_pair(s[n - 2], s[n - 1]) {
        2
    } else if n >= 3 && is_space_triple(s[n - 3], s[n - 2], s[n - 1]) {
        3
    } else {
        0
    }
}

/// The number of bytes of the white-space character that `s` starts with, or 0
/// where it starts with none.
pub open spec fn space_at_start(s: Seq<u8>) -> nat {
    if s.len() >= 1 && is_space_byte(s[0]) {
        1
    } else if s.len() >= 2 && is_space_pair(s[0], s[1]) {
        2
    } else if s.len() >= 3 && is_space_triple(s[0], s[1], s[2]) {
        3
    } else {
        0
    }
}

/// `s` without the white space at its end.
pub open spec fn trim_end(s: Seq<u8>) -> Seq<u8>
    decreases s.len(),
{
    if space_at_end(s) == 0 {
        s
    } else {
        trim_end(s.take(s.len() - space_at_end(s)))
    }
}

/// `s` without the white space at its start.
pub open spec fn trim_start(s: Seq<u8>) -> Seq<u8>
    decreases s.len(),
{
    if space_at_start(s) == 0 {
        s
    } else {
        trim_start(s.skip(space_at_start(s) as int))
    }
}

fn is_space1(b: u8) -> (r: bool)
    ensures
        r == is_space_byte(b),
{
    (9 <= b && b <= 13) || b == SPACE
}

fn is_space2(a: u8, b: u8) -> (r: bool)
    ensures
        r == is_space_pair(a, b),
{
    a == 0xc2 && (b == 0x85 || b == 0xa0)
}

fn is_space3(a: u8, b: u8, c: u8) -> (r: bool)
    ensures
        r == is_space_triple(a, b, c),
{
    (a == 0xe1 && b == 0x9a && c == 0x80) || (a == 0xe2 && b == 0x80 && ((0x80 <= c && c <= 0x8a)
        || c == 0xa8 || c == 0xa9 || c == 0xaf)) || (a == 0xe2 && b == 0x81 && c == 0x9f) || (a
        == 0xe3 && b == 0x80 && c == 0x80)
}

/// `s` without the white space at its end, as `str::trim_end` gives it for
/// UTF-8 text.
pub fn trim_end_bytes(s: &[u8]) -> (r: &[u8])
    ensures
        r@ == trim_end(s@),
{
    let mut n = s.len();
    assert(s@.take(n as int) =~= s@);
    loop
        invariant
            n <= s.len(),
            trim_end(s@) == trim_end(s@.take(n as int)),
        ensures
            n <= s.len(),
            trim_end(s@) == s@.take(n as int),
        decreases n,
    {
        let ghost cur = s@.take(n as int);
        let k: usize = if n >= 1 && is_space1(s[n - 1]) {
            1
        } else if n >= 2 && is_space2(s[n - 2], s[n - 1]) {
            2
        } else if n >= 3 && is_space3(s[n - 3], s[n - 2], s[n - 1]) {
            3
        } else {
            0
        };
        assert(k == space_at_end(cur));
        if k == 0 {
            break;
        }
        assert(cur.take(n - k) =~= s@.take(n - k));
        n -= k;
    }
    let r = &s[0..n];
    assert(r@ =~= s@.take(n as int));
    r
}

/// `s` without the white space at its start, as `str::trim_start` gives it for
/// UTF-8 text.
pub fn trim_start_bytes(s: &[u8]) -> (r: &[u8])
    ensures
        r@ == trim_start(s@),
{
    let mut i: usize = 0;
    assert(s@.skip(0) =~= s@);
    loop
        invariant
            i <= s.len(),
            trim_start(s@) == trim_start(s@.skip(i as int)),
        ensures
            i <= s.len(),
            trim_start(s@) == s@.skip(i as int),
        decreases s.len() - i,
    {
        let ghost cur = s@.skip(i as int);
        let left = s.len() - i;
        let k: usize = if left >= 1 && is_space1(s[i]) {
            1
        } else if left >= 2 && is_space2(s[i], s[i + 1]) {
            2
        } else if left >= 3 && is_space3(s[i], s[i + 1], s[i + 2]) {
            3
        } else {
            0
        };
        assert(k == space_at_start(cur));
        if k == 0 {
            break;
        }
        assert(cur.skip(k as int) =~= s@.skip(i + k));
        i += k;
    }
    let r = &s[i..s.len()];
    assert(r@ =~= s@.skip(i as int));
    r
}

/// The decimal digits of `n`, without leading zeros.
pub open spec fn decimal(n: nat) -> Seq<u8>
    decreases n,
{
    if n < 10 {
        seq![(ZERO + n) as u8]
    } else {
        decimal(n / 10).push((ZERO + n % 10) as u8)
    }
}

/// Whether `b` is a decimal digit.
pub open spec fn is_digit(b: u8) -> bool {
    ZERO <= b <= NINE
}

/// The number that the decimal digits `s` stand for, or `None` where `s` is
/// empty or holds anything but digits.
pub open spec fn decimal_value(s: Seq<u8>) -> Option<nat>
    decreases s.len(),
{
    if s.len() == 0 {
        None
    } else if !is_digit(s.last()) {
        None
    } else if s.len() == 1 {
        Some((s.last() - ZERO) as nat)
    } else {
        match decimal_value(s.drop_last()) {
            None => None,
            Some(v) => Some(10 * v + (s.last() - ZERO) as nat),
        }
    }
}

/// The number that `s` stands for, as `str::parse` reads an unsigned integer
/// that may be `max` at most: decimal digits, at least one, after at most one
/// `+`. `None` for anything else, and for a number above `max`.
pub open spec fn parse_number(s: Seq<u8>, max: nat) -> Option<nat> {
    let digits = if s.len() > 0 && s[0] == PLUS {
        s.skip(1)
    } else {
        s
    };
    match decimal_value(digits) {
        None => None,
        Some(v) => if v <= max {
            Some(v)
        } else {
            None
        },
    }
}

/// The digits of a number are read back as that number.
pub proof fn lemma_decimal_round_trip(n: nat)
    ensures
        decimal_value(decimal(n)) == Some(n),
        decimal(n).len() >= 1,
        forall|i: int| 0 <= i < decimal(n).len() ==> is_digit(#[trigger] decimal(n)[i]),
    decreases n,
{
    if n >= 10 {
        lemma_decimal_round_trip(n / 10);
        let front = decimal(n / 10);
        let all = decimal(n);
        assert(all.drop_last() =~= front);
    }
}

/// Digits that are read as a number are all digits, and every digit more makes
/// the number no smaller.
pub proof fn lemma_decimal_value_prefix(s: Seq<u8>, n: int)
    requires
        1 <= n <= s.len(),
        decimal_value(s) is Some,
    ensures
        decimal_value(s.take(n)) is Some,
        decimal_value(s.take(n)).unwrap() <= decimal_value(s).unwrap(),
        forall|i: int| 0 <= i < s.len() ==> is_digit(#[trigger] s[i]),
    decreases s.len(),
{
    if s.len() > 1 {
        let front = s.drop_last();
        if n < s.len() {
            lemma_decimal_value_prefix(front, n);
            assert(front.take(n) =~= s.take(n));
        } else {
            lemma_decimal_value_prefix(front, 1);
            assert(s.take(n) =~= s);
        }
        assert forall|i: int| 0 <= i < s.len() implies is_digit(#[trigger] s[i]) by {
            if i < s.len() - 1 {
                assert(front[i] == s[i]);
            }
        }
    } else {
        assert(s.take(n) =~= s);
    }
}

/// Reads an unsigned decimal number of at most `max`.
pub fn parse_number_bytes(s: &[u8], max: u64) -> (r: Option<u64>)
    ensures
        match r {
            Some(v) => parse_number(s@, max as nat) == Some(v as nat),
            None => parse_number(s@, max as nat) is None,
        },
{
    let start: usize = if s.len() > 0 && s[0] == PLUS {
        1
    } else {
        0
    };
    let ghost digits = s@.skip(start as int);
    assert(s@.skip(0) =~= s@);
    if start >= s.len() {
        return None;
    }
    let mut value: u64 = 0;
    let mut i = start;
    while i < s.len()
        invariant
            start <= i <= s.len(),
            start < s.len(),
            digits == s@.skip(start as int),
            parse_number(s@, max as nat) == (match decimal_value(digits) {
                None => None,
                Some(v) => if v <= max {
                    Some(v)
                } else {
                    None
                },
            }),
            value <= max,
            i > start ==> decimal_value(digits.take(i - start)) == Some(value as nat),
            i == start ==> value == 0,
        decreases s.len() - i,
    {
        let b = s[i];
        let ghost more = digits.take(i + 1 - start);
        proof {
            assert(more.last() == b);
            assert(digits[i - start] == b);
            assert(more.drop_last() =~= digits.take(i - start));
            if decimal_value(digits) is Some {
                lemma_decimal_value_prefix(digits, i + 1 - start);
            }
        }
        if b < ZERO || b > NINE {
            return None;
        }
        let d = (b - ZERO) as u64;
        if value > max / 10 {
            return None;
        }
        let tens = value * 10;
        if d > max - tens {
            return None;
        }
        value = tens + d;
        i += 1;
    }
    assert(digits.take(i - start) =~= digits);
    Some(value)
}

/// Appends the decimal digits of `n` to `out`.
pub fn push_decimal(out: &mut Vec<u8>, n: u64)
    ensures
        final(out)@ == old(out)@ + decimal(n as nat),
{
    let mut digits: Vec<u8> = Vec::new();
    let mut rest = n;
    assert(decimal(n as nat) =~= decimal(rest as nat) + digits@.reverse());
    while rest >= 10
        invariant
            decimal(n as nat) == decimal(rest as nat) + digits@.reverse(),
        decreases rest,
    {
        let d = ZERO + (rest % 10) as u8;
        proof {
            let after = digits@.push(d);
            assert(after.reverse() =~= seq![d] + digits@.reverse());
            assert(decimal((rest / 10) as nat) + after.reverse() =~= decimal(rest as nat)
                + digits@.reverse());
        }
        digits.push(d);
        rest = rest / 10;
    }
    proof {
        let last = (ZERO + rest) as u8;
        let after = digits@.push(last);
        assert(after.reverse() =~= seq![last] + digits@.reverse());
        assert(decimal(n as nat) =~= after.reverse());
    }
    digits.push(ZERO + rest as u8);
    let mut i = digits.len();
    let ghost target = old(out)@ + decimal(n as nat);
    assert(digits@.take(i as int) =~= digits@);
    while i > 0
        invariant
            i <= digits.len(),
            target == out@ + digits@.take(i as int).reverse(),
        decreases i,
    {
        i -= 1;
        proof {
            let more = digits@.take(i + 1);
            let less = digits@.take(i as int);
            assert(more.reverse() =~= seq![digits@[i as int]] + less.reverse());
            assert(out@.push(digits@[i as int]) + less.reverse() =~= out@ + more.reverse());
        }
        out.push(digits[i]);
    }
    assert(digits@.take(0).reverse() =~= Seq::<u8>::empty());
    assert(out@ + Seq::<u8>::empty() =~= out@);
}

/// What is left of `s` after `prefix`, where `s` starts with it.
pub fn strip_prefix<'a>(s: &'a [u8], prefix: &[u8]) -> (r: Option<&'a [u8]>)
    ensures
        match r {
            Some(rest) => s@ == prefix@ + rest@,
            None => !(s@.len() >= prefix@.len() && s@.take(prefix@.len() as int) == prefix@),
        },
{
    if s.len() < prefix.len() {
        return None;
    }
    if !bytes_eq(&s[0..prefix.len()], prefix) {
        assert(s@.subrange(0, prefix@.len() as int) =~= s@.take(prefix@.len() as int));
        return None;
    }
    let rest = &s[prefix.len()..s.len()];
    assert(s@ =~= prefix@ + rest@);
    Some(rest)
}

/// Appends `bytes` to `out`.
pub fn push_bytes(out: &mut Vec<u8>, bytes: &[u8])
    ensures
        final(out)@ == old(out)@ + bytes@,
{
    let mut i: usize = 0;
    while i < bytes.len()
        invariant
            i <= bytes.len(),
            out@ == old(out)@ + bytes@.take(i as int),
        decreases bytes.len() - i,
    {
        out.push(bytes[i]);
        assert(bytes@.take(i + 1) =~= bytes@.take(i as int).push(bytes@[i as int]));
        i += 1;
    }
    assert(bytes@.take(i as int) =~= bytes@);
}

/// Where `s` holds `byte` at `at` and nowhere from `from` up to there, `at` is
/// the first place at or after `from` that holds it.
pub proof fn lemma_first_index_is(s: Seq<u8>, byte: u8, from: int, at: int)
    requires
        0 <= from <= at <= s.len(),
        at < s.len() ==> s[at] == byte,
        forall|i: int| from <= i < at ==> s[i] != byte,
    ensures
        first_index(s, byte, from) == at,
{
    lemma_first_index(s, byte, from);
}

/// The line that starts at `start` is `s` where the text holds `s` there, without
/// a line feed in it or a carriage return at its end, and a line feed after it.
pub proof fn lemma_next_line_at(text: Seq<u8>, start: int, s: Seq<u8>)
    requires
        0 <= start,
        start + s.len() < text.len(),
        text.subrange(start, start + s.len()) == s,
        text[start + s.len()] == LINE_FEED,
        forall|i: int| 0 <= i < s.len() ==> s[i] != LINE_FEED,
        s.len() > 0 ==> s.last() != CARRIAGE_RETURN,
    ensures
        next_line(text, start) == Some((s, start + s.len() + 1)),
{
    let end = start + s.len();
    assert forall|i: int| start <= i < end implies text[i] != LINE_FEED by {
        assert(text[i] == s[i - start]);
    }
    lemma_first_index_is(text, LINE_FEED, start, end);
    if s.len() > 0 {
        assert(text[end - 1] == s[s.len() - 1]);
    }
}

/// Text that ends with an ASCII character that is no white space has no white
/// space at its end; so has empty text.
pub proof fn lemma_trim_end_nothing(s: Seq<u8>)
    requires
        s.len() > 0 ==> s.last() < 128 && !is_space_byte(s.last()),
    ensures
        trim_end(s) == s,
{
}

/// Text that starts with an ASCII character that is no white space has no white
/// space at its start.
pub proof fn lemma_trim_start_nothing(s: Seq<u8>)
    requires
        s.len() > 0 ==> s[0] < 128 && !is_space_byte(s[0]),
    ensures
        trim_start(s) == s,
{
}

/// The digits of a number that is `max` at most are read as that number.
pub proof fn lemma_parse_number_decimal(n: nat, max: nat)
    requires
        n <= max,
    ensures
        parse_number(decimal(n), max) == Some(n),
{
    lemma_decimal_round_trip(n);
    assert(is_digit(decimal(n)[0]));
}

} // verus!
