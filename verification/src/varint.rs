use vstd::arithmetic::power2::{lemma2_to64, lemma2_to64_rest, pow2};
use vstd::prelude::*;

verus! {

/// The bytes of a var-u65 from some byte on: `group` is the byte's payload and
/// `rest` is what is still to come after it. A byte that another follows has its
/// top bit set; each later byte carries seven more bits, low ones first.
pub open spec fn var_bytes(group: nat, rest: nat) -> Seq<u8>
    decreases rest,
{
    if rest == 0 {
        seq![group as u8]
    } else {
        seq![(group + 128) as u8] + var_bytes(rest % 128, rest / 128)
    }
}

/// The var-u65 of a 64-bit value `hi` and one more bit `lo` below it. The first
/// byte carries `lo` in its lowest bit and the six low bits of `hi` above it.
pub open spec fn var_u65(hi: nat, lo: nat) -> Seq<u8> {
    var_bytes(2 * (hi % 64) + lo, hi / 64)
}

/// The largest value, and one more, that the bytes from some byte on may carry
/// when `left` bytes may still be read: the tenth byte of a var-u65 holds the
/// two top bits of the 64, and has no successor.
pub open spec fn var_limit(left: nat) -> nat
    decreases left,
{
    if left <= 1 {
        4
    } else {
        128 * var_limit((left - 1) as nat)
    }
}

/// Reads the bytes of a var-u65 after its first, from `s[at]` on, where `left`
/// bytes may still be read. Gives what they carry and where they end, or `None`
/// where `s` ends too early or the last byte that may be read is 4 or more.
pub open spec fn parse_var_rest(s: Seq<u8>, at: int, left: nat) -> Option<(nat, int)>
    decreases left,
{
    if left == 0 || at < 0 || at >= s.len() {
        None
    } else {
        let b = s[at] as nat;
        if left == 1 {
            if b >= 4 {
                None
            } else {
                Some((b, at + 1))
            }
        } else if b < 128 {
            Some((b, at + 1))
        } else {
            match parse_var_rest(s, at + 1, (left - 1) as nat) {
                None => None,
                Some((v, end)) => Some(((b - 128) as nat + 128 * v, end)),
            }
        }
    }
}

/// Reads one var-u65 from the front of `s`: the 64-bit value, the bit below it,
/// and the number of bytes read. `None` where `s` is empty or the var-u65 is
/// malformed.
pub open spec fn parse_var_u65(s: Seq<u8>) -> Option<(nat, nat, nat)> {
    if s.len() == 0 {
        None
    } else {
        let b = s[0] as nat;
        let lo = b % 2;
        let hi = (b % 128) / 2;
        if b < 128 {
            Some((hi, lo, 1))
        } else {
            match parse_var_rest(s, 1, 9) {
                None => None,
                Some((v, end)) => Some((hi + 64 * v, lo, end as nat)),
            }
        }
    }
}

/// A var-u65 has from one to ten bytes.
pub proof fn lemma_var_u65_len(hi: nat, lo: nat)
    requires
        hi <= u64::MAX,
        lo <= 1,
    ensures
        1 <= var_u65(hi, lo).len() <= 10,
{
    reveal_with_fuel(var_limit, 10);
    let rest = hi / 64;
    if rest != 0 {
        lemma_var_bytes_len(rest % 128, rest / 128, 9);
    }
}

proof fn lemma_var_bytes_len(group: nat, rest: nat, left: nat)
    requires
        left >= 1,
        group + 128 * rest < var_limit(left),
    ensures
        1 <= var_bytes(group, rest).len() <= left,
    decreases rest,
{
    if rest != 0 {
        lemma_var_bytes_len(rest % 128, rest / 128, (left - 1) as nat);
    }
}

proof fn lemma_parse_var_bytes(pre: Seq<u8>, group: nat, rest: nat, post: Seq<u8>, left: nat)
    requires
        left >= 1,
        group < 128,
        group + 128 * rest < var_limit(left),
    ensures
        parse_var_rest(pre + var_bytes(group, rest) + post, pre.len() as int, left) == Some(
            (group + 128 * rest, (pre.len() + var_bytes(group, rest).len()) as int),
        ),
    decreases rest,
{
    let bytes = var_bytes(group, rest);
    let s = pre + bytes + post;
    let at = pre.len() as int;
    assert(s[at] == bytes[0]);
    if rest != 0 {
        let head = seq![(group + 128) as u8];
        let tail = var_bytes(rest % 128, rest / 128);
        assert(s =~= (pre + head) + tail + post);
        lemma_parse_var_bytes(pre + head, rest % 128, rest / 128, post, (left - 1) as nat);
    }
}

/// What was written as a var-u65 is read back, whatever follows it.
pub proof fn lemma_var_u65_round_trip(hi: nat, lo: nat, post: Seq<u8>)
    requires
        hi <= u64::MAX,
        lo <= 1,
    ensures
        parse_var_u65(var_u65(hi, lo) + post) == Some((hi, lo, var_u65(hi, lo).len())),
{
    reveal_with_fuel(var_limit, 10);
    let group = 2 * (hi % 64) + lo;
    let rest = hi / 64;
    let bytes = var_u65(hi, lo);
    let s = bytes + post;
    assert(s[0] == bytes[0]);
    if rest != 0 {
        let head = seq![(group + 128) as u8];
        let tail = var_bytes(rest % 128, rest / 128);
        assert(s =~= head + tail + post);
        lemma_parse_var_bytes(head, rest % 128, rest / 128, post, 9);
    }
}

/// A var-u65 that was read holds a 64-bit value and a bit, and takes up from one
/// to ten bytes of the input.
pub proof fn lemma_parse_var_u65_bounds(s: Seq<u8>)
    requires
        parse_var_u65(s) is Some,
    ensures
        parse_var_u65(s).unwrap().0 <= u64::MAX,
        parse_var_u65(s).unwrap().1 <= 1,
        1 <= parse_var_u65(s).unwrap().2 <= 10,
        parse_var_u65(s).unwrap().2 <= s.len(),
{
    reveal_with_fuel(var_limit, 10);
    if s[0] >= 128 {
        lemma_parse_var_rest_bounds(s, 1, 9);
    }
}

proof fn lemma_var_limit_min(left: nat)
    ensures
        var_limit(left) >= 4,
    decreases left,
{
    if left > 1 {
        lemma_var_limit_min((left - 1) as nat);
    }
}

proof fn lemma_parse_var_rest_bounds(s: Seq<u8>, at: int, left: nat)
    requires
        parse_var_rest(s, at, left) is Some,
    ensures
        parse_var_rest(s, at, left).unwrap().0 < var_limit(left),
        at < parse_var_rest(s, at, left).unwrap().1 <= at + left,
        parse_var_rest(s, at, left).unwrap().1 <= s.len(),
    decreases left,
{
    if left > 1 {
        lemma_var_limit_min((left - 1) as nat);
        if s[at] >= 128 {
            lemma_parse_var_rest_bounds(s, at + 1, (left - 1) as nat);
        }
    }
}

proof fn lemma_first_byte(x: u64, lo: u8)
    by (bit_vector)
    requires
        lo <= 1,
    ensures
        (((x & 0x3f) << 1) as u8) | lo == 2 * (x % 64) + lo,
        x >> 6 == x / 64,
{
}

proof fn lemma_next_byte(x: u64, b: u8)
    by (bit_vector)
    requires
        b < 128,
    ensures
        b | 0x80 == b + 128,
        (x & 0x7f) as u8 == x % 128,
        x >> 7 == x / 128,
{
}

/// Appends the var-u65 of `hi_64` and `lo_1` to `buf`.
pub fn write_var_u65(buf: &mut Vec<u8>, hi_64: u64, lo_1: u8)
    requires
        lo_1 <= 1,
    ensures
        final(buf)@ == old(buf)@ + var_u65(hi_64 as nat, lo_1 as nat),
{
    let mut x = hi_64;
    let mut b = ((x & 0x3f) << 1) as u8 | lo_1;
    proof {
        lemma_first_byte(x, lo_1);
    }
    x >>= 6;
    while x != 0
        invariant
            b < 128,
            old(buf)@ + var_u65(hi_64 as nat, lo_1 as nat) == buf@ + var_bytes(b as nat, x as nat),
        decreases x,
    {
        proof {
            lemma_next_byte(x, b);
            assert(buf@.push((b + 128) as u8) + var_bytes((x % 128) as nat, (x / 128) as nat)
                =~= buf@ + var_bytes(b as nat, x as nat));
        }
        buf.push(b | 0x80);
        b = (x & 0x7f) as u8;
        x >>= 7;
    }
    proof {
        assert(buf@.push(b) =~= buf@ + var_bytes(b as nat, 0));
    }
    buf.push(b);
}

proof fn lemma_read_first(b: u8)
    by (bit_vector)
    ensures
        b & 1 == b % 2,
        ((b & 0x7f) >> 1) as u64 == (b % 128) / 2,
        (b & 0x80 != 0) == (b >= 128),
        (b & 0x7f) as u64 == b % 128,
{
}

proof fn lemma_merge(hi: u64, c: u64, shifts: u32)
    by (bit_vector)
    requires
        shifts < 64,
        hi < (1u64 << shifts),
    ensures
        hi | (c << shifts) == hi + (c << shifts),
{
}

/// Reads one var-u65 from the front of `buf`: the value, the bit below it and
/// the number of bytes that it took.
pub fn read_var_u65(buf: &[u8]) -> (r: Option<(u64, u8, usize)>)
    ensures
        match r {
            Some((hi, lo, n)) => parse_var_u65(buf@) == Some((hi as nat, lo as nat, n as nat)),
            None => parse_var_u65(buf@) is None,
        },
{
    if buf.len() == 0 {
        return None;
    }
    let mut b = buf[0];
    let lo_1 = b & 1;
    let mut hi_64 = ((b & 0x7f) >> 1) as u64;
    let mut shifts: u32 = 6;
    let mut i: usize = 1;
    let ghost whole = parse_var_u65(buf@);
    proof {
        lemma_read_first(b);
        lemma2_to64();
        lemma2_to64_rest();
    }
    while b & 0x80 != 0
        invariant_except_break
            1 <= i <= 9,
            i <= buf.len(),
            shifts == 7 * i - 1,
            hi_64 < pow2(shifts as nat),
            b == buf@[i - 1],
            (b & 0x80 != 0) == (b >= 128),
            b >= 128 ==> whole == (match parse_var_rest(buf@, i as int, (10 - i) as nat) {
                None => None,
                Some((v, end)) => Some(
                    ((hi_64 + pow2(shifts as nat) * v) as nat, lo_1 as nat, end as nat),
                ),
            }),
            b < 128 ==> whole == Some((hi_64 as nat, lo_1 as nat, i as nat)),
        invariant
            whole == parse_var_u65(buf@),
        ensures
            whole == Some((hi_64 as nat, lo_1 as nat, i as nat)),
        decreases 10 - i,
    {
        proof {
            lemma_read_first(b);
        }
        if i >= buf.len() {
            return None;
        }
        b = buf[i];
        let ghost left = (10 - i) as nat;
        let ghost at = i as int;
        let ghost w = pow2(shifts as nat);
        let ghost old_hi = hi_64;
        i += 1;
        let c = (b & 0x7f) as u64;
        proof {
            lemma_read_first(b);
            lemma2_to64();
            lemma2_to64_rest();
            assert(shifts == 6 || shifts == 13 || shifts == 20 || shifts == 27 || shifts == 34
                || shifts == 41 || shifts == 48 || shifts == 55 || shifts == 62);
            if shifts < 62 {
                assert(pow2((shifts + 7) as nat) == 128 * w);
            }
            vstd::bits::lemma_u64_shl_is_mul(1, shifts as u64);
            assert(1u8 << 2u32 == 4) by (bit_vector);
            if shifts < 62 || b < 4 {
                vstd::bits::lemma_u64_shl_is_mul(c, shifts as u64);
            }
            lemma_merge(hi_64, c, shifts);
        }
        hi_64 |= c << shifts;
        if shifts + 7 > 64 {
            if b >= 1u8 << (64 - shifts) {
                return None;
            }
            break;
        }
        shifts += 7;
        proof {
            if b < 128 {
                assert(parse_var_rest(buf@, at, left) == Some((b as nat, at + 1)));
                assert(w * (b as nat) == c * w) by (nonlinear_arith)
                    requires
                        c == b,
                ;
            }
            if b >= 128 {
                match parse_var_rest(buf@, at + 1, (left - 1) as nat) {
                    None => {},
                    Some((v, end)) => {
                        assert(old_hi + w * ((b - 128) + 128 * v) == hi_64 + (128 * w) * v)
                            by (nonlinear_arith)
                            requires
                                hi_64 == old_hi + (b - 128) * w,
                        ;
                    },
                }
            }
        }
    }
    Some((hi_64, lo_1, i))
}

} // verus!
