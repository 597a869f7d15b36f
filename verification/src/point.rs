use vstd::prelude::*;

verus! {

/// A board coordinate.
#[derive(Debug, Clone, Copy, PartialEq, Eq, Hash, Structural)]
pub struct Point {
    pub x: i32,
    pub y: i32,
}

/// The zigzag code of a signed integer: 0, -1, 1, -2, 2, ... are numbered
/// 0, 1, 2, 3, 4, ...
pub open spec fn zigzag(x: int) -> nat {
    if x >= 0 {
        (2 * x) as nat
    } else {
        (-2 * x - 1) as nat
    }
}

/// The signed integer whose zigzag code is `u`.
pub open spec fn unzigzag(u: nat) -> int {
    if u % 2 == 0 {
        (u / 2) as int
    } else {
        -((u / 2) as int) - 1
    }
}

/// `v` with a zero bit put above each of its bits: bit `i` of `v` is bit `2 * i`
/// of the result, and the odd bits of the result are zero.
pub open spec fn spread(v: nat) -> nat
    decreases v,
{
    if v == 0 {
        0
    } else {
        v % 2 + 4 * spread(v / 2)
    }
}

/// The number made of the even bits of `k`: bit `2 * i` of `k` is bit `i` of the
/// result.
pub open spec fn compact(k: nat) -> nat
    decreases k,
{
    if k == 0 {
        0
    } else {
        k % 2 + 2 * compact(k / 4)
    }
}

/// The Morton key of two naturals: the bits of `x` at the even positions and the
/// bits of `y` at the odd positions.
pub open spec fn morton(x: nat, y: nat) -> nat {
    spread(x) + 2 * spread(y)
}

/// Zigzag coding is undone by `unzigzag`, and the other way round.
pub proof fn lemma_zigzag_round_trip(x: int, u: nat)
    ensures
        unzigzag(zigzag(x)) == x,
        zigzag(unzigzag(u)) == u,
{
}

/// Both coordinates are recovered from a Morton key: `x` from its even bits and
/// `y` from its odd bits.
pub proof fn lemma_morton_round_trip(x: nat, y: nat)
    ensures
        compact(morton(x, y)) == x,
        compact(morton(x, y) / 2) == y,
    decreases x + y,
{
    let m = morton(x, y);
    if x == 0 && y == 0 {
        assert(compact(0) == 0);
    } else {
        lemma_morton_round_trip(x / 2, y / 2);
        let h = morton(x / 2, y / 2);
        assert(spread(x) == x % 2 + 4 * spread(x / 2));
        assert(spread(y) == y % 2 + 4 * spread(y / 2));
        assert(m == x % 2 + 2 * (y % 2) + 4 * h);
        assert(m % 2 == x % 2);
        assert(m / 4 == h);
        assert((m / 2) % 2 == y % 2);
        assert((m / 2) / 4 == h / 2);
        assert(m != 0) by {
            if x != 0 {
                lemma_spread_positive(x);
            } else {
                lemma_spread_positive(y);
            }
        }
        if m / 2 == 0 {
            assert(y % 2 == 0 && h == 0);
            assert(compact(h / 2) == compact(0));
        }
    }
}

/// A Morton key is rebuilt from the two numbers that its even and its odd bits
/// make.
pub proof fn lemma_morton_of_parts(k: nat)
    ensures
        morton(compact(k), compact(k / 2)) == k,
    decreases k,
{
    if k != 0 {
        lemma_morton_of_parts(k / 4);
        let a = compact(k);
        let b = compact(k / 2);
        assert(a == k % 2 + 2 * compact(k / 4));
        assert((k / 2) / 4 == (k / 4) / 2);
        if k / 2 == 0 {
            assert(k / 4 == 0);
            assert(b == 0);
            assert(compact((k / 4) / 2) == 0);
        } else {
            assert(b == (k / 2) % 2 + 2 * compact((k / 4) / 2));
        }
        assert(a / 2 == compact(k / 4));
        assert(b / 2 == compact((k / 4) / 2));
        lemma_spread_unfold(a);
        lemma_spread_unfold(b);
    }
}

proof fn lemma_spread_unfold(v: nat)
    ensures
        spread(v) == v % 2 + 4 * spread(v / 2),
{
    if v == 0 {
        assert(spread(0) == 0);
    }
}

proof fn lemma_spread_positive(v: nat)
    requires
        v != 0,
    ensures
        spread(v) != 0,
    decreases v,
{
    if v % 2 == 0 {
        lemma_spread_positive(v / 2);
    }
}

/// The masks-and-shifts form of `spread`, on 64-bit words.
spec fn scatter_bits(x: u64) -> u64 {
    let x = (x | (x << 16)) & 0x0000ffff0000ffff;
    let x = (x | (x << 8)) & 0x00ff00ff00ff00ff;
    let x = (x | (x << 4)) & 0x0f0f0f0f0f0f0f0f;
    let x = (x | (x << 2)) & 0x3333333333333333;
    (x | (x << 1)) & 0x5555555555555555
}

/// The masks-and-shifts form of `compact`, on 64-bit words.
spec fn gather_bits(x: u64) -> u32 {
    let x = x & 0x5555555555555555;
    let x = (x | (x >> 1)) & 0x3333333333333333;
    let x = (x | (x >> 2)) & 0x0f0f0f0f0f0f0f0f;
    let x = (x | (x >> 4)) & 0x00ff00ff00ff00ff;
    let x = (x | (x >> 8)) & 0x0000ffff0000ffff;
    (x | (x >> 16)) as u32
}

proof fn lemma_scatter_step(x: u64)
    by (bit_vector)
    requires
        x <= 0xffff_ffff,
    ensures
        scatter_bits(x) == x % 2 + 4 * scatter_bits(x / 2),
        scatter_bits(0) == 0,
{
}

proof fn lemma_gather_step(k: u64)
    by (bit_vector)
    ensures
        gather_bits(k) == k % 2 + 2 * gather_bits(k / 4),
        gather_bits(0) == 0,
{
}

proof fn lemma_interleave_is_sum(x: u64, y: u64)
    by (bit_vector)
    requires
        x <= 0xffff_ffff,
        y <= 0xffff_ffff,
    ensures
        scatter_bits(x) | (scatter_bits(y) << 1) == scatter_bits(x) + 2 * scatter_bits(y),
{
}

proof fn lemma_scatter_is_spread(x: u64)
    requires
        x <= 0xffff_ffff,
    ensures
        scatter_bits(x) == spread(x as nat),
    decreases x,
{
    lemma_scatter_step(x);
    if x != 0 {
        lemma_scatter_is_spread(x / 2);
    }
}

proof fn lemma_gather_is_compact(k: u64)
    ensures
        gather_bits(k) == compact(k as nat),
    decreases k,
{
    lemma_gather_step(k);
    if k != 0 {
        lemma_gather_is_compact(k / 4);
    }
}

/// The number that the even bits of a 64-bit key make fits in 32 bits.
pub proof fn lemma_compact_bound(k: nat)
    requires
        k <= u64::MAX,
    ensures
        compact(k) <= u32::MAX,
{
    lemma_gather_is_compact(k as u64);
}

/// The Morton key of two 32-bit numbers fits in 64 bits.
pub proof fn lemma_morton_bound(x: nat, y: nat)
    requires
        x <= u32::MAX,
        y <= u32::MAX,
    ensures
        morton(x, y) <= u64::MAX,
{
    lemma_scatter_is_spread(x as u64);
    lemma_scatter_is_spread(y as u64);
    lemma_interleave_is_sum(x as u64, y as u64);
}

/// The zigzag code of `x`.
pub fn zigzag_encode(x: i32) -> (r: u32)
    ensures
        r == zigzag(x as int),
{
    let r = ((x << 1) ^ (x >> 31)) as u32;
    assert(((x << 1u32) ^ (x >> 31u32)) as u32 == (if x >= 0 {
        2 * x
    } else {
        -2 * x - 1
    })) by (bit_vector);
    r
}

/// The integer whose zigzag code is `x`.
pub fn zigzag_decode(x: u32) -> (r: i32)
    ensures
        r == unzigzag(x as nat),
{
    let low: u32 = x & 1;
    assert(low == 0 || low == 1) by (bit_vector)
        requires
            low == x & 1,
    ;
    let mask: u32 = 0u32.wrapping_sub(low);
    let r = ((x >> 1) ^ mask) as i32;
    assert(r == (if x % 2 == 0 {
        (x / 2) as int
    } else {
        -(x / 2) - 1
    })) by (bit_vector)
        requires
            low == x & 1,
            mask == (if low == 0 {
                0u32
            } else {
                0xffff_ffffu32
            }),
            r == ((x >> 1u32) ^ mask) as i32,
    ;
    r
}

/// The bits of `x` at the even positions of a 64-bit word.
fn scatter_even(x: u32) -> (r: u64)
    ensures
        r == spread(x as nat),
{
    let mut x = x as u64;
    proof {
        lemma_scatter_is_spread(x);
    }
    x = (x | (x << 16)) & 0x0000ffff0000ffff;
    x = (x | (x << 8)) & 0x00ff00ff00ff00ff;
    x = (x | (x << 4)) & 0x0f0f0f0f0f0f0f0f;
    x = (x | (x << 2)) & 0x3333333333333333;
    x = (x | (x << 1)) & 0x5555555555555555;
    x
}

/// The bits at the even positions of `x`.
fn gather_even(x: u64) -> (r: u32)
    ensures
        r == compact(x as nat),
{
    proof {
        lemma_gather_is_compact(x);
    }
    let mut x = x;
    x = x & 0x5555555555555555;
    x = (x | (x >> 1)) & 0x3333333333333333;
    x = (x | (x >> 2)) & 0x0f0f0f0f0f0f0f0f;
    x = (x | (x >> 4)) & 0x00ff00ff00ff00ff;
    x = (x | (x >> 8)) & 0x0000ffff0000ffff;
    (x | (x >> 16)) as u32
}

/// The Morton key of `x` and `y`: the bits of `x` at the even positions, those of
/// `y` at the odd ones.
pub fn interleave(x: u32, y: u32) -> (r: u64)
    ensures
        r == morton(x as nat, y as nat),
{
    let even = scatter_even(x);
    let odd = scatter_even(y);
    proof {
        lemma_scatter_is_spread(x as u64);
        lemma_scatter_is_spread(y as u64);
        lemma_interleave_is_sum(x as u64, y as u64);
    }
    even | (odd << 1)
}

/// The two numbers that the even and the odd bits of `i` make.
pub fn deinterleave(i: u64) -> (r: (u32, u32))
    ensures
        r.0 == compact(i as nat),
        r.1 == compact(i as nat / 2),
{
    assert(i >> 1 == i / 2) by (bit_vector);
    (gather_even(i), gather_even(i >> 1))
}

impl Point {
    /// The Morton key of this point: its zigzag-coded coordinates, `x` at the even
    /// bit positions and `y` at the odd ones.
    pub open spec fn spec_index(self) -> nat {
        morton(zigzag(self.x as int), zigzag(self.y as int))
    }

    /// The point that has the Morton key `i`.
    pub open spec fn spec_from_index(i: nat) -> Point {
        Point { x: unzigzag(compact(i)) as i32, y: unzigzag(compact(i / 2)) as i32 }
    }

    /// The point at `x` and `y`.
    pub fn new(x: i32, y: i32) -> (p: Point)
        ensures
            p == (Point { x, y }),
    {
        Point { x, y }
    }

    /// The point in the middle of the board, whose Morton key is 0.
    pub fn origin() -> (p: Point)
        ensures
            p == (Point { x: 0, y: 0 }),
    {
        Point { x: 0, y: 0 }
    }

    /// The Morton key of this point.
    pub fn index(self) -> (r: u64)
        ensures
            r == self.spec_index(),
    {
        let x = zigzag_encode(self.x);
        let y = zigzag_encode(self.y);
        interleave(x, y)
    }

    /// The point that has the Morton key `i`.
    pub fn from_index(i: u64) -> (p: Point)
        ensures
            p == Point::spec_from_index(i as nat),
    {
        let (x, y) = deinterleave(i);
        proof {
            lemma_compact_bound(i as nat);
            lemma_compact_bound(i as nat / 2);
        }
        Point::new(zigzag_decode(x), zigzag_decode(y))
    }
}

/// Every point is found again from its Morton key, and its key fits in 64 bits.
pub proof fn lemma_index_round_trip(p: Point)
    ensures
        p.spec_index() <= u64::MAX,
        Point::spec_from_index(p.spec_index()) == p,
{
    let zx = zigzag(p.x as int);
    let zy = zigzag(p.y as int);
    lemma_morton_bound(zx, zy);
    lemma_morton_round_trip(zx, zy);
    lemma_zigzag_round_trip(p.x as int, 0);
    lemma_zigzag_round_trip(p.y as int, 0);
}

/// Every 64-bit key is the Morton key of the point that it is decoded to: with
/// `lemma_index_round_trip`, points and 64-bit keys correspond one to one.
pub proof fn lemma_from_index_round_trip(i: u64)
    ensures
        Point::spec_from_index(i as nat).spec_index() == i,
{
    let a = compact(i as nat);
    let b = compact(i as nat / 2);
    lemma_compact_bound(i as nat);
    lemma_compact_bound(i as nat / 2);
    lemma_morton_of_parts(i as nat);
    lemma_zigzag_round_trip(0, a);
    lemma_zigzag_round_trip(0, b);
}

/// Two points with the same Morton key are the same point.
pub proof fn lemma_index_injective(p: Point, q: Point)
    requires
        p.spec_index() == q.spec_index(),
    ensures
        p == q,
{
    lemma_index_round_trip(p);
    lemma_index_round_trip(q);
}

} // verus!
