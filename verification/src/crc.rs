use vstd::prelude::*;

verus! {

/// The start value of the OpenPGP CRC-24.
pub const CRC24_INIT: u32 = 0xb704ce;

/// The generator polynomial of the OpenPGP CRC-24, with its leading term.
pub const CRC24_POLY: u32 = 0x1864cfb;

/// One step of the division: the register moves left by one bit, and the
/// polynomial is taken off where a bit has left the 24.
pub open spec fn crc24_shift(crc: u32) -> u32 {
    let moved = crc << 1;
    if moved & 0x1000000 != 0 {
        moved ^ CRC24_POLY
    } else {
        moved
    }
}

/// `steps` steps of the division.
pub open spec fn crc24_shifts(crc: u32, steps: nat) -> u32
    decreases steps,
{
    if steps == 0 {
        crc
    } else {
        crc24_shift(crc24_shifts(crc, (steps - 1) as nat))
    }
}

/// The register after one more byte: the byte is added to the top eight of the
/// 24 bits, and eight steps are made.
pub open spec fn crc24_byte(crc: u32, byte: u8) -> u32 {
    crc24_shifts(crc ^ ((byte as u32) << 16), 8)
}

/// The register after all of `bytes`.
pub open spec fn crc24_register(bytes: Seq<u8>) -> u32
    decreases bytes.len(),
{
    if bytes.len() == 0 {
        CRC24_INIT
    } else {
        crc24_byte(crc24_register(bytes.drop_last()), bytes.last())
    }
}

/// The CRC-24 of `bytes`, as OpenPGP defines it.
pub open spec fn crc24_of(bytes: Seq<u8>) -> u32 {
    crc24_register(bytes) & 0xffffff
}

/// `crc24_byte` with its eight steps written out.
spec fn byte_unrolled(crc: u32, byte: u8) -> u32 {
    crc24_shift(
        crc24_shift(
            crc24_shift(
                crc24_shift(
                    crc24_shift(
                        crc24_shift(crc24_shift(crc24_shift(crc ^ ((byte as u32) << 16)))),
                    ),
                ),
            ),
        ),
    )
}

proof fn lemma_byte_unrolled(crc: u32, byte: u8)
    ensures
        crc24_byte(crc, byte) == byte_unrolled(crc, byte),
{
    reveal_with_fuel(crc24_shifts, 9);
}

proof fn lemma_byte_bits(c: u32, d: u32, x: u8, y: u8)
    by (bit_vector)
    requires
        c < 0x1000000,
        d < 0x1000000,
    ensures
        byte_unrolled(c, x) < 0x1000000,
        byte_unrolled(c, x) & 0xffffff == byte_unrolled(c, x),
        byte_unrolled(c, x) == byte_unrolled(d, x) ==> c == d,
        byte_unrolled(c, x) == byte_unrolled(c, y) ==> x == y,
{
}

/// The register never holds more than 24 bits.
pub proof fn lemma_crc24_register_bound(bytes: Seq<u8>)
    ensures
        crc24_register(bytes) < 0x1000000,
        crc24_of(bytes) == crc24_register(bytes),
        crc24_of(bytes) < 0x1000000,
    decreases bytes.len(),
{
    if bytes.len() == 0 {
        assert(0xb704ceu32 & 0xffffff == 0xb704ceu32) by (bit_vector);
    } else {
        let before = crc24_register(bytes.drop_last());
        lemma_crc24_register_bound(bytes.drop_last());
        lemma_byte_unrolled(before, bytes.last());
        lemma_byte_bits(before, before, bytes.last(), bytes.last());
    }
}

/// The checksum tells any two buffers apart that differ in a single byte.
pub proof fn lemma_crc24_detects_byte_change(a: Seq<u8>, b: Seq<u8>, at: int)
    requires
        a.len() == b.len(),
        0 <= at < a.len(),
        a[at] != b[at],
        forall|i: int| 0 <= i < a.len() && i != at ==> a[i] == b[i],
    ensures
        crc24_of(a) != crc24_of(b),
    decreases a.len(),
{
    let a0 = a.drop_last();
    let b0 = b.drop_last();
    let ca = crc24_register(a0);
    let cb = crc24_register(b0);
    lemma_crc24_register_bound(a0);
    lemma_crc24_register_bound(b0);
    lemma_crc24_register_bound(a);
    lemma_crc24_register_bound(b);
    lemma_byte_unrolled(ca, a.last());
    lemma_byte_unrolled(cb, b.last());
    if at == a.len() - 1 {
        assert(a0 =~= b0);
        lemma_byte_bits(ca, ca, a.last(), b.last());
    } else {
        lemma_crc24_detects_byte_change(a0, b0, at);
        lemma_byte_bits(ca, cb, a.last(), a.last());
    }
}

/// The OpenPGP CRC-24 of `bytes`.
pub fn crc24(bytes: &[u8]) -> (r: u32)
    ensures
        r == crc24_of(bytes@),
{
    let mut crc = CRC24_INIT;
    let mut i: usize = 0;
    while i < bytes.len()
        invariant
            i <= bytes.len(),
            crc == crc24_register(bytes@.take(i as int)),
        decreases bytes.len() - i,
    {
        let ghost before = crc;
        crc ^= (bytes[i] as u32) << 16;
        let ghost start = crc;
        let mut k: u32 = 0;
        while k < 8
            invariant
                k <= 8,
                crc == crc24_shifts(start, k as nat),
            decreases 8 - k,
        {
            crc <<= 1;
            if crc & 0x1000000 != 0 {
                crc ^= CRC24_POLY;
            }
            k += 1;
        }
        proof {
            let more = bytes@.take(i + 1);
            assert(more.drop_last() =~= bytes@.take(i as int));
            assert(more.last() == bytes@[i as int]);
        }
        i += 1;
    }
    assert(bytes@.take(i as int) =~= bytes@);
    crc & 0xffffff
}

} // verus!
