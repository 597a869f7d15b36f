use crate::point::{lemma_index_injective, lemma_index_round_trip, Point};
use crate::stone::Stone;
use std::collections::BTreeMap;
use vstd::arithmetic::power2::{lemma2_to64, pow2};
use vstd::prelude::*;

verus! {

/// A chunk covers a square of `2^CHUNK_SIZE_BITS` by `2^CHUNK_SIZE_BITS` cells.
pub const CHUNK_SIZE_BITS: u32 = 4;

/// The low bits of a Morton key that pick a slot within a word.
pub const SLOT_INDEX_BITS: u32 = 5;

/// The next bits of a Morton key, which pick a word within a chunk.
pub const WORD_INDEX_BITS: u32 = CHUNK_SIZE_BITS * 2 - SLOT_INDEX_BITS;

/// A word holds 32 slots of two bits.
pub const SLOTS_PER_WORD: usize = 32;

/// A chunk holds 16 * 16 slots of two bits, in words of 64 bits.
pub const WORDS_PER_CHUNK: usize = 8;

/// What the two bits of a slot stand for: `00` an empty cell, `01` a black stone,
/// `10` a white one. No operation writes `11`; it reads as white.
pub open spec fn stone_of_code(code: u64) -> Option<Stone> {
    if code == 0 {
        None
    } else if code == 1 {
        Some(Stone::Black)
    } else {
        Some(Stone::White)
    }
}

/// The two bits of the slot `slot` in `word`.
pub open spec fn slot_code(word: u64, slot: u64) -> u64 {
    (word >> (2 * slot) as u64) & 3
}

proof fn lemma_slot_code_range(w: u64, s: u64)
    by (bit_vector)
    ensures
        slot_code(w, s) <= 3,
        slot_code(0, s) == 0,
{
}

proof fn lemma_slot_set(w: u64, s: u64, c: u64, t: u64)
    by (bit_vector)
    requires
        s < 32,
        t < 32,
        c < 2,
        slot_code(w, s) == 0,
    ensures
        slot_code(w | (1u64 << ((2 * s + c) as u64)), s) == c + 1,
        t != s ==> slot_code(w | (1u64 << ((2 * s + c) as u64)), t) == slot_code(w, t),
{
}

proof fn lemma_slot_clear(w: u64, s: u64, t: u64)
    by (bit_vector)
    requires
        s < 32,
        t < 32,
    ensures
        slot_code(w & !(3u64 << ((2 * s) as u64)), s) == 0,
        t != s ==> slot_code(w & !(3u64 << ((2 * s) as u64)), t) == slot_code(w, t),
{
}

/// Takes the low `bits` bits off `i`, and returns them.
pub fn extract_lo_bits(i: &mut u64, bits: u32) -> (lo: u64)
    requires
        bits < 64,
    ensures
        lo == *old(i) % (pow2(bits as nat) as u64),
        *final(i) == *old(i) / (pow2(bits as nat) as u64),
        pow2(bits as nat) <= u64::MAX,
{
    let one: u64 = 1;
    let top: u64 = one << bits;
    proof {
        vstd::bits::lemma_u64_pow2_no_overflow(bits as nat);
        vstd::bits::lemma_u64_shl_is_mul(1, bits as u64);
        vstd::arithmetic::power2::lemma_pow2_pos(bits as nat);
        vstd::bits::lemma_u64_low_bits_mask_is_mod(*i, bits as nat);
        vstd::bits::lemma_u64_shr_is_div(*i, bits as u64);
        assert(top == pow2(bits as nat));
        assert(vstd::bits::low_bits_mask(bits as nat) == top - 1);
    }
    let lo = *i & (top - 1);
    *i = *i >> bits;
    lo
}

impl Point {
    /// Where the cell of this point is stored: the chunk's id, the word within the
    /// chunk and the slot within the word. They are the high bits, the next
    /// `WORD_INDEX_BITS` bits and the low `SLOT_INDEX_BITS` bits of its Morton key.
    pub open spec fn spec_indexes(self) -> (nat, nat, nat) {
        let i = self.spec_index();
        (i / 256, (i / 32) % 8, i % 32)
    }

    /// Where the cell of this point is stored: the chunk's id, the word within the
    /// chunk and the slot within the word.
    pub fn indexes(self) -> (r: (u64, usize, usize))
        ensures
            r.0 == self.spec_indexes().0,
            r.1 == self.spec_indexes().1,
            r.2 == self.spec_indexes().2,
            r.1 < WORDS_PER_CHUNK,
            r.2 < SLOTS_PER_WORD,
    {
        let mut i = self.index();
        proof {
            lemma2_to64();
        }
        let slot_i = extract_lo_bits(&mut i, SLOT_INDEX_BITS);
        let word_i = extract_lo_bits(&mut i, WORD_INDEX_BITS);
        assert(self.spec_index() / 32 / 8 == self.spec_index() / 256);
        (i, word_i as usize, slot_i as usize)
    }
}

/// Two points that are stored in the same slot are the same point.
pub proof fn lemma_indexes_injective(p: Point, q: Point)
    requires
        p.spec_indexes() == q.spec_indexes(),
    ensures
        p == q,
{
    let i = p.spec_index();
    let j = q.spec_index();
    assert(i == (i / 256) * 256 + ((i / 32) % 8) * 32 + i % 32);
    assert(j == (j / 256) * 256 + ((j / 32) % 8) * 32 + j % 32);
    lemma_index_injective(p, q);
}

/// A block of 16 * 16 cells, two bits each.
#[derive(Debug, Clone, Copy)]
pub struct Chunk {
    words: [u64; WORDS_PER_CHUNK],
}

impl Chunk {
    /// What the chunk holds in the slot `slot_i` of its word `word_i`.
    pub closed spec fn stone_at(self, word_i: nat, slot_i: nat) -> Option<Stone> {
        stone_of_code(self.code_at(word_i, slot_i))
    }

    /// The two bits of the slot `slot_i` of the word `word_i`.
    spec fn code_at(self, word_i: nat, slot_i: nat) -> u64 {
        slot_code(self.words[word_i as int], slot_i as u64)
    }

    /// No slot holds the code `11`.
    pub closed spec fn wf(self) -> bool {
        forall|w: nat, s: nat|
            w < WORDS_PER_CHUNK && s < SLOTS_PER_WORD ==> #[trigger] self.code_at(w, s) <= 2
    }

    /// A chunk of empty cells.
    pub fn empty() -> (r: Chunk)
        ensures
            r.wf(),
            forall|w: nat, s: nat|
                w < WORDS_PER_CHUNK && s < SLOTS_PER_WORD ==> #[trigger] r.stone_at(w, s) == None::<Stone>,
    {
        let r = Chunk { words: [0; WORDS_PER_CHUNK] };
        assert forall|w: nat, s: nat| w < WORDS_PER_CHUNK && s < SLOTS_PER_WORD implies #[trigger] r.code_at(w, s) == 0 by {
            lemma_slot_code_range(0, s as u64);
        }
        r
    }

    /// What the chunk holds in the slot `slot_i` of its word `word_i`.
    pub fn get(&self, word_i: usize, slot_i: usize) -> (r: Option<Stone>)
        requires
            word_i < WORDS_PER_CHUNK,
            slot_i < SLOTS_PER_WORD,
        ensures
            r == self.stone_at(word_i as nat, slot_i as nat),
    {
        let word = self.words[word_i];
        let code = (word >> (slot_i * 2)) & 3;
        proof {
            lemma_slot_code_range(word, slot_i as u64);
        }
        if code == 0 {
            None
        } else if code == 1 {
            Some(Stone::Black)
        } else {
            Some(Stone::White)
        }
    }

    /// Puts a stone into a slot, if the slot is empty; tells whether it was.
    pub fn set(&mut self, word_i: usize, slot_i: usize, stone: Stone) -> (r: bool)
        requires
            word_i < WORDS_PER_CHUNK,
            slot_i < SLOTS_PER_WORD,
            old(self).wf(),
        ensures
            final(self).wf(),
            r == (old(self).stone_at(word_i as nat, slot_i as nat) is None),
            !r ==> *final(self) == *old(self),
            r ==> final(self).stone_at(word_i as nat, slot_i as nat) == Some(stone),
            forall|w: nat, s: nat|
                w < WORDS_PER_CHUNK && s < SLOTS_PER_WORD && (w != word_i || s != slot_i)
                    ==> #[trigger] final(self).stone_at(w, s) == old(self).stone_at(w, s),
    {
        let word = self.words[word_i];
        if (word >> (slot_i * 2)) & 3 != 0 {
            return false;
        }
        let bit = stone.bit() as usize;
        let one: u64 = 1;
        let new_word = word | (one << (slot_i * 2 + bit));
        self.words[word_i] = new_word;
        proof {
            assert forall|w: nat, s: nat| w < WORDS_PER_CHUNK && s < SLOTS_PER_WORD implies 
                #[trigger] self.code_at(w, s) == (if w == word_i && s == slot_i { (bit + 1) as u64 } else { old(self).code_at(w, s) }) by {
                if w == word_i {
                    lemma_slot_set(word, slot_i as u64, bit as u64, s as u64);
                }
            }
            assert forall|w: nat, s: nat| w < WORDS_PER_CHUNK && s < SLOTS_PER_WORD implies #[trigger] self.code_at(w, s) <= 2 by {
                assert(old(self).code_at(w, s) <= 2);
            }
            assert forall|w: nat, s: nat| w < WORDS_PER_CHUNK && s < SLOTS_PER_WORD && (w != word_i || s != slot_i)
                implies #[trigger] self.stone_at(w, s) == old(self).stone_at(w, s) by {
                assert(self.code_at(w, s) == old(self).code_at(w, s));
            }
            assert(self.code_at(word_i as nat, slot_i as nat) == bit + 1);
        }
        true
    }

    /// Empties a slot, and returns what it held.
    pub fn unset(&mut self, word_i: usize, slot_i: usize) -> (r: Option<Stone>)
        requires
            word_i < WORDS_PER_CHUNK,
            slot_i < SLOTS_PER_WORD,
            old(self).wf(),
        ensures
            final(self).wf(),
            r == old(self).stone_at(word_i as nat, slot_i as nat),
            final(self).stone_at(word_i as nat, slot_i as nat) is None,
            forall|w: nat, s: nat|
                w < WORDS_PER_CHUNK && s < SLOTS_PER_WORD && (w != word_i || s != slot_i)
                    ==> #[trigger] final(self).stone_at(w, s) == old(self).stone_at(w, s),
    {
        let word = self.words[word_i];
        let three: u64 = 3;
        self.words[word_i] = word & !(three << (slot_i * 2));
        proof {
            assert forall|w: nat, s: nat| w < WORDS_PER_CHUNK && s < SLOTS_PER_WORD implies 
                #[trigger] self.code_at(w, s) == (if w == word_i && s == slot_i { 0 } else { old(self).code_at(w, s) }) by {
                if w == word_i {
                    lemma_slot_clear(word, slot_i as u64, s as u64);
                }
            }
            assert forall|w: nat, s: nat| w < WORDS_PER_CHUNK && s < SLOTS_PER_WORD implies #[trigger] self.code_at(w, s) <= 2 by {
                assert(old(self).code_at(w, s) <= 2);
            }
            assert forall|w: nat, s: nat| w < WORDS_PER_CHUNK && s < SLOTS_PER_WORD && (w != word_i || s != slot_i)
                implies #[trigger] self.stone_at(w, s) == old(self).stone_at(w, s) by {
                assert(self.code_at(w, s) == old(self).code_at(w, s));
            }
            assert(self.code_at(word_i as nat, slot_i as nat) == 0);
            lemma_slot_code_range(word, slot_i as u64);
        }
        let code = (word >> (slot_i * 2)) & 3;
        if code == 0 {
            None
        } else if code == 1 {
            Some(Stone::Black)
        } else {
            Some(Stone::White)
        }
    }
}

/// The occupancy of the board: a sparse map from chunk ids to chunks. A chunk
/// comes into being, empty, when a cell in its region is first written, and is
/// never removed.
#[derive(Debug)]
pub struct RawBoard {
    chunks: BTreeMap<u64, Chunk>,
}

impl View for RawBoard {
    type V = Map<Point, Stone>;

    /// The occupied cells, each with the stone on it.
    closed spec fn view(&self) -> Map<Point, Stone> {
        Map::new(|p: Point| self.stone_at(p) is Some, |p: Point| self.stone_at(p)->0)
    }
}

impl RawBoard {
    /// What the chunks hold for the cell `p`.
    spec fn stone_at(&self, p: Point) -> Option<Stone> {
        let (c, w, s) = p.spec_indexes();
        if self.chunks@.contains_key(c as u64) {
            self.chunks@[c as u64].stone_at(w, s)
        } else {
            None
        }
    }

    /// No slot of any chunk holds the code `11`.
    pub closed spec fn wf(&self) -> bool {
        forall|c: u64| self.chunks@.contains_key(c) ==> (#[trigger] self.chunks@[c]).wf()
    }

    /// The ids of the chunks that have been allocated.
    pub closed spec fn chunk_ids(&self) -> Set<u64> {
        self.chunks@.dom()
    }

    /// What stands on the cell `p`.
    pub open spec fn spec_get(&self, p: Point) -> Option<Stone> {
        if self@.contains_key(p) {
            Some(self@[p])
        } else {
            None
        }
    }

    /// An empty board, with no chunk allocated.
    pub fn new() -> (r: RawBoard)
        ensures
            r.wf(),
            r@ == Map::<Point, Stone>::empty(),
            r.chunk_ids() == Set::<u64>::empty(),
    {
        let r = RawBoard { chunks: BTreeMap::new() };
        assert(r@ =~= Map::<Point, Stone>::empty());
        r
    }

    /// What stands on the cell `point`.
    pub fn get(&self, point: Point) -> (r: Option<Stone>)
        ensures
            r == self.spec_get(point),
    {
        let (chunk_i, word_i, slot_i) = point.indexes();
        proof {
            lemma_index_round_trip(point);
        }
        match self.chunk(chunk_i) {
            Some(chunk) => chunk.get(word_i, slot_i),
            None => None,
        }
    }

    /// Puts a stone on a cell, if the cell is empty; tells whether it was. The cell's
    /// chunk is allocated where it was not yet.
    pub fn set(&mut self, point: Point, stone: Stone) -> (r: bool)
        requires
            old(self).wf(),
        ensures
            final(self).wf(),
            r == !old(self)@.contains_key(point),
            r ==> final(self)@ == old(self)@.insert(point, stone),
            !r ==> final(self)@ == old(self)@,
            r ==> final(self).chunk_ids() == old(self).chunk_ids().insert(
                point.spec_indexes().0 as u64,
            ),
            !r ==> final(self).chunk_ids() == old(self).chunk_ids(),
    {
        let (chunk_i, word_i, slot_i) = point.indexes();
        let mut chunk = self.chunk_or_empty(chunk_i);
        let ghost before = chunk;
        let done = chunk.set(word_i, slot_i, stone);
        proof {
            lemma_index_round_trip(point);
        }
        if done {
            self.chunks.insert(chunk_i, chunk);
            proof {
                assert forall|q: Point| #[trigger] self.stone_at(q) == (if q == point {
                    Some(stone)
                } else {
                    old(self).stone_at(q)
                }) by {
                    lemma_index_round_trip(q);
                    let (c, w, s) = q.spec_indexes();
                    if c == chunk_i {
                        if w == word_i && s == slot_i {
                            lemma_indexes_injective(point, q);
                        } else {
                            assert(chunk.stone_at(w, s) == before.stone_at(w, s));
                        }
                    }
                }
                assert(self@ =~= old(self)@.insert(point, stone));
            }
        }
        done
    }

    /// Empties a cell, and returns what stood on it.
    pub fn unset(&mut self, point: Point) -> (r: Option<Stone>)
        requires
            old(self).wf(),
        ensures
            final(self).wf(),
            r == old(self).spec_get(point),
            final(self)@ == old(self)@.remove(point),
            final(self).chunk_ids() == old(self).chunk_ids().insert(point.spec_indexes().0 as u64),
    {
        let (chunk_i, word_i, slot_i) = point.indexes();
        let mut chunk = self.chunk_or_empty(chunk_i);
        let ghost before = chunk;
        let r = chunk.unset(word_i, slot_i);
        self.chunks.insert(chunk_i, chunk);
        proof {
            lemma_index_round_trip(point);
            assert forall|q: Point| #[trigger] self.stone_at(q) == (if q == point {
                None
            } else {
                old(self).stone_at(q)
            }) by {
                lemma_index_round_trip(q);
                let (c, w, s) = q.spec_indexes();
                if c == chunk_i {
                    if w == word_i && s == slot_i {
                        lemma_indexes_injective(point, q);
                    } else {
                        assert(chunk.stone_at(w, s) == before.stone_at(w, s));
                    }
                }
            }
            assert(self@ =~= old(self)@.remove(point));
        }
        r
    }

    /// The chunk `chunk_i`, where it is allocated.
    fn chunk(&self, chunk_i: u64) -> (r: Option<&Chunk>)
        ensures
            match r {
                Some(chunk) => self.chunks@.contains_key(chunk_i) && *chunk == self.chunks@[chunk_i],
                None => !self.chunks@.contains_key(chunk_i),
            },
    {
        self.chunks.get(&chunk_i)
    }

    /// A copy of the chunk `chunk_i`, or an empty chunk where none is allocated.
    fn chunk_or_empty(&self, chunk_i: u64) -> (r: Chunk)
        requires
            self.wf(),
        ensures
            r.wf(),
            self.chunks@.contains_key(chunk_i) ==> r == self.chunks@[chunk_i],
            !self.chunks@.contains_key(chunk_i) ==> forall|w: nat, s: nat|
                w < WORDS_PER_CHUNK && s < SLOTS_PER_WORD ==> #[trigger] r.stone_at(w, s)
                    == None::<Stone>,
    {
        match self.chunk(chunk_i) {
            Some(chunk) => *chunk,
            None => Chunk::empty(),
        }
    }
}

impl Default for RawBoard {
    /// An empty board, with no chunk allocated.
    fn default() -> (r: RawBoard)
        ensures
            r.wf(),
            r@ == Map::<Point, Stone>::empty(),
            r.chunk_ids() == Set::<u64>::empty(),
    {
        RawBoard::new()
    }
}

} // verus!
