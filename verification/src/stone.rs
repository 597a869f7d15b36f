use vstd::prelude::*;

verus! {

/// The colour of a stone.
#[derive(Debug, Clone, Copy, PartialEq, Eq, Structural)]
pub enum Stone {
    Black,
    White,
}

impl Stone {
    /// The other colour.
    pub open spec fn spec_opposite(self) -> Stone {
        match self {
            Stone::Black => Stone::White,
            Stone::White => Stone::Black,
        }
    }

    /// The bit that stands for this colour in a stored slot and in a record: 0 for
    /// black, 1 for white.
    pub open spec fn spec_bit(self) -> nat {
        match self {
            Stone::Black => 0,
            Stone::White => 1,
        }
    }

    /// The colour that a record's stone bit stands for: black for 0, white for
    /// anything else.
    pub open spec fn spec_from_bit(bit: nat) -> Stone {
        if bit == 0 {
            Stone::Black
        } else {
            Stone::White
        }
    }

    /// The other colour.
    #[verifier::when_used_as_spec(spec_opposite)]
    pub fn opposite(self) -> (r: Stone)
        ensures
            r == self.spec_opposite(),
    {
        match self {
            Stone::Black => Stone::White,
            Stone::White => Stone::Black,
        }
    }

    /// The bit that stands for this colour: 0 for black, 1 for white.
    pub fn bit(self) -> (r: u8)
        ensures
            r == self.spec_bit(),
    {
        match self {
            Stone::Black => 0,
            Stone::White => 1,
        }
    }

    /// The colour that a stone bit stands for: black for 0, white for anything else.
    pub fn from_bit(bit: u8) -> (r: Stone)
        ensures
            r == Stone::spec_from_bit(bit as nat),
    {
        if bit == 0 {
            Stone::Black
        } else {
            Stone::White
        }
    }
}

/// Flipping a colour twice gives the colour back, and a colour is never its own
/// opposite.
pub proof fn lemma_opposite_involution(s: Stone)
    ensures
        s.spec_opposite().spec_opposite() == s,
        s.spec_opposite() != s,
{
}

/// A colour is recovered from its bit.
pub proof fn lemma_stone_bit_round_trip(s: Stone)
    ensures
        s.spec_bit() <= 1,
        Stone::spec_from_bit(s.spec_bit()) == s,
{
}

} // verus!
