//! Fixed parameters of Keccak-f[1600]: the rotation offsets and the round
//! constants, and the sizes that the circuit is laid out with.
use vstd::prelude::*;

verus! {

/// Number of rounds of the permutation.
pub const PERMUTATION: usize = 24;

/// Number of lanes that one absorbed block covers (the sponge's rate).
pub const ABSORB_NEXT_INPUTS: usize = 17;

/// Rotation offset of the lane at index `k`; lane `(x, y)` of a state sits
/// at index `5 * x + y`.
pub open spec fn rotation_offset(k: int) -> u32 {
    if k == 0 { 0 } else if k == 1 { 36 } else if k == 2 { 3 } else if k == 3 { 41 }
    else if k == 4 { 18 } else if k == 5 { 1 } else if k == 6 { 44 } else if k == 7 { 10 }
    else if k == 8 { 45 } else if k == 9 { 2 } else if k == 10 { 62 } else if k == 11 { 6 }
    else if k == 12 { 43 } else if k == 13 { 15 } else if k == 14 { 61 } else if k == 15 { 28 }
    else if k == 16 { 55 } else if k == 17 { 25 } else if k == 18 { 21 } else if k == 19 { 56 }
    else if k == 20 { 27 } else if k == 21 { 20 } else if k == 22 { 39 } else if k == 23 { 8 }
    else { 14 }
}

/// Rotation offset of the lane at index `k`.
pub fn rotation_constant(k: usize) -> (r: u32)
    requires
        k < 25,
    ensures
        r == rotation_offset(k as int),
        r < 64,
{
    if k == 0 { 0 } else if k == 1 { 36 } else if k == 2 { 3 } else if k == 3 { 41 }
    else if k == 4 { 18 } else if k == 5 { 1 } else if k == 6 { 44 } else if k == 7 { 10 }
    else if k == 8 { 45 } else if k == 9 { 2 } else if k == 10 { 62 } else if k == 11 { 6 }
    else if k == 12 { 43 } else if k == 13 { 15 } else if k == 14 { 61 } else if k == 15 { 28 }
    else if k == 16 { 55 } else if k == 17 { 25 } else if k == 18 { 21 } else if k == 19 { 56 }
    else if k == 20 { 27 } else if k == 21 { 20 } else if k == 22 { 39 } else if k == 23 { 8 }
    else { 14 }
}

/// Round constant of round `i`.
pub open spec fn round_constant_spec(i: int) -> u64 {
    if i == 0 { 0x0000000000000001 } else if i == 1 { 0x0000000000008082 }
    else if i == 2 { 0x800000000000808A } else if i == 3 { 0x8000000080008000 }
    else if i == 4 { 0x000000000000808B } else if i == 5 { 0x0000000080000001 }
    else if i == 6 { 0x8000000080008081 } else if i == 7 { 0x8000000000008009 }
    else if i == 8 { 0x000000000000008A } else if i == 9 { 0x0000000000000088 }
    else if i == 10 { 0x0000000080008009 } else if i == 11 { 0x000000008000000A }
    else if i == 12 { 0x000000008000808B } else if i == 13 { 0x800000000000008B }
    else if i == 14 { 0x8000000000008089 } else if i == 15 { 0x8000000000008003 }
    else if i == 16 { 0x8000000000008002 } else if i == 17 { 0x8000000000000080 }
    else if i == 18 { 0x000000000000800A } else if i == 19 { 0x800000008000000A }
    else if i == 20 { 0x8000000080008081 } else if i == 21 { 0x8000000000008080 }
    else if i == 22 { 0x0000000080000001 } else { 0x8000000080008008 }
}

/// Round constant of round `i`.
pub fn round_constant(i: usize) -> (r: u64)
    requires
        i < 24,
    ensures
        r == round_constant_spec(i as int),
{
    if i == 0 { 0x0000000000000001 } else if i == 1 { 0x0000000000008082 }
    else if i == 2 { 0x800000000000808A } else if i == 3 { 0x8000000080008000 }
    else if i == 4 { 0x000000000000808B } else if i == 5 { 0x0000000080000001 }
    else if i == 6 { 0x8000000080008081 } else if i == 7 { 0x8000000000008009 }
    else if i == 8 { 0x000000000000008A } else if i == 9 { 0x0000000000000088 }
    else if i == 10 { 0x0000000080008009 } else if i == 11 { 0x000000008000000A }
    else if i == 12 { 0x000000008000808B } else if i == 13 { 0x800000000000008B }
    else if i == 14 { 0x8000000000008089 } else if i == 15 { 0x8000000000008003 }
    else if i == 16 { 0x8000000000008002 } else if i == 17 { 0x8000000000000080 }
    else if i == 18 { 0x000000000000800A } else if i == 19 { 0x800000008000000A }
    else if i == 20 { 0x8000000080008081 } else if i == 21 { 0x8000000000008080 }
    else if i == 22 { 0x0000000080000001 } else { 0x8000000080008008 }
}

} // verus!
