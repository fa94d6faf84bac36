//! Packed 32-bit colours by their bytes.
use vstd::prelude::*;

verus! {

/// Byte `i` of a packed colour, the lowest first.
pub open spec fn byte_of(x: u32, i: int) -> int {
    if i == 0 {
        x as int % 0x100
    } else if i == 1 {
        x as int / 0x100 % 0x100
    } else if i == 2 {
        x as int / 0x1_0000 % 0x100
    } else {
        x as int / 0x100_0000
    }
}

/// The colour with these bytes, the lowest first.
pub open spec fn packed(b0: int, b1: int, b2: int, b3: int) -> u32 {
    (b0 + b1 * 0x100 + b2 * 0x1_0000 + b3 * 0x100_0000) as u32
}

/// The bytes of a colour, the lowest first.
pub fn bytes_of(x: u32) -> (r: [u32; 4])
    ensures
        forall|i: int| 0 <= i < 4 ==> #[trigger] r[i] == byte_of(x, i),
        forall|i: int| 0 <= i < 4 ==> 0 <= #[trigger] r[i] < 0x100,
{
    [x % 0x100, x / 0x100 % 0x100, x / 0x1_0000 % 0x100, x / 0x100_0000]
}

/// The colour with these bytes, the lowest first.
pub fn pack(b: [u32; 4]) -> (r: u32)
    requires
        forall|i: int| 0 <= i < 4 ==> #[trigger] b[i] < 0x100,
    ensures
        r == packed(b[0] as int, b[1] as int, b[2] as int, b[3] as int),
{
    b[0] + b[1] * 0x100 + b[2] * 0x1_0000 + b[3] * 0x100_0000
}

/// Taking a colour apart gives the bytes that it was put together from.
pub proof fn lemma_bytes_of_packed(b0: int, b1: int, b2: int, b3: int)
    requires
        0 <= b0 < 0x100,
        0 <= b1 < 0x100,
        0 <= b2 < 0x100,
        0 <= b3 < 0x100,
    ensures
        byte_of(packed(b0, b1, b2, b3), 0) == b0,
        byte_of(packed(b0, b1, b2, b3), 1) == b1,
        byte_of(packed(b0, b1, b2, b3), 2) == b2,
        byte_of(packed(b0, b1, b2, b3), 3) == b3,
{
}

/// Putting the bytes of a colour together gives the colour.
pub proof fn lemma_packed_bytes(x: u32)
    ensures
        packed(byte_of(x, 0), byte_of(x, 1), byte_of(x, 2), byte_of(x, 3)) == x,
{
}

/// A colour is its bytes, each worth 256 times the one before it.
pub proof fn lemma_bytes_make_the_colour(x: u32)
    ensures
        x == byte_of(x, 0) + 0x100 * byte_of(x, 1) + 0x1_0000 * byte_of(x, 2) + 0x100_0000
            * byte_of(x, 3),
        forall|i: int| 0 <= i < 4 ==> 0 <= #[trigger] byte_of(x, i) < 0x100,
{
}

} // verus!
