//! The outlines of a cube's faces.
use vstd::prelude::*;

verus! {

/// For each set of faces that are seen, the corners of their outline: how
/// many there are, and the offset of each in a table of corners with 16
/// bytes for each. No corners for a set of faces that is never seen.
pub const PTFACES16: [[u8; 8]; 43] = [
    [0, 0, 0, 0, 0, 0, 0, 0],
    [4, 0, 32, 96, 64, 0, 32, 0],
    [4, 16, 80, 112, 48, 16, 80, 0],
    [0, 0, 0, 0, 0, 0, 0, 0],
    [4, 64, 96, 112, 80, 64, 96, 0],
    [6, 0, 32, 96, 112, 80, 64, 0],
    [6, 16, 80, 64, 96, 112, 48, 0],
    [0, 0, 0, 0, 0, 0, 0, 0],
    [4, 0, 16, 48, 32, 0, 16, 0],
    [6, 0, 16, 48, 32, 96, 64, 0],
    [6, 0, 16, 80, 112, 48, 32, 0],
    [0, 0, 0, 0, 0, 0, 0, 0],
    [0, 0, 0, 0, 0, 0, 0, 0],
    [0, 0, 0, 0, 0, 0, 0, 0],
    [0, 0, 0, 0, 0, 0, 0, 0],
    [0, 0, 0, 0, 0, 0, 0, 0],
    [4, 0, 64, 80, 16, 0, 64, 0],
    [6, 0, 32, 96, 64, 80, 16, 0],
    [6, 0, 64, 80, 112, 48, 16, 0],
    [0, 0, 0, 0, 0, 0, 0, 0],
    [6, 0, 64, 96, 112, 80, 16, 0],
    [6, 0, 32, 96, 112, 80, 16, 0],
    [6, 0, 64, 96, 112, 48, 16, 0],
    [0, 0, 0, 0, 0, 0, 0, 0],
    [6, 0, 64, 80, 16, 48, 32, 0],
    [6, 16, 48, 32, 96, 64, 80, 0],
    [6, 0, 64, 80, 112, 48, 32, 0],
    [0, 0, 0, 0, 0, 0, 0, 0],
    [0, 0, 0, 0, 0, 0, 0, 0],
    [0, 0, 0, 0, 0, 0, 0, 0],
    [0, 0, 0, 0, 0, 0, 0, 0],
    [0, 0, 0, 0, 0, 0, 0, 0],
    [4, 32, 48, 112, 96, 32, 48, 0],
    [6, 0, 32, 48, 112, 96, 64, 0],
    [6, 16, 80, 112, 96, 32, 48, 0],
    [0, 0, 0, 0, 0, 0, 0, 0],
    [6, 32, 48, 112, 80, 64, 96, 0],
    [6, 0, 32, 48, 112, 80, 64, 0],
    [6, 16, 80, 64, 96, 32, 48, 0],
    [0, 0, 0, 0, 0, 0, 0, 0],
    [6, 0, 16, 48, 112, 96, 32, 0],
    [6, 0, 16, 48, 112, 96, 64, 0],
    [6, 0, 16, 80, 112, 96, 32, 0],
];

} // verus!
