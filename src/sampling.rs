//! Seeding of the per-pixel random sources.
use vstd::prelude::*;

verus! {

/// The seed of the random source for pixel `(x, y)` of a row-major image of
/// the given width: the master seed advanced by the pixel's index, wrapping.
pub fn pixel_seed(seed: u64, x: u32, y: u32, width: u32) -> (r: u64)
    ensures
        r == (seed + y * width + x) % 0x1_0000_0000_0000_0000,
{
    let row_len: u64 = width as u64;
    let row: u64 = y as u64;
    assert(row * row_len <= 0xFFFF_FFFE_0000_0001) by (nonlinear_arith)
        requires
            row <= 0xFFFF_FFFF,
            row_len <= 0xFFFF_FFFF,
    ;
    let index: u64 = row * row_len + x as u64;
    seed.wrapping_add(index)
}

} // verus!
