//! Colouring the dark pixels of a picture by cluster: the colour arithmetic.

use vstd::prelude::*;

verus! {

/// A pixel whose brightness is at most this is dark.
pub const DARK_THRESHOLD: u8 = 0x40;

/// Whether a pixel of brightness `luma` is dark.
pub fn is_dark(luma: u8) -> (r: bool)
    ensures
        r == (luma <= DARK_THRESHOLD),
{
    luma <= DARK_THRESHOLD
}

/// The colour halfway between `orig` and `mask`: each channel the mean of
/// the two, rounded down.
pub fn mix_rgb(orig: [u8; 3], mask: [u8; 3]) -> (r: [u8; 3])
    ensures
        forall|i: int| 0 <= i < 3 ==> #[trigger] r[i] == (orig[i] + mask[i]) / 2,
{
    let mut channels: [u8; 3] = [0; 3];
    let mut i: usize = 0;
    while i < 3
        invariant
            i <= 3,
            forall|k: int| 0 <= k < i ==> #[trigger] channels[k] == (orig[k] + mask[k]) / 2,
        decreases 3 - i,
    {
        channels[i] = ((orig[i] as u16 + mask[i] as u16) / 2) as u8;
        i += 1;
    }
    channels
}

} // verus!
