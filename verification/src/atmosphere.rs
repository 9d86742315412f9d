//! What the atmosphere's table passes are given: the planet's parameters and the tables they
//! read and write.

use vstd::prelude::*;

verus! {

/// `LutPush` in `atmosphere_luts.slang`: the planet's parameters, the table written, the
/// transmittance table read, and the written table's size.
#[derive(Clone, Copy, Debug, PartialEq, Eq)]
pub struct LutPush {
    /// Device address of the planet's parameters.
    pub planet: u64,
    /// Bindless index of the table written.
    pub output: u32,
    /// Bindless index of the transmittance table.
    pub transmittance: u32,
    /// The written table's width.
    pub width: u32,
    /// The written table's height.
    pub height: u32,
}

/// The block for a pass writing table `output` of `size` (width, height), reading
/// `transmittance`, for the planet at `planet`.
pub fn lut_push(planet: u64, output: u32, transmittance: u32, size: [u32; 2]) -> (push: LutPush)
    ensures
        push == (LutPush { planet, output, transmittance, width: size[0], height: size[1] }),
{
    LutPush { planet, output, transmittance, width: size[0], height: size[1] }
}

} // verus!
