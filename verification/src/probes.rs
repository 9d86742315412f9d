//! The irradiance probes' integer side: how many probes the cascades hold and the workgroup
//! grids of their three passes.

use vstd::prelude::*;

verus! {

/// Rays a workgroup of the probe-ray pass traces (`PROBE_TRACE_GROUP` in `meshlet.slang`).
pub const TRACE_GROUP: u32 = 64;

/// Workgroups along one dimension of a dispatch (the shaders spread probes over two).
pub const MAX_GROUPS: u32 = 65535;

/// Probes in `cascades` cascades of `counts` (x, y, z) probes each.
pub fn probe_count(counts: [u32; 3], cascades: u32) -> (count: u32)
    requires
        counts[0] * counts[1] * counts[2] * cascades <= u32::MAX,
    ensures
        count == counts[0] * counts[1] * counts[2] * cascades,
{
    let a = counts[0] as u64;
    let b = counts[1] as u64;
    let c = counts[2] as u64;
    let d = cascades as u64;
    assert(a * b <= 0xffff_ffffu64 * 0xffff_ffffu64) by (nonlinear_arith)
        requires
            a <= 0xffff_ffffu64,
            b <= 0xffff_ffffu64,
    ;
    let ab = a * b;
    if ab == 0 || c == 0 || d == 0 {
        assert(ab * c * d == 0) by (nonlinear_arith)
            requires
                ab == 0 || c == 0 || d == 0,
        ;
        return 0;
    }
    assert(ab * c <= ab * c * d && ab * c * d <= 0xffff_ffff) by (nonlinear_arith)
        requires
            ab * c * d == counts[0] * counts[1] * counts[2] * cascades,
            counts[0] * counts[1] * counts[2] * cascades <= 0xffff_ffff,
            d >= 1,
            ab >= 1,
            c >= 1,
    ;
    let abc = ab * c;
    (abc * d) as u32
}

/// The workgroup grids of a frame's probe passes.
#[derive(Clone, Copy, Debug, PartialEq, Eq)]
pub struct ProbeDispatches {
    /// The ray pass: the rays of a probe in groups of [`TRACE_GROUP`], by the probes spread.
    pub trace: [u32; 3],
    /// The state pass: the probes in groups of 64.
    pub state: u32,
    /// The blend pass: the probes spread over two dimensions.
    pub blend: [u32; 2],
}

/// The workgroup grids for `count` probes of `rays` rays each: the probes spread over at most
/// [`MAX_GROUPS`] a row, as many rows as that takes.
pub fn probe_dispatches(count: u32, rays: u32) -> (d: ProbeDispatches)
    ensures
        d.trace[0] == (rays + 63) / 64,
        d.trace[1] == if count < 65535 { count } else { 65535 },
        d.trace[2] == (count + 65534) / 65535,
        d.state == (count + 63) / 64,
        d.blend[0] == d.trace[1],
        d.blend[1] == d.trace[2],
{
    let across = if count < MAX_GROUPS { count } else { MAX_GROUPS };
    let rows = count / MAX_GROUPS + if count % MAX_GROUPS != 0 { 1 } else { 0 };
    let groups = rays / TRACE_GROUP + if rays % TRACE_GROUP != 0 { 1 } else { 0 };
    let state = count / 64 + if count % 64 != 0 { 1 } else { 0 };
    ProbeDispatches { trace: [groups, across, rows], state, blend: [across, rows] }
}

} // verus!
