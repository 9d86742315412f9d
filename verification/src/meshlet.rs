//! The cluster renderer's CPU-side decisions: its culling flags, the software rasteriser's
//! modes, the handles of the scene's meshes, the per-frame counters and how the work and
//! visible-cluster lists grow from what the frames dropped.

use vstd::prelude::*;

use crate::text::{debug_quoted, debug_text, decimal, eq_ignore_ascii_case, push_decimal, push_text, round_half_even, rounded, string_of, text_eq_ignore_ascii_case};

verus! {

/// Culling flags, mirrored in `meshlet.slang`.
#[derive(Clone, Copy, Debug, PartialEq, Eq)]
pub struct CullFlags(pub u32);

impl CullFlags {
    /// Keep the culling camera fixed while the view moves.
    pub const FREEZE: u32 = 1;
    /// Normal-cone backface culling.
    pub const CONE: u32 = 2;
    /// Frustum culling of instances and meshlets.
    pub const FRUSTUM: u32 = 4;
    /// Two-pass hierarchical-Z occlusion culling.
    pub const OCCLUSION: u32 = 8;
    /// Colour every meshlet differently (debug view).
    pub const MESHLET_COLORS: u32 = 16;
    /// Draw the meshlets that cone or occlusion culling rejected, tinted red, instead of
    /// skipping them: every red pixel is a culling error (debug view).
    pub const SHOW_CULLED: u32 = 32;
    /// Select clusters by projected LOD error; off draws level 0 only (full detail).
    pub const LOD: u32 = 64;
    /// Colour every cluster by its LOD level (debug view).
    pub const LOD_COLORS: u32 = 128;
    /// Disable the per-group LOD window (debug: every group tests its clusters).
    pub const GROUP_WINDOW_OFF: u32 = 256;
    /// Tint the pixels the software rasteriser drew (debug view).
    pub const SHOW_RASTER: u32 = 1024;
    /// Trace the sun's shadows (a scene with a top-level acceleration structure).
    pub const SHADOWS: u32 = 8192;
    /// Show the ambient occlusion in grey instead of the shading (debug view).
    pub const SHOW_AO: u32 = 16384;
    /// Under a sky, reflect it: Fresnel-weighted, sharp on smooth surfaces.
    pub const SKY_REFLECTIONS: u32 = 32768;
    /// On the smooth rows, trace the mirror ray against the TLAS instead of reading the sky
    /// alone.
    pub const RAY_REFLECTIONS: u32 = 65536;
    /// Translucent ice: the sun through its thickness, by rays.
    pub const TRANSLUCENCY: u32 = 131072;
    /// Under a sky, show the diffuse light alone on white surfaces instead of the shading
    /// (debug view).
    pub const SHOW_GI: u32 = 262144;
    /// Everything on except the debug views: cone, frustum, occlusion and LOD.
    pub const DEFAULT_BITS: u32 = 2 | 4 | 8 | 64;

    /// Whether a bit is set.
    pub fn has(self, bit: u32) -> (set: bool)
        ensures
            set == (self.0 & bit != 0),
    {
        self.0 & bit != 0
    }

    /// Toggles a bit.
    pub fn toggle(&mut self, bit: u32)
        ensures
            final(self).0 == old(self).0 ^ bit,
    {
        self.0 = self.0 ^ bit;
    }
}

/// Toggling a bit twice gives the flags back; toggling a single bit flips whether it is set
/// and leaves every other bit as it was.
pub proof fn toggle_laws(flags: u32, bit: u32, other: u32)
    ensures
        (flags ^ bit) ^ bit == flags,
        bit != 0 && bit & (bit - 1) as u32 == 0 ==> (((flags ^ bit) & bit != 0) <==> (flags & bit == 0)),
        bit & other == 0 ==> (((flags ^ bit) & other) == (flags & other)),
{
    assert((flags ^ bit) ^ bit == flags) by (bit_vector);
    assert(bit != 0 && bit & (bit - 1) as u32 == 0 ==> (((flags ^ bit) & bit != 0) <==> (flags & bit == 0))) by (bit_vector);
    assert(bit & other == 0 ==> (((flags ^ bit) & other) == (flags & other))) by (bit_vector);
}

impl Default for CullFlags {
    /// Everything on except the debug views.
    fn default() -> (flags: Self)
        ensures
            flags.0 == CullFlags::DEFAULT_BITS,
    {
        CullFlags(CullFlags::DEFAULT_BITS)
    }
}

/// When the software rasteriser draws the dense clusters.
#[derive(Clone, Copy, Debug, PartialEq, Eq)]
pub enum SwRaster {
    /// Never: every cluster is drawn in hardware.
    Off,
    /// When the frames hold enough dense triangles to repay its fixed cost: from
    /// [`SW_RASTER_AUTO_ON`] dense triangles a frame until they fall below
    /// [`SW_RASTER_AUTO_OFF`]. Both ways give the same pixels. The default.
    Auto,
    /// Every frame (the A/B harness, measurements).
    On,
}

impl Default for SwRaster {
    /// [`SwRaster::Auto`].
    fn default() -> (mode: Self)
        ensures
            mode == SwRaster::Auto,
    {
        SwRaster::Auto
    }
}

/// [`SwRaster::name`] as a sequence of characters.
pub open spec fn sw_raster_name(mode: SwRaster) -> Seq<char> {
    match mode {
        SwRaster::Off => "off"@,
        SwRaster::Auto => "auto"@,
        SwRaster::On => "on"@,
    }
}

impl SwRaster {
    /// Every mode, in the order R cycles them.
    pub const ALL: [SwRaster; 3] = [SwRaster::Off, SwRaster::Auto, SwRaster::On];

    /// Name for displays and the command line.
    pub fn name(self) -> (name: &'static str)
        ensures
            name@ == sw_raster_name(self),
            name@ == (match self {
                SwRaster::Off => "off"@,
                SwRaster::Auto => "auto"@,
                SwRaster::On => "on"@,
            }),
    {
        match self {
            SwRaster::Off => "off",
            SwRaster::Auto => "auto",
            SwRaster::On => "on",
        }
    }

    /// The mode after this one: off, auto, on, then off again.
    pub fn next(self) -> (next: Self)
        ensures
            next == (match self {
                SwRaster::Off => SwRaster::Auto,
                SwRaster::Auto => SwRaster::On,
                SwRaster::On => SwRaster::Off,
            }),
    {
        match self {
            SwRaster::Off => SwRaster::Auto,
            SwRaster::Auto => SwRaster::On,
            SwRaster::On => SwRaster::Off,
        }
    }

    /// The mode whose name `text` is, ignoring ASCII case.
    pub fn from_name(text: &str) -> (mode: Option<SwRaster>)
        ensures
            mode matches Some(m) ==> eq_ignore_ascii_case(sw_raster_name(m), text@),
            mode is None ==> forall|m: SwRaster| !eq_ignore_ascii_case(#[trigger] sw_raster_name(m), text@),
    {
        let mut i: usize = 0;
        while i < 3
            invariant
                i <= 3,
                forall|k: int| 0 <= k < i ==> !eq_ignore_ascii_case(#[trigger] sw_raster_name(SwRaster::ALL[k]), text@),
            decreases 3 - i,
        {
            let mode = SwRaster::ALL[i];
            if text_eq_ignore_ascii_case(mode.name(), text) {
                return Some(mode);
            }
            i = i + 1;
        }
        proof {
            assert forall|m: SwRaster| !eq_ignore_ascii_case(#[trigger] sw_raster_name(m), text@) by {
                match m {
                    SwRaster::Off => assert(SwRaster::ALL[0] == m),
                    SwRaster::Auto => assert(SwRaster::ALL[1] == m),
                    SwRaster::On => assert(SwRaster::ALL[2] == m),
                }
            }
        }
        None
    }
}

/// R steps through [`SwRaster::ALL`] in its order: off, auto, on, then off again.
pub proof fn sw_raster_next_follows_all(i: int)
    requires
        0 <= i < 3,
    ensures
        sw_raster_after(SwRaster::ALL[i]) == SwRaster::ALL[(i + 1) % 3],
{
}

/// The names a parse error lists are the modes' names in [`SwRaster::ALL`]'s order: "off" is
/// the mode that never rasterises in software, "on" the one that always does.
pub proof fn sw_raster_names_are_the_listed_ones()
    ensures
        sw_raster_name(SwRaster::ALL[0]) + ", "@ + sw_raster_name(SwRaster::ALL[1]) + " or "@ + sw_raster_name(
            SwRaster::ALL[2],
        ) == "off, auto or on"@,
        SwRaster::ALL[0] == SwRaster::Off && SwRaster::ALL[2] == SwRaster::On,
        sw_raster_name(SwRaster::Off) == "off"@,
        sw_raster_name(SwRaster::Auto) == "auto"@,
        sw_raster_name(SwRaster::On) == "on"@,
{
    reveal_strlit("off");
    reveal_strlit("auto");
    reveal_strlit("on");
    reveal_strlit(", ");
    reveal_strlit(" or ");
    reveal_strlit("off, auto or on");
    assert(sw_raster_name(SwRaster::ALL[0]) + ", "@ + sw_raster_name(SwRaster::ALL[1]) + " or "@ + sw_raster_name(
        SwRaster::ALL[2],
    ) =~= "off, auto or on"@);
}

/// Every mode's name parses back to that mode: the names differ even ignoring case.
pub proof fn sw_raster_names_parse_back(m: SwRaster, n: SwRaster)
    ensures
        eq_ignore_ascii_case(sw_raster_name(n), sw_raster_name(m)) <==> n == m,
{
    reveal_strlit("off");
    reveal_strlit("auto");
    reveal_strlit("on");
}

impl std::str::FromStr for SwRaster {
    type Err = String;

    fn from_str(text: &str) -> (parsed: Result<SwRaster, String>)
        ensures
            parsed matches Ok(m) ==> eq_ignore_ascii_case(sw_raster_name(m), text@),
            parsed is Err ==> forall|m: SwRaster| !eq_ignore_ascii_case(#[trigger] sw_raster_name(m), text@),
            parsed matches Err(e) ==> e@ == "unknown software raster mode "@ + debug_text(text@) + ": off, auto or on"@,
    {
        match SwRaster::from_name(text) {
            Some(mode) => Ok(mode),
            None => {
                let mut out: Vec<char> = Vec::new();
                push_text(&mut out, "unknown software raster mode ");
                let quoted = debug_quoted(text);
                push_text(&mut out, quoted.as_str());
                push_text(&mut out, ": off, auto or on");
                Err(string_of(out))
            },
        }
    }
}

/// Cycling three times comes back to where it started, through every mode.
pub proof fn sw_raster_cycle(mode: SwRaster)
    ensures
        sw_raster_after(sw_raster_after(sw_raster_after(mode))) == mode,
        sw_raster_after(mode) != mode,
        sw_raster_after(sw_raster_after(mode)) != mode,
{
}

/// What [`SwRaster::next`] returns.
pub open spec fn sw_raster_after(mode: SwRaster) -> SwRaster {
    match mode {
        SwRaster::Off => SwRaster::Auto,
        SwRaster::Auto => SwRaster::On,
        SwRaster::On => SwRaster::Off,
    }
}

/// [`SwRaster::Auto`] turns the software rasteriser on from this many dense triangles a frame.
pub const SW_RASTER_AUTO_ON: u32 = 1_500_000;
/// ...and off again below this many.
pub const SW_RASTER_AUTO_OFF: u32 = 750_000;

/// Work items of the cluster culls each task workgroup takes.
pub const TASK_GROUP_SIZE: u32 = 32;
/// Counters a frame reads back.
pub const STAT_COUNT: usize = 13;

/// How the clusters that survive culling reach the rasteriser. Both paths share the compute
/// culling and its compacted list of visible clusters, so they produce the same pixels.
#[derive(Clone, Copy, Debug, PartialEq, Eq)]
pub enum GeometryPath {
    /// One mesh workgroup per listed cluster (`VK_EXT_mesh_shader`).
    MeshShader,
    /// One indexed draw per listed cluster through `vkCmdDrawIndexedIndirectCount`.
    IndirectCount,
}

impl GeometryPath {
    /// The path a device takes: mesh shaders where it has them, else the indirect-count
    /// fallback, which needs 8-bit index buffers (`None`: the device has neither).
    pub fn for_device(mesh_shader: bool, index_type_uint8: bool) -> (path: Option<GeometryPath>)
        ensures
            path == (if mesh_shader {
                Some(GeometryPath::MeshShader)
            } else if index_type_uint8 {
                Some(GeometryPath::IndirectCount)
            } else {
                None
            }),
    {
        if mesh_shader {
            Some(GeometryPath::MeshShader)
        } else if index_type_uint8 {
            Some(GeometryPath::IndirectCount)
        } else {
            None
        }
    }

    /// The most slots the visible list may hold on this path: what one draw may launch, the
    /// mesh workgroups (`mesh_work_groups`, when the device reports them) or the indirect draw
    /// count, and never more than [`VISIBLE_MAX_CAPACITY`].
    pub fn visible_max(self, mesh_work_groups: Option<u32>, max_draw_indirect_count: u32) -> (max: u32)
        ensures
            max == match self {
                GeometryPath::MeshShader => match mesh_work_groups {
                    Some(l) => if l < VISIBLE_MAX_CAPACITY {
                        l
                    } else {
                        VISIBLE_MAX_CAPACITY
                    },
                    None => VISIBLE_MAX_CAPACITY,
                },
                GeometryPath::IndirectCount => if max_draw_indirect_count < VISIBLE_MAX_CAPACITY {
                    max_draw_indirect_count
                } else {
                    VISIBLE_MAX_CAPACITY
                },
            },
    {
        match self {
            GeometryPath::MeshShader => match mesh_work_groups {
                Some(l) => if l < VISIBLE_MAX_CAPACITY {
                    l
                } else {
                    VISIBLE_MAX_CAPACITY
                },
                None => VISIBLE_MAX_CAPACITY,
            },
            GeometryPath::IndirectCount => if max_draw_indirect_count < VISIBLE_MAX_CAPACITY {
                max_draw_indirect_count
            } else {
                VISIBLE_MAX_CAPACITY
            },
        }
    }

    /// Name for displays.
    pub fn name(self) -> (name: &'static str)
        ensures
            name@ == (match self {
                GeometryPath::MeshShader => "mesh shaders"@,
                GeometryPath::IndirectCount => "indirect-count fallback"@,
            }),
    {
        match self {
            GeometryPath::MeshShader => "mesh shaders",
            GeometryPath::IndirectCount => "indirect-count fallback",
        }
    }
}

/// Handle of a mesh added to a scene.
#[derive(Clone, Copy, Debug, PartialEq, Eq)]
pub struct MeshId(u32);

impl View for MeshId {
    type V = u32;

    /// The mesh's index in the scene's mesh table.
    closed spec fn view(&self) -> u32 {
        self.0
    }
}

impl MeshId {
    /// The handle of the mesh at `index` of the scene's mesh table.
    pub fn from_index(index: u32) -> (id: Self)
        ensures
            id@ == index,
    {
        MeshId(index)
    }

    /// The mesh's index in the scene's mesh table.
    pub fn index(self) -> (index: u32)
        ensures
            index == self@,
    {
        self.0
    }
}

/// Slots the visible-cluster list starts with per frame slot, both passes together.
pub const VISIBLE_INITIAL_CAPACITY: u32 = 65536;

/// Most slots the list can grow to: the visibility id keeps 7 bits for the triangle
/// (`slot << 7 | triangle`), the slot has the other 25.
pub const VISIBLE_MAX_CAPACITY: u32 = 33554432;

/// Work-list slots each frame slot starts with.
pub const WORK_INITIAL_CAPACITY: u32 = 16384;
/// The most of a scene's bound reserved up front.
pub const WORK_RESERVE_MAX: u32 = 1048576;
/// Most slots the work list grows to.
pub const WORK_MAX_CAPACITY: u32 = 16777216;

/// The least power of two at or above `x` (one for zero and one), what `next_power_of_two`
/// returns.
pub open spec fn next_pow2(x: nat) -> nat
    decreases x,
{
    if x <= 1 {
        1
    } else {
        2 * next_pow2(((x + 1) / 2) as nat)
    }
}

proof fn lemma_next_pow2(x: nat)
    ensures
        next_pow2(x) >= x,
        next_pow2(x) >= 1,
        x >= 1 ==> next_pow2(x) <= 2 * x - 1,
        x >= 2 ==> next_pow2(x) % 2 == 0,
    decreases x,
{
    if x > 1 {
        let h = ((x + 1) / 2) as nat;
        lemma_next_pow2(h);
        if h >= 2 {
            assert(next_pow2(h) <= 2 * h - 2);
        }
    }
}

/// [`next_pow2`], computed.
fn next_power_of_two(x: u64) -> (p: u64)
    requires
        x <= 0x8000_0000_0000_0000,
    ensures
        p == next_pow2(x as nat),
    decreases x,
{
    proof {
        lemma_next_pow2(x as nat);
    }
    if x <= 1 {
        1
    } else {
        let h = x / 2 + x % 2;
        assert(h == (x + 1) / 2);
        proof {
            lemma_next_pow2(h as nat);
        }
        2 * next_power_of_two(h)
    }
}

/// The greatest power of two at or below `x` (one for zero and one).
pub open spec fn prev_pow2(x: nat) -> nat
    decreases x,
{
    if x <= 1 {
        1
    } else {
        2 * prev_pow2(x / 2)
    }
}

/// The levels of a mip chain down from a side of `x`: one for a side of one, one more per
/// halving.
pub open spec fn mip_count(x: nat) -> nat
    decreases x,
{
    if x <= 1 {
        1
    } else {
        1 + mip_count(x / 2)
    }
}

/// The greatest power of two at or below `x` is `2^(mip_count(x) - 1)`, within a factor of two
/// of `x`.
pub proof fn lemma_prev_pow2(x: nat)
    ensures
        prev_pow2(x) == vstd::arithmetic::power2::pow2((mip_count(x) - 1) as nat),
        x >= 1 ==> prev_pow2(x) <= x < 2 * prev_pow2(x),
        x >= 1 ==> mip_count(x) <= x,
        mip_count(x) >= 1,
    decreases x,
{
    if x <= 1 {
        vstd::arithmetic::power2::lemma2_to64();
    } else {
        lemma_prev_pow2(x / 2);
        vstd::arithmetic::power2::lemma_pow2_unfold((mip_count(x) - 1) as nat);
    }
}

/// [`prev_pow2`], computed.
fn prev_power_of_two(x: u32) -> (p: u32)
    ensures
        p == prev_pow2(x as nat),
    decreases x,
{
    proof {
        lemma_prev_pow2(x as nat);
    }
    if x <= 1 {
        1
    } else {
        proof {
            lemma_prev_pow2((x / 2) as nat);
        }
        2 * prev_power_of_two(x / 2)
    }
}

/// [`mip_count`], computed.
fn mip_levels(x: u32) -> (m: u32)
    ensures
        m == mip_count(x as nat),
    decreases x,
{
    if x <= 1 {
        1
    } else {
        proof {
            lemma_prev_pow2((x / 2) as nat);
        }
        1 + mip_levels(x / 2)
    }
}

/// The hierarchical-Z pyramid of a `width` × `height` depth buffer: each side the greatest
/// power of two at or below it (at least one), and its mip levels down to a texel.
pub fn pyramid_extent(width: u32, height: u32) -> (extent: (u32, u32, u32))
    ensures
        extent.0 == prev_pow2(width as nat),
        extent.1 == prev_pow2(height as nat),
        extent.2 == mip_count(if extent.0 >= extent.1 {
            extent.0 as nat
        } else {
            extent.1 as nat
        }),
{
    let w = prev_power_of_two(width);
    let h = prev_power_of_two(height);
    let mips = mip_levels(if w >= h {
        w
    } else {
        h
    });
    (w, h, mips)
}

/// The list size after a frame that wanted `wanted` slots: unchanged while they fit, else the
/// least power of two at or above one and a half times the demand (`⌈3 wanted / 2⌉`), at most
/// `max`, and never below `current`.
pub open spec fn spec_grown_capacity(current: u32, wanted: u64, max: u32) -> u32 {
    if wanted <= current {
        current
    } else {
        let target = next_pow2(((3 * wanted + 1) / 2) as nat);
        let capped = if target <= max { target } else { max as nat };
        if capped >= current { capped as u32 } else { current }
    }
}

/// The list size after a frame that wanted `wanted` slots (see [`spec_grown_capacity`]), so
/// that a slowly rising demand does not regrow every few frames. It never shrinks.
pub fn grown_capacity(current: u32, wanted: u64, max: u32) -> (capacity: u32)
    requires
        wanted <= 0x4000_0000_0000_0000,
    ensures
        capacity == spec_grown_capacity(current, wanted, max),
        capacity >= current,
        capacity > current ==> capacity <= max && (capacity >= wanted || capacity == max),
        wanted > current && max >= wanted && max >= current ==> capacity >= wanted,
{
    if wanted <= current as u64 {
        return current;
    }
    let demand: u64 = wanted + wanted / 2 + wanted % 2;
    assert(demand == (3 * wanted + 1) / 2);
    let p = next_power_of_two(demand);
    proof {
        lemma_next_pow2(demand as nat);
    }
    let target: u64 = if p <= max as u64 {
        p
    } else {
        max as u64
    };
    if target >= current as u64 {
        target as u32
    } else {
        current
    }
}

/// [`SwRaster::Auto`]'s decision after a frame with `dense_triangles`, from its state `on`:
/// on from [`SW_RASTER_AUTO_ON`], off below [`SW_RASTER_AUTO_OFF`], unchanged between the
/// two, so that a demand near one threshold does not flip it every frame.
pub fn software_worth_it(on: bool, dense_triangles: u32) -> (worth: bool)
    ensures
        worth == if on {
            dense_triangles >= SW_RASTER_AUTO_OFF
        } else {
            dense_triangles >= SW_RASTER_AUTO_ON
        },
{
    if on {
        dense_triangles >= SW_RASTER_AUTO_OFF
    } else {
        dense_triangles >= SW_RASTER_AUTO_ON
    }
}

/// The automatic mode has a gap between its thresholds: between them the decision keeps its
/// state, at or above the upper one it is on, below the lower one off.
pub proof fn software_hysteresis(on: bool, dense_triangles: u32)
    ensures
        SW_RASTER_AUTO_OFF < SW_RASTER_AUTO_ON,
        SW_RASTER_AUTO_OFF <= dense_triangles < SW_RASTER_AUTO_ON ==> (if on {
            dense_triangles >= SW_RASTER_AUTO_OFF
        } else {
            dense_triangles >= SW_RASTER_AUTO_ON
        }) == on,
        dense_triangles >= SW_RASTER_AUTO_ON ==> (if on {
            dense_triangles >= SW_RASTER_AUTO_OFF
        } else {
            dense_triangles >= SW_RASTER_AUTO_ON
        }),
        dense_triangles < SW_RASTER_AUTO_OFF ==> !(if on {
            dense_triangles >= SW_RASTER_AUTO_OFF
        } else {
            dense_triangles >= SW_RASTER_AUTO_ON
        }),
{
}

/// Bytes of the software rasteriser's samples for a `width × height` target: 8 per pixel,
/// an empty side counted as one.
pub fn vis64_bytes(width: u32, height: u32) -> (bytes: u64)
    requires
        (if width > 0 { width as nat } else { 1 }) * (if height > 0 { height as nat } else { 1 }) * 8 <= u64::MAX,
    ensures
        bytes == (if width > 0 { width as nat } else { 1 }) * (if height > 0 { height as nat } else { 1 }) * 8,
{
    let w: u64 = if width > 0 { width as u64 } else { 1 };
    let h: u64 = if height > 0 { height as u64 } else { 1 };
    w * h * 8
}

/// Per-frame counters read back two frames later.
#[derive(Clone, Copy, Debug, Default)]
pub struct FrameStats {
    /// Meshlets drawn in pass 1 (previously visible) or in the single pass.
    pub meshlets_pass1: u32,
    /// Meshlets drawn in pass 2 (newly visible).
    pub meshlets_pass2: u32,
    /// Triangles emitted.
    pub triangles: u32,
    /// Meshlets rejected by the depth pyramid.
    pub occluded: u32,
    /// Instances that passed the frustum test.
    pub instances_visible: u32,
    /// Sum of the LOD level of every drawn meshlet (mean = sum / drawn).
    pub lod_level_sum: u32,
    /// Clusters dropped because the visible-cluster list was full.
    pub visible_overflow: u32,
    /// Clusters rasterised in compute (included in the pass counts).
    pub sw_clusters: u32,
    /// Their triangles (included in `triangles`).
    pub sw_triangles: u32,
    /// Work items the instance cull emitted.
    pub work_items: u32,
    /// Roots the instance cull listed for the instances whose roots are the whole cut.
    pub root_entries: u32,
    /// Work items and roots dropped because the work or root list was full.
    pub work_overflow: u32,
    /// Triangles of the drawn dense clusters, whether the software rasteriser ran or not.
    pub dense_triangles: u32,
}

/// ", N k <what>" for `count` dropped, N the thousands rounded as `{:.0}` rounds them, or
/// nothing when none was.
pub open spec fn dropped_note(count: u32, what: Seq<char>) -> Seq<char> {
    if count != 0 {
        ", "@ + decimal(round_half_even(count as nat, 1000)) + what
    } else {
        Seq::empty()
    }
}

impl FrameStats {
    /// The counters in the order the shaders write them: pass 1 and pass 2 meshlets,
    /// triangles, occluded, visible instances, the LOD level sum, visible overflow, software
    /// clusters and triangles, dense triangles, work items, work overflow, root entries.
    pub fn from_counters(raw: &[u32; 13]) -> (stats: Self)
        ensures
            stats.meshlets_pass1 == raw[0] && stats.meshlets_pass2 == raw[1] && stats.triangles == raw[2],
            stats.occluded == raw[3] && stats.instances_visible == raw[4] && stats.lod_level_sum == raw[5],
            stats.visible_overflow == raw[6] && stats.sw_clusters == raw[7] && stats.sw_triangles == raw[8],
            stats.dense_triangles == raw[9] && stats.work_items == raw[10] && stats.work_overflow == raw[11],
            stats.root_entries == raw[12],
    {
        FrameStats {
            meshlets_pass1: raw[0],
            meshlets_pass2: raw[1],
            triangles: raw[2],
            occluded: raw[3],
            instances_visible: raw[4],
            lod_level_sum: raw[5],
            visible_overflow: raw[6],
            sw_clusters: raw[7],
            sw_triangles: raw[8],
            dense_triangles: raw[9],
            work_items: raw[10],
            work_overflow: raw[11],
            root_entries: raw[12],
        }
    }

    /// ", N k dropped (visible list full)" when clusters were dropped, and the same for work
    /// items, else nothing: for the counter lines, so a capped frame never reads as a
    /// complete one.
    pub fn overflow_note(&self) -> (note: String)
        ensures
            note@ == dropped_note(self.visible_overflow, " k dropped (visible list full)"@)
                + dropped_note(self.work_overflow, " k work items or roots dropped (work list full)"@),
    {
        let mut out: Vec<char> = Vec::new();
        if self.visible_overflow != 0 {
            push_text(&mut out, ", ");
            push_decimal(&mut out, rounded(self.visible_overflow as u64, 1000));
            push_text(&mut out, " k dropped (visible list full)");
        }
        let ghost first = out@;
        if self.work_overflow != 0 {
            push_text(&mut out, ", ");
            push_decimal(&mut out, rounded(self.work_overflow as u64, 1000));
            push_text(&mut out, " k work items or roots dropped (work list full)");
        }
        assert(first =~= dropped_note(self.visible_overflow, " k dropped (visible list full)"@));
        assert(out@ =~= first + dropped_note(self.work_overflow, " k work items or roots dropped (work list full)"@));
        string_of(out)
    }
}

/// How large the renderer's lists are to be: the work list every frame slot grows to, the
/// visible-cluster list likewise and its cap, and whether the automatic software raster is on.
#[derive(Clone, Copy, Debug)]
pub struct ListSizing {
    /// Slots every frame slot's work list grows to.
    pub work_target: u32,
    /// The automatic software raster's state.
    pub sw_auto_on: bool,
    /// Slots every frame slot's visible-cluster list grows to.
    pub visible_target: u32,
    /// The most the visible-cluster list may hold on this device.
    pub visible_max: u32,
}

impl ListSizing {
    /// Within the caps: the work list within [`WORK_MAX_CAPACITY`], the visible list within
    /// its device's cap, which is within [`VISIBLE_MAX_CAPACITY`].
    pub open spec fn wf(self) -> bool {
        &&& self.work_target <= WORK_MAX_CAPACITY
        &&& self.visible_target <= self.visible_max
        &&& self.visible_max <= VISIBLE_MAX_CAPACITY
    }

    /// The sizes a renderer starts with, for a device whose draws take at most `device_max`
    /// clusters: [`WORK_INITIAL_CAPACITY`] work items, [`VISIBLE_INITIAL_CAPACITY`] visible
    /// clusters (or the cap), the automatic software raster off.
    pub fn new(device_max: u32) -> (sizing: Self)
        ensures
            sizing.wf(),
            sizing.visible_max == (if device_max < VISIBLE_MAX_CAPACITY { device_max } else { VISIBLE_MAX_CAPACITY }),
            sizing.visible_target == (if VISIBLE_INITIAL_CAPACITY < sizing.visible_max { VISIBLE_INITIAL_CAPACITY } else { sizing.visible_max }),
            sizing.work_target == WORK_INITIAL_CAPACITY,
            !sizing.sw_auto_on,
    {
        let visible_max = if device_max < VISIBLE_MAX_CAPACITY { device_max } else { VISIBLE_MAX_CAPACITY };
        let visible_target = if VISIBLE_INITIAL_CAPACITY < visible_max { VISIBLE_INITIAL_CAPACITY } else { visible_max };
        ListSizing { work_target: WORK_INITIAL_CAPACITY, sw_auto_on: false, visible_target, visible_max }
    }

    /// Whether the frame rasterises its dense clusters in compute, as far as the mode says:
    /// never, when worth it lately, or always.
    pub fn software_wanted(&self, mode: SwRaster) -> (wanted: bool)
        ensures
            wanted == (match mode {
                SwRaster::Off => false,
                SwRaster::Auto => self.sw_auto_on,
                SwRaster::On => true,
            }),
    {
        match mode {
            SwRaster::Off => false,
            SwRaster::Auto => self.sw_auto_on,
            SwRaster::On => true,
        }
    }

    /// Sizes the visible-cluster list for `clusters` before the first frame that needs them,
    /// at most the cap; it never shrinks.
    pub fn reserve_visible(&mut self, clusters: u64)
        requires
            old(self).wf(),
        ensures
            final(self).wf(),
            final(self).visible_target == (if clusters <= old(self).visible_target { old(self).visible_target as nat }
                else if clusters <= old(self).visible_max { clusters as nat }
                else if old(self).visible_max > old(self).visible_target { old(self).visible_max as nat }
                else { old(self).visible_target as nat }),
            final(self).work_target == old(self).work_target,
            final(self).sw_auto_on == old(self).sw_auto_on,
            final(self).visible_max == old(self).visible_max,
    {
        let target: u32 = if clusters < self.visible_max as u64 { clusters as u32 } else { self.visible_max };
        if target > self.visible_target {
            self.visible_target = target;
        }
    }

    /// The sizes after a frame: the work list takes the scene's `work_bound` up front when small
    /// (at most [`WORK_RESERVE_MAX`]); then, given the frame's counters, the work list grows
    /// from the larger of its work items and roots, the automatic software raster decides from
    /// the dense triangles, and the visible list grows from the clusters listed and dropped.
    pub fn after_frame(&mut self, work_bound: u64, stats: Option<FrameStats>)
        requires
            old(self).wf(),
        ensures
            final(self).wf(),
            final(self).visible_max == old(self).visible_max,
            ({
                let reserve = if work_bound < WORK_RESERVE_MAX { work_bound as u32 } else { WORK_RESERVE_MAX };
                let reserved = if reserve > old(self).work_target { reserve } else { old(self).work_target };
                match stats {
                    None => {
                        &&& final(self).work_target == reserved
                        &&& final(self).sw_auto_on == old(self).sw_auto_on
                        &&& final(self).visible_target == old(self).visible_target
                    },
                    Some(s) => {
                        let wanted = if s.work_items >= s.root_entries { s.work_items } else { s.root_entries };
                        &&& final(self).work_target == spec_grown_capacity(reserved, wanted as u64, WORK_MAX_CAPACITY)
                        &&& final(self).sw_auto_on == (if old(self).sw_auto_on {
                            s.dense_triangles >= SW_RASTER_AUTO_OFF
                        } else {
                            s.dense_triangles >= SW_RASTER_AUTO_ON
                        })
                        &&& final(self).visible_target == spec_grown_capacity(
                            old(self).visible_target,
                            (s.meshlets_pass1 + s.meshlets_pass2 + s.visible_overflow) as u64,
                            old(self).visible_max,
                        )
                    },
                }
            }),
            final(self).work_target >= old(self).work_target,
            final(self).visible_target >= old(self).visible_target,
    {
        let reserve: u32 = if work_bound < WORK_RESERVE_MAX as u64 { work_bound as u32 } else { WORK_RESERVE_MAX };
        if reserve > self.work_target {
            self.work_target = reserve;
        }
        if let Some(s) = stats {
            let wanted = if s.work_items >= s.root_entries { s.work_items } else { s.root_entries };
            self.work_target = grown_capacity(self.work_target, wanted as u64, WORK_MAX_CAPACITY);
            self.sw_auto_on = software_worth_it(self.sw_auto_on, s.dense_triangles);
            let listed: u64 = s.meshlets_pass1 as u64 + s.meshlets_pass2 as u64 + s.visible_overflow as u64;
            self.visible_target = grown_capacity(self.visible_target, listed, self.visible_max);
        }
    }
}

/// Work items each cluster-cull workgroup takes.
pub const CULL_ITEMS: u32 = 8;

/// Cluster-cull workgroups the most work the lists can hold needs: `capacity` work items,
/// then the root list's `capacity` roots at 32 to an item.
pub fn cull_groups_for(capacity: u32) -> (groups: u32)
    requires
        capacity <= WORK_MAX_CAPACITY,
    ensures
        groups as int == (capacity + (capacity + TASK_GROUP_SIZE - 1) / (TASK_GROUP_SIZE as int) + CULL_ITEMS - 1)
            / (CULL_ITEMS as int),
{
    let roots = (capacity + (TASK_GROUP_SIZE - 1)) / TASK_GROUP_SIZE;
    (capacity + roots + (CULL_ITEMS - 1)) / CULL_ITEMS
}

/// Bit of the frame block's flags: the pass rasterises in software.
pub const FLAG_SW_RASTER: u32 = 512;

/// Bit of the frame block's flags: pass 1 tests the previous frame's pyramid.
pub const FLAG_PREV_PYRAMID: u32 = 2048;

/// Bit of the frame block's flags: the scene streams its pages.
pub const FLAG_STREAMING: u32 = 4096;

/// Pass 1 of two: the clusters visible last frame.
pub const PASS_PREVIOUSLY_VISIBLE: u32 = 1;

/// Pass 2 of two: the rest, against this frame's pyramid.
pub const PASS_REMAINDER: u32 = 2;

/// The only pass, without occlusion culling.
pub const PASS_SINGLE: u32 = 3;

/// Whether a frame rasterises in software: its mode wants it ([`SwRaster::Auto`] by
/// `auto_on`, its hysteresis state), the device has the pipeline, and neither a frozen
/// culling camera (`flags` holding [`CullFlags::FREEZE`]) nor wireframe is on.
pub fn software_raster(mode: SwRaster, auto_on: bool, has_pipeline: bool, flags: u32, wireframe: bool) -> (on: bool)
    ensures
        on == ((match mode {
            SwRaster::Off => false,
            SwRaster::Auto => auto_on,
            SwRaster::On => true,
        }) && has_pipeline && flags & CullFlags::FREEZE == 0 && !wireframe),
{
    let wanted = match mode {
        SwRaster::Off => false,
        SwRaster::Auto => auto_on,
        SwRaster::On => true,
    };
    wanted && has_pipeline && !CullFlags(flags).has(CullFlags::FREEZE) && !wireframe
}

/// The flag word of the frame block of `pass`: the frame's `flags` with the software-raster
/// bit set only on a pass other than [`PASS_REMAINDER`] of a frame that rasterises in
/// software, the previous-pyramid bit where pass 1 tests one, and the streaming bit where the
/// scene streams.
pub fn frame_flags(flags: u32, pass: u32, software: bool, prev_pyramid: bool, streaming: bool) -> (out: u32)
    ensures
        out & !0x1a00u32 == flags & !0x1a00u32,
        (out & FLAG_SW_RASTER != 0) == (pass != PASS_REMAINDER && software),
        (out & FLAG_PREV_PYRAMID != 0) == prev_pyramid,
        (out & FLAG_STREAMING != 0) == streaming,
{
    let sw = pass != PASS_REMAINDER && software;
    let sw_bit: u32 = if sw { FLAG_SW_RASTER } else { 0 };
    let prev_bit: u32 = if prev_pyramid { FLAG_PREV_PYRAMID } else { 0 };
    let stream_bit: u32 = if streaming { FLAG_STREAMING } else { 0 };
    let out = ((((flags & !FLAG_SW_RASTER) | sw_bit) & !FLAG_PREV_PYRAMID) | prev_bit) & !FLAG_STREAMING | stream_bit;
    assert(out & !0x1a00u32 == flags & !0x1a00u32 && (out & 512u32 != 0) == sw && (out & 2048u32 != 0) == prev_pyramid
        && (out & 4096u32 != 0) == streaming) by (bit_vector)
        requires
            out == ((((flags & !512u32) | sw_bit) & !2048u32) | prev_bit) & !4096u32 | stream_bit,
            sw_bit == if sw { 512u32 } else { 0u32 },
            prev_bit == if prev_pyramid { 2048u32 } else { 0u32 },
            stream_bit == if streaming { 4096u32 } else { 0u32 },
    ;
    out
}

/// How a frame culls: its first pass, the pyramid pass 1 tests (the one built last,
/// `last_built`, where occlusion culling is on), whether this frame builds a pyramid, and the
/// pyramid pass 2 tests.
#[derive(Clone, Copy, Debug, PartialEq, Eq)]
pub struct CullPlan {
    /// [`PASS_PREVIOUSLY_VISIBLE`] with occlusion culling, else [`PASS_SINGLE`].
    pub first_pass: u32,
    /// The pyramid pass 1 tests, if any.
    pub prev_pyramid: Option<u32>,
    /// Whether a pyramid is built after pass 1.
    pub build: bool,
    /// The pyramid pass 2 tests (and the next frame's pass 1).
    pub pyramid: u32,
}

/// The culling plan of a frame with `flags` when `last_built` (0 or 1) was the pyramid built
/// last, if any: with occlusion culling, pass 1 tests it and the other one is built after pass 1
/// for pass 2; a frozen culling camera keeps the last one built, unless there is none yet.
pub fn cull_plan(flags: u32, last_built: Option<u32>) -> (plan: CullPlan)
    requires
        last_built matches Some(p) ==> p <= 1,
    ensures
        plan.first_pass == if flags & CullFlags::OCCLUSION != 0 { PASS_PREVIOUSLY_VISIBLE } else { PASS_SINGLE },
        plan.prev_pyramid == if flags & CullFlags::OCCLUSION != 0 { last_built } else { None },
        plan.build == (flags & CullFlags::OCCLUSION != 0 && (flags & CullFlags::FREEZE == 0 || plan.prev_pyramid is None)),
        plan.pyramid == match plan.prev_pyramid {
            Some(p) => if plan.build { 1 - p } else { p as int },
            None => 0,
        },
{
    let occlusion = CullFlags(flags).has(CullFlags::OCCLUSION);
    let frozen = CullFlags(flags).has(CullFlags::FREEZE);
    let first_pass = if occlusion { PASS_PREVIOUSLY_VISIBLE } else { PASS_SINGLE };
    let prev = if occlusion { last_built } else { None };
    let build = occlusion && (!frozen || prev.is_none());
    let pyramid = match prev {
        Some(p) => if build { 1 - p } else { p },
        None => 0,
    };
    CullPlan { first_pass, prev_pyramid: prev, build, pyramid }
}

} // verus!
