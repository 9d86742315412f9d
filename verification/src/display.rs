//! The tone curves a display transform may use, chosen at run time, and what the tone-mapping
//! shader reads of their tables.

use vstd::prelude::*;

use crate::text::{debug_quoted, debug_text, eq_ignore_ascii_case, push_text, string_of, text_eq_ignore_ascii_case};

verus! {

/// A tone curve (index as in `tonemap.slang`).
#[derive(Clone, Copy, Debug, PartialEq, Eq)]
pub enum Tonemap {
    /// AgX: hue-safe, bright colours desaturate to white (the default).
    AgX,
    /// ACES 1.x RRT + sRGB ODT, Hill's fit: contrasty, film-like, darker mid-tones.
    Aces,
    /// Khronos PBR Neutral: base colours unchanged up to ~0.76, highlights compressed.
    PbrNeutral,
    /// ACES 2.0's output transform for a 100-nit SDR Rec.709 display, through its baked table.
    Aces2,
    /// The same transform evaluated per pixel: the reference the table is measured against
    /// (not in the cycle).
    Aces2Analytic,
}

impl Default for Tonemap {
    /// AgX.
    fn default() -> (t: Self)
        ensures
            t == Tonemap::AgX,
    {
        Tonemap::AgX
    }
}

/// [`Tonemap::name`] as a sequence of characters.
pub open spec fn tonemap_name(t: Tonemap) -> Seq<char> {
    match t {
        Tonemap::AgX => "agx"@,
        Tonemap::Aces => "aces"@,
        Tonemap::PbrNeutral => "neutral"@,
        Tonemap::Aces2 => "aces2"@,
        Tonemap::Aces2Analytic => "aces2-analytic"@,
    }
}

/// The shader's index of each curve.
pub open spec fn tonemap_index(t: Tonemap) -> u32 {
    match t {
        Tonemap::AgX => 0,
        Tonemap::Aces => 1,
        Tonemap::PbrNeutral => 2,
        Tonemap::Aces2 => 3,
        Tonemap::Aces2Analytic => 4,
    }
}

/// The curve after `t` in the cycle: AgX, ACES, PBR Neutral, ACES 2.0, then AgX again; the
/// per-pixel ACES 2.0, outside the cycle, counts as AgX's place.
pub open spec fn tonemap_after(t: Tonemap) -> Tonemap {
    match t {
        Tonemap::AgX => Tonemap::Aces,
        Tonemap::Aces => Tonemap::PbrNeutral,
        Tonemap::PbrNeutral => Tonemap::Aces2,
        Tonemap::Aces2 => Tonemap::AgX,
        Tonemap::Aces2Analytic => Tonemap::Aces,
    }
}

impl Tonemap {
    /// Every curve, in cycling order.
    pub const ALL: [Tonemap; 4] = [Tonemap::AgX, Tonemap::Aces, Tonemap::PbrNeutral, Tonemap::Aces2];

    /// The shader's index.
    pub fn index(self) -> (index: u32)
        ensures
            index == tonemap_index(self),
    {
        match self {
            Tonemap::AgX => 0,
            Tonemap::Aces => 1,
            Tonemap::PbrNeutral => 2,
            Tonemap::Aces2 => 3,
            Tonemap::Aces2Analytic => 4,
        }
    }

    /// Short name for overlays and file names.
    pub fn name(self) -> (name: &'static str)
        ensures
            name@ == tonemap_name(self),
            name@ == (match self {
                Tonemap::AgX => "agx"@,
                Tonemap::Aces => "aces"@,
                Tonemap::PbrNeutral => "neutral"@,
                Tonemap::Aces2 => "aces2"@,
                Tonemap::Aces2Analytic => "aces2-analytic"@,
            }),
    {
        match self {
            Tonemap::AgX => "agx",
            Tonemap::Aces => "aces",
            Tonemap::PbrNeutral => "neutral",
            Tonemap::Aces2 => "aces2",
            Tonemap::Aces2Analytic => "aces2-analytic",
        }
    }

    /// Display name.
    pub fn label(self) -> (label: &'static str)
        ensures
            label@ == (match self {
                Tonemap::AgX => "AgX"@,
                Tonemap::Aces => "ACES (Hill fit)"@,
                Tonemap::PbrNeutral => "Khronos PBR Neutral"@,
                Tonemap::Aces2 => "ACES 2.0 (SDR, table)"@,
                Tonemap::Aces2Analytic => "ACES 2.0 (SDR, per pixel)"@,
            }),
    {
        match self {
            Tonemap::AgX => "AgX",
            Tonemap::Aces => "ACES (Hill fit)",
            Tonemap::PbrNeutral => "Khronos PBR Neutral",
            Tonemap::Aces2 => "ACES 2.0 (SDR, table)",
            Tonemap::Aces2Analytic => "ACES 2.0 (SDR, per pixel)",
        }
    }

    /// The next curve (a key cycles through them): the one after this in [`Tonemap::ALL`],
    /// wrapping round; a curve outside the cycle counts as the first.
    pub fn next(self) -> (next: Self)
        ensures
            next == tonemap_after(self),
    {
        match self {
            Tonemap::AgX => Tonemap::Aces,
            Tonemap::Aces => Tonemap::PbrNeutral,
            Tonemap::PbrNeutral => Tonemap::Aces2,
            Tonemap::Aces2 => Tonemap::AgX,
            Tonemap::Aces2Analytic => Tonemap::Aces,
        }
    }

    /// The curve whose name `text` is, ignoring ASCII case: one of the cycle or the per-pixel
    /// ACES 2.0.
    pub fn from_name(text: &str) -> (curve: Option<Tonemap>)
        ensures
            curve matches Some(t) ==> eq_ignore_ascii_case(tonemap_name(t), text@),
            curve is None ==> forall|t: Tonemap| !eq_ignore_ascii_case(#[trigger] tonemap_name(t), text@),
    {
        let all: [Tonemap; 5] = [Tonemap::AgX, Tonemap::Aces, Tonemap::PbrNeutral, Tonemap::Aces2, Tonemap::Aces2Analytic];
        let mut i: usize = 0;
        while i < 5
            invariant
                i <= 5,
                all@ == seq![Tonemap::AgX, Tonemap::Aces, Tonemap::PbrNeutral, Tonemap::Aces2, Tonemap::Aces2Analytic],
                forall|k: int| 0 <= k < i ==> !eq_ignore_ascii_case(#[trigger] tonemap_name(all@[k]), text@),
            decreases 5 - i,
        {
            let t = all[i];
            if text_eq_ignore_ascii_case(t.name(), text) {
                return Some(t);
            }
            i = i + 1;
        }
        proof {
            assert forall|t: Tonemap| !eq_ignore_ascii_case(#[trigger] tonemap_name(t), text@) by {
                match t {
                    Tonemap::AgX => assert(all@[0] == t),
                    Tonemap::Aces => assert(all@[1] == t),
                    Tonemap::PbrNeutral => assert(all@[2] == t),
                    Tonemap::Aces2 => assert(all@[3] == t),
                    Tonemap::Aces2Analytic => assert(all@[4] == t),
                }
            }
        }
        None
    }
}

/// Cycling through [`Tonemap::ALL`] as many times as it has curves comes back to the first
/// one, from any curve of the cycle; every index is distinct and below five.
pub proof fn tonemap_cycle(t: Tonemap)
    ensures
        t != Tonemap::Aces2Analytic ==> tonemap_after(tonemap_after(tonemap_after(tonemap_after(t)))) == t,
        tonemap_index(t) < 5,
        forall|u: Tonemap| tonemap_index(u) == tonemap_index(t) ==> u == t,
{
}

/// The key steps through [`Tonemap::ALL`] in its order: each curve of the cycle is followed by
/// the next one there, the last by the first.
pub proof fn tonemap_next_follows_all(i: int)
    requires
        0 <= i < 4,
    ensures
        tonemap_after(Tonemap::ALL[i]) == Tonemap::ALL[(i + 1) % 4],
{
}

/// The names a parse error lists are the curves' names, in [`Tonemap::ALL`]'s order and then
/// the per-pixel ACES 2.0; in particular ACES 1.x is "aces" and the ACES 2.0 table "aces2".
pub proof fn tonemap_names_are_the_listed_ones()
    ensures
        tonemap_name(Tonemap::ALL[0]) + ", "@ + tonemap_name(Tonemap::ALL[1]) + ", "@ + tonemap_name(Tonemap::ALL[2])
            + ", "@ + tonemap_name(Tonemap::ALL[3]) + " or "@ + tonemap_name(Tonemap::Aces2Analytic)
            == "agx, aces, neutral, aces2 or aces2-analytic"@,
        tonemap_name(Tonemap::AgX) == "agx"@,
        tonemap_name(Tonemap::Aces) == "aces"@,
        tonemap_name(Tonemap::PbrNeutral) == "neutral"@,
        tonemap_name(Tonemap::Aces2) == "aces2"@,
        tonemap_name(Tonemap::Aces2Analytic) == "aces2-analytic"@,
{
    reveal_strlit("agx");
    reveal_strlit("aces");
    reveal_strlit("neutral");
    reveal_strlit("aces2");
    reveal_strlit("aces2-analytic");
    reveal_strlit(", ");
    reveal_strlit(" or ");
    reveal_strlit("agx, aces, neutral, aces2 or aces2-analytic");
    assert(tonemap_name(Tonemap::ALL[0]) + ", "@ + tonemap_name(Tonemap::ALL[1]) + ", "@ + tonemap_name(Tonemap::ALL[2])
        + ", "@ + tonemap_name(Tonemap::ALL[3]) + " or "@ + tonemap_name(Tonemap::Aces2Analytic)
        =~= "agx, aces, neutral, aces2 or aces2-analytic"@);
}

/// Every curve's name parses back to that curve: the names differ even ignoring case.
pub proof fn tonemap_names_parse_back(t: Tonemap, u: Tonemap)
    ensures
        eq_ignore_ascii_case(tonemap_name(u), tonemap_name(t)) <==> u == t,
{
    reveal_strlit("agx");
    reveal_strlit("aces");
    reveal_strlit("neutral");
    reveal_strlit("aces2");
    reveal_strlit("aces2-analytic");
}

impl std::str::FromStr for Tonemap {
    type Err = String;

    fn from_str(text: &str) -> (parsed: Result<Tonemap, String>)
        ensures
            parsed matches Ok(t) ==> eq_ignore_ascii_case(tonemap_name(t), text@),
            parsed is Err ==> forall|t: Tonemap| !eq_ignore_ascii_case(#[trigger] tonemap_name(t), text@),
            parsed matches Err(e) ==> e@ == "unknown tone curve "@ + debug_text(text@)
                + ": agx, aces, neutral, aces2 or aces2-analytic"@,
    {
        match Tonemap::from_name(text) {
            Some(t) => Ok(t),
            None => {
                let mut out: Vec<char> = Vec::new();
                push_text(&mut out, "unknown tone curve ");
                let quoted = debug_quoted(text);
                push_text(&mut out, quoted.as_str());
                push_text(&mut out, ": agx, aces, neutral, aces2 or aces2-analytic");
                Err(string_of(out))
            },
        }
    }
}

/// What `tonemap.slang` reads of the ACES 2.0 curves: the bindless index of the baked table
/// and the address of the per-pixel transform's parameters.
#[derive(Clone, Copy, Debug)]
pub struct ToneTablesPush {
    lut: u32,
    pad: u32,
    aces2: u64,
}

impl ToneTablesPush {
    /// The block for table `lut` and parameters at `aces2`, its padding zero.
    pub fn new(lut: u32, aces2: u64) -> (push: Self)
        ensures
            push.lut_index() == lut,
            push.padding() == 0,
            push.params_address() == aces2,
    {
        ToneTablesPush { lut, pad: 0, aces2 }
    }

    /// The four bytes between the index and the address.
    pub closed spec fn padding(self) -> u32 {
        self.pad
    }

    /// The table's bindless index.
    pub closed spec fn lut_index(self) -> u32 {
        self.lut
    }

    /// The parameters' device address.
    pub closed spec fn params_address(self) -> u64 {
        self.aces2
    }
}

} // verus!
