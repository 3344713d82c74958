//! The small enumerations shared by the solver settings, the renderer
//! and the UI: solver and view choices, color ranges, probe plots, unit
//! systems and the per-edge boundary kinds, with their stable numeric
//! and text encodings.

use vstd::prelude::*;

verus! {

/// Most probes a scene holds: `ProbeSet::add` refuses a probe beyond it.
/// A scene file's extra probes are cut by the file loader, after it has
/// dropped probes at non-finite positions; `ProbeSet::load` takes the
/// list it is given as is.
pub const MAX_PROBES: usize = 8;

/// Which quantity the probe plot panel draws.
#[derive(Clone, Copy, PartialEq, Eq, Structural, Debug, Default)]
pub enum ProbeQuantity {
    #[default]
    Speed,
    Vorticity,
    Pressure,
    Smoke,
}

impl ProbeQuantity {
    /// Every quantity, in menu order.
    pub const ALL: [ProbeQuantity; 4] = [
        ProbeQuantity::Speed,
        ProbeQuantity::Vorticity,
        ProbeQuantity::Pressure,
        ProbeQuantity::Smoke,
    ];

    /// The quantity's name as the plot shows it.
    pub fn label(&self) -> (r: &'static str)
        ensures
            r@ == match *self {
                ProbeQuantity::Speed => "Speed"@,
                ProbeQuantity::Vorticity => "Vorticity"@,
                ProbeQuantity::Pressure => "Pressure"@,
                ProbeQuantity::Smoke => "Smoke"@,
            },
    {
        match self {
            ProbeQuantity::Speed => "Speed",
            ProbeQuantity::Vorticity => "Vorticity",
            ProbeQuantity::Pressure => "Pressure",
            ProbeQuantity::Smoke => "Smoke",
        }
    }

    /// Position in `ALL` (the scene files' encoding).
    pub open spec fn spec_index(self) -> u32 {
        match self {
            ProbeQuantity::Speed => 0,
            ProbeQuantity::Vorticity => 1,
            ProbeQuantity::Pressure => 2,
            ProbeQuantity::Smoke => 3,
        }
    }

    /// Position in `ALL` (the scene files' encoding).
    pub fn index(&self) -> (r: u32)
        ensures
            r == self.spec_index(),
            r < 4,
    {
        match self {
            ProbeQuantity::Speed => 0,
            ProbeQuantity::Vorticity => 1,
            ProbeQuantity::Pressure => 2,
            ProbeQuantity::Smoke => 3,
        }
    }

    /// Decode a stored position; out-of-range values clamp to the last
    /// entry, as a newer file's value must not fail a load.
    pub fn from_index(v: u32) -> (r: ProbeQuantity)
        ensures
            v < 4 ==> r.spec_index() == v,
            v >= 4 ==> r == ProbeQuantity::Smoke,
    {
        match v {
            0 => ProbeQuantity::Speed,
            1 => ProbeQuantity::Vorticity,
            2 => ProbeQuantity::Pressure,
            _ => ProbeQuantity::Smoke,
        }
    }
}

/// The wall profile of a generated nozzle's diverging section.
#[derive(Clone, Copy, PartialEq, Eq, Structural, Debug)]
pub enum NozzleContour {
    /// A straight cone from throat to exit.
    Conical,
    /// A parabolic bell: steep initial expansion relaxing toward the exit.
    Bell,
}

/// Which solver advances the flow.
#[derive(Clone, Copy, PartialEq, Eq, Structural, Debug)]
pub enum SolverMode {
    /// D2Q9 lattice-Boltzmann: incompressible, viscous, low Mach.
    Lbm,
    /// Finite-volume compressible Euler (MUSCL + HLLC).
    Euler,
}

impl SolverMode {
    /// Scene-file encoding: 0 = LBM, 1 = Euler.
    pub fn to_u32(&self) -> (r: u32)
        ensures
            r == (if *self == SolverMode::Lbm { 0u32 } else { 1u32 }),
    {
        match self {
            SolverMode::Lbm => 0,
            SolverMode::Euler => 1,
        }
    }

    /// Scene-file decoding: 1 is Euler, anything else LBM.
    pub fn from_u32(v: u32) -> (r: SolverMode)
        ensures
            r == (if v == 1 { SolverMode::Euler } else { SolverMode::Lbm }),
    {
        if v == 1 {
            SolverMode::Euler
        } else {
            SolverMode::Lbm
        }
    }
}

/// The field a frame renders.
#[derive(Clone, Copy, PartialEq, Eq, Structural, Debug)]
pub enum RenderMode {
    Dye,
    Speed,
    Vorticity,
    Pressure,
}

impl RenderMode {
    /// Every mode, in menu order.
    pub const ALL: [RenderMode; 4] = [
        RenderMode::Dye,
        RenderMode::Speed,
        RenderMode::Vorticity,
        RenderMode::Pressure,
    ];

    /// The mode's name as the menu shows it.
    pub fn label(&self) -> (r: &'static str)
        ensures
            r@ == match *self {
                RenderMode::Dye => "Smoke"@,
                RenderMode::Speed => "Speed"@,
                RenderMode::Vorticity => "Vorticity"@,
                RenderMode::Pressure => "Pressure"@,
            },
    {
        match self {
            RenderMode::Dye => "Smoke",
            RenderMode::Speed => "Speed",
            RenderMode::Vorticity => "Vorticity",
            RenderMode::Pressure => "Pressure",
        }
    }

    /// The mode's position in `ALL`.
    pub open spec fn spec_index(self) -> usize {
        match self {
            RenderMode::Dye => 0,
            RenderMode::Speed => 1,
            RenderMode::Vorticity => 2,
            RenderMode::Pressure => 3,
        }
    }

    /// The mode's shader code and its slot in per-mode tables
    /// (0 Dye, 1 Speed, 2 Vorticity, 3 Pressure).
    pub fn index(&self) -> (r: usize)
        ensures
            r == self.spec_index(),
            r < 4,
    {
        match self {
            RenderMode::Dye => 0,
            RenderMode::Speed => 1,
            RenderMode::Vorticity => 2,
            RenderMode::Pressure => 3,
        }
    }
}

/// How the color-mapping range for one render mode is chosen.
#[derive(Clone, Copy, PartialEq, Eq, Structural, Debug)]
pub enum RangeMode {
    /// The saturation point follows the inlet condition and display gain.
    Auto,
    /// The physical value on screen when the user locked is kept.
    Locked,
    /// The user typed the saturation value in physical units.
    Manual,
}

impl RangeMode {
    /// Scene-file encoding: 0 = Auto, 1 = Locked, 2 = Manual.
    pub fn to_u32(&self) -> (r: u32)
        ensures
            r == match *self {
                RangeMode::Auto => 0u32,
                RangeMode::Locked => 1u32,
                RangeMode::Manual => 2u32,
            },
    {
        match self {
            RangeMode::Auto => 0,
            RangeMode::Locked => 1,
            RangeMode::Manual => 2,
        }
    }

    /// Scene-file decoding; unknown values load as Auto.
    pub fn from_u32(v: u32) -> (r: RangeMode)
        ensures
            r == (if v == 1 {
                RangeMode::Locked
            } else if v == 2 {
                RangeMode::Manual
            } else {
                RangeMode::Auto
            }),
    {
        match v {
            1 => RangeMode::Locked,
            2 => RangeMode::Manual,
            _ => RangeMode::Auto,
        }
    }
}

/// Which colormap paints a field view.
#[derive(Clone, Copy, PartialEq, Eq, Structural, Debug)]
pub enum ColorMap {
    Inferno,
    Coolwarm,
}

impl ColorMap {
    /// The colour map a mode starts with.
    pub open spec fn spec_default_for(mode: RenderMode) -> ColorMap {
        match mode {
            RenderMode::Dye | RenderMode::Speed => ColorMap::Inferno,
            RenderMode::Vorticity | RenderMode::Pressure => ColorMap::Coolwarm,
        }
    }

    /// The map a render mode is born with (what the shader draws when
    /// the swap flag is clear).
    pub fn default_for(mode: RenderMode) -> (r: ColorMap)
        ensures
            r == ColorMap::spec_default_for(mode),
    {
        match mode {
            RenderMode::Dye | RenderMode::Speed => ColorMap::Inferno,
            RenderMode::Vorticity | RenderMode::Pressure => ColorMap::Coolwarm,
        }
    }

    /// Scene-file encoding: 0 = Inferno, 1 = Coolwarm.
    pub fn to_u32(&self) -> (r: u32)
        ensures
            r == (if *self == ColorMap::Inferno { 0u32 } else { 1u32 }),
    {
        match self {
            ColorMap::Inferno => 0,
            ColorMap::Coolwarm => 1,
        }
    }

    /// Scene-file decoding: 1 is Coolwarm, anything else Inferno.
    pub fn from_u32(v: u32) -> (r: ColorMap)
        ensures
            r == (if v == 1 { ColorMap::Coolwarm } else { ColorMap::Inferno }),
    {
        if v == 1 {
            ColorMap::Coolwarm
        } else {
            ColorMap::Inferno
        }
    }
}

/// The render uniform's flags word: bit 0 draws boundary tints, bit 1
/// tells the shader to swap the view's colormap away from its default.
pub fn render_flags(boundary_tints: bool, mode: RenderMode, map: ColorMap) -> (r: u32)
    ensures
        r == (if boundary_tints { 1u32 } else { 0u32 }) + (if map != ColorMap::spec_default_for(mode) {
            2u32
        } else {
            0u32
        }),
{
    let mut flags: u32 = if boundary_tints { 1 } else { 0 };
    if map != ColorMap::default_for(mode) {
        flags = flags + 2;
    }
    flags
}

/// The two unit systems the UI displays (SI and ASME decimal inch).
#[derive(Clone, Copy, PartialEq, Eq, Structural, Debug)]
pub enum UnitSystem {
    Si,
    DecimalInch,
}

/// The preference-file spelling of each unit system.
pub open spec fn pref_spelling(s: UnitSystem) -> Seq<char> {
    match s {
        UnitSystem::Si => "si"@,
        UnitSystem::DecimalInch => "inch"@,
    }
}

/// What a preference value reads as: a known spelling, or nothing.
pub open spec fn parse_pref(v: Seq<char>) -> Option<UnitSystem> {
    if v == "si"@ {
        Some(UnitSystem::Si)
    } else if v == "inch"@ {
        Some(UnitSystem::DecimalInch)
    } else {
        None
    }
}

/// Preference-file spelling of a unit system. Stable strings: they
/// live in users' config files.
pub fn unit_system_pref_str(s: UnitSystem) -> (r: &'static str)
    ensures
        r@ == pref_spelling(s),
{
    match s {
        UnitSystem::Si => "si",
        UnitSystem::DecimalInch => "inch",
    }
}

/// Inverse of `unit_system_pref_str`; unknown spellings yield None and
/// the default stands.
pub fn unit_system_from_pref(v: &str) -> (r: Option<UnitSystem>)
    ensures
        r == parse_pref(v@),
{
    proof {
        reveal_strlit("si");
        reveal_strlit("inch");
    }
    let n = v.unicode_len();
    if n == 2 && v.get_char(0) == 's' && v.get_char(1) == 'i' {
        proof {
            assert(v@ =~= "si"@);
        }
        Some(UnitSystem::Si)
    } else if n == 4 && v.get_char(0) == 'i' && v.get_char(1) == 'n' && v.get_char(2) == 'c'
        && v.get_char(3) == 'h' {
        proof {
            assert(v@ =~= "inch"@);
        }
        Some(UnitSystem::DecimalInch)
    } else {
        proof {
            if v@ == "si"@ {
                assert(v@[0] == 's' && v@[1] == 'i');
            }
            if v@ == "inch"@ {
                assert(v@[0] == 'i' && v@[1] == 'n' && v@[2] == 'c' && v@[3] == 'h');
            }
        }
        None
    }
}

/// Every unit system's spelling reads back as that unit system, and the
/// two spellings differ.
pub proof fn lemma_unit_pref_round_trip(s: UnitSystem)
    ensures
        parse_pref(pref_spelling(s)) == Some(s),
        pref_spelling(UnitSystem::Si) != pref_spelling(UnitSystem::DecimalInch),
{
    reveal_strlit("si");
    reveal_strlit("inch");
    assert("si"@.len() != "inch"@.len());
}

/// The unit system that the display mirror's flag stands for: set
/// means decimal inch.
pub fn unit_system_from_mirror(inch: bool) -> (r: UnitSystem)
    ensures
        r == (if inch { UnitSystem::DecimalInch } else { UnitSystem::Si }),
{
    if inch {
        UnitSystem::DecimalInch
    } else {
        UnitSystem::Si
    }
}

/// The display mirror's flag for a unit system.
pub fn mirror_flag(s: UnitSystem) -> (r: bool)
    ensures
        r == (s == UnitSystem::DecimalInch),
        (if r { UnitSystem::DecimalInch } else { UnitSystem::Si }) == s,
{
    match s {
        UnitSystem::Si => false,
        UnitSystem::DecimalInch => true,
    }
}

/// The boundary condition painted along one domain edge.
#[derive(Clone, Copy, PartialEq, Eq, Structural, Debug)]
pub enum EdgeKind {
    FarField,
    Inlet,
    Outlet,
    Wall,
    /// Reserved; paints nothing yet.
    Periodic,
}

/// Scene-file encoding of an edge kind.
pub open spec fn edge_code(k: EdgeKind) -> u32 {
    match k {
        EdgeKind::FarField => 0,
        EdgeKind::Inlet => 1,
        EdgeKind::Outlet => 2,
        EdgeKind::Wall => 3,
        EdgeKind::Periodic => 4,
    }
}

/// The stored code of an edge kind.
pub fn edge_kind_to_u32(k: EdgeKind) -> (r: u32)
    ensures
        r == edge_code(k),
{
    match k {
        EdgeKind::FarField => 0,
        EdgeKind::Inlet => 1,
        EdgeKind::Outlet => 2,
        EdgeKind::Wall => 3,
        EdgeKind::Periodic => 4,
    }
}

/// Unknown codes (a newer file) fall back to far field, the one kind
/// that is always safe; 4 keeps the reserved periodic variant.
pub fn edge_kind_from_u32(v: u32) -> (r: EdgeKind)
    ensures
        v <= 4 ==> edge_code(r) == v,
        v > 4 ==> r == EdgeKind::FarField,
{
    match v {
        1 => EdgeKind::Inlet,
        2 => EdgeKind::Outlet,
        3 => EdgeKind::Wall,
        4 => EdgeKind::Periodic,
        _ => EdgeKind::FarField,
    }
}

/// Decoding an encoded edge kind gives it back.
pub proof fn lemma_edge_kind_round_trip(k: EdgeKind)
    ensures
        ({
            let v = edge_code(k);
            &&& v <= 4
            &&& forall|r: EdgeKind| edge_code(r) == v ==> r == k
        }),
{
}

/// The four edges' kinds, in left, right, top, bottom order.
#[derive(Clone, Copy, PartialEq, Eq, Debug)]
pub struct EdgeBcs(pub [EdgeKind; 4]);

impl EdgeBcs {
    /// Every edge far field.
    pub open spec fn spec_open() -> EdgeBcs {
        EdgeBcs([EdgeKind::FarField, EdgeKind::FarField, EdgeKind::FarField, EdgeKind::FarField])
    }

    /// Inlet left, outlet right, far field top and bottom.
    pub open spec fn spec_wind_tunnel() -> EdgeBcs {
        EdgeBcs([EdgeKind::Inlet, EdgeKind::Outlet, EdgeKind::FarField, EdgeKind::FarField])
    }

    /// Every edge far field: an open domain.
    pub fn open() -> (r: EdgeBcs)
        ensures
            r == EdgeBcs::spec_open(),
    {
        EdgeBcs([EdgeKind::FarField, EdgeKind::FarField, EdgeKind::FarField, EdgeKind::FarField])
    }

    /// The wind-tunnel preset: inlet on the left, outlet on the right,
    /// top and bottom far field.
    pub fn wind_tunnel() -> (r: EdgeBcs)
        ensures
            r == EdgeBcs::spec_wind_tunnel(),
    {
        EdgeBcs([EdgeKind::Inlet, EdgeKind::Outlet, EdgeKind::FarField, EdgeKind::FarField])
    }

    /// The edge set an older scene's `wind_tunnel` flag implies.
    pub fn legacy(wind_tunnel: bool) -> (r: EdgeBcs)
        ensures
            r == (if wind_tunnel { EdgeBcs::spec_wind_tunnel() } else { EdgeBcs::spec_open() }),
    {
        if wind_tunnel {
            EdgeBcs::wind_tunnel()
        } else {
            EdgeBcs::open()
        }
    }

    /// Whether the edges are exactly the wind-tunnel preset.
    pub fn is_tunnel_preset(&self) -> (r: bool)
        ensures
            r == (*self == EdgeBcs::spec_wind_tunnel()),
    {
        let e = self.0;
        let r = e[0] == EdgeKind::Inlet && e[1] == EdgeKind::Outlet && e[2] == EdgeKind::FarField
            && e[3] == EdgeKind::FarField;
        proof {
            if *self == EdgeBcs::spec_wind_tunnel() {
                assert(r);
            }
            if r {
                vstd::array::axiom_array_ext_equal(self.0, EdgeBcs::spec_wind_tunnel().0);
                assert(self.0 =~= EdgeBcs::spec_wind_tunnel().0);
            }
        }
        r
    }

    /// Set edge `i` (0 left, 1 right, 2 top, 3 bottom) to `k`; any other
    /// index is ignored. Returns whether an edge was set.
    pub fn set_edge(&mut self, i: usize, k: EdgeKind) -> (r: bool)
        ensures
            r == (i < 4),
            i < 4 ==> final(self).0@ == old(self).0@.update(i as int, k),
            i >= 4 ==> *final(self) == *old(self),
    {
        if i < 4 {
            self.0[i] = k;
            true
        } else {
            false
        }
    }

    /// Encode the four edges for a scene file.
    pub fn to_codes(&self) -> (r: [u32; 4])
        ensures
            forall|i: int| 0 <= i < 4 ==> r@[i] == edge_code(self.0@[i]),
    {
        [
            edge_kind_to_u32(self.0[0]),
            edge_kind_to_u32(self.0[1]),
            edge_kind_to_u32(self.0[2]),
            edge_kind_to_u32(self.0[3]),
        ]
    }

    /// Decode four stored edge codes (unknown codes load as far field).
    pub fn from_codes(c: [u32; 4]) -> (r: EdgeBcs)
        ensures
            forall|i: int| 0 <= i < 4 && c@[i] <= 4 ==> edge_code(r.0@[i]) == c@[i],
            forall|i: int| 0 <= i < 4 && c@[i] > 4 ==> r.0@[i] == EdgeKind::FarField,
    {
        EdgeBcs(
            [
                edge_kind_from_u32(c[0]),
                edge_kind_from_u32(c[1]),
                edge_kind_from_u32(c[2]),
                edge_kind_from_u32(c[3]),
            ],
        )
    }
}

/// Title line of an exported image's run sheet.
pub fn solver_title(solver: SolverMode) -> (r: &'static str)
    ensures
        r@ == match solver {
            SolverMode::Lbm => "FlowPaint — LBM (incompressible)"@,
            SolverMode::Euler => "FlowPaint — Euler (compressible)"@,
        },
{
    match solver {
        SolverMode::Lbm => "FlowPaint — LBM (incompressible)",
        SolverMode::Euler => "FlowPaint — Euler (compressible)",
    }
}

} // verus!
