//! The CPU-side solver-grid layers (cell types plus the fan and dye
//! layers, carried as opaque per-cell records) and the integer
//! rectangles that track which part of them changed.

use vstd::prelude::*;

verus! {

/// Cell code of open fluid.
pub const CELL_FLUID: u32 = 0;
/// Cell code of a solid wall.
pub const CELL_WALL: u32 = 1;
/// Cell code of an inlet (fan) cell.
pub const CELL_INLET: u32 = 2;
/// Cell code of an outlet (drain) cell.
pub const CELL_OUTLET: u32 = 3;

/// A half-open rectangle of grid cells: columns `x0..x1`, rows `y0..y1`.
#[derive(Clone, Copy, PartialEq, Eq, Structural, Debug)]
pub struct GridRect {
    pub x0: i32,
    pub y0: i32,
    pub x1: i32,
    pub y1: i32,
}

/// The smaller of two coordinates.
pub open spec fn min_i32(a: i32, b: i32) -> i32 {
    if a <= b { a } else { b }
}

/// The larger of two coordinates.
pub open spec fn max_i32(a: i32, b: i32) -> i32 {
    if a >= b { a } else { b }
}

impl GridRect {
    /// The rectangle covers no cell.
    pub open spec fn empty(self) -> bool {
        self.x0 >= self.x1 || self.y0 >= self.y1
    }

    /// Cell `(x, y)` lies inside the rectangle.
    pub open spec fn contains(self, x: int, y: int) -> bool {
        self.x0 <= x < self.x1 && self.y0 <= y < self.y1
    }

    /// The spec of `union`.
    pub open spec fn union_of(self, o: GridRect) -> GridRect {
        if self.empty() {
            o
        } else if o.empty() {
            self
        } else {
            GridRect {
                x0: min_i32(self.x0, o.x0),
                y0: min_i32(self.y0, o.y0),
                x1: max_i32(self.x1, o.x1),
                y1: max_i32(self.y1, o.y1),
            }
        }
    }

    /// The spec of `intersect`.
    pub open spec fn intersection(self, o: GridRect) -> GridRect {
        GridRect {
            x0: max_i32(self.x0, o.x0),
            y0: max_i32(self.y0, o.y0),
            x1: min_i32(self.x1, o.x1),
            y1: min_i32(self.y1, o.y1),
        }
    }

    /// The spec of `clampped`: the rectangle cut to a `w` by `h` grid.
    pub open spec fn clamped_to(self, w: usize, h: usize) -> GridRect {
        GridRect {
            x0: max_i32(self.x0, 0),
            y0: max_i32(self.y0, 0),
            x1: min_i32(self.x1, w as i32),
            y1: min_i32(self.y1, h as i32),
        }
    }

    /// The spec of `full`.
    pub open spec fn full_of(w: usize, h: usize) -> GridRect {
        GridRect { x0: 0, y0: 0, x1: w as i32, y1: h as i32 }
    }

    /// Whether the rectangle covers no cell.
    pub fn is_empty(&self) -> (r: bool)
        ensures
            r == self.empty(),
            r <==> (forall|x: int, y: int| !self.contains(x, y)),
    {
        proof {
            if !self.empty() {
                assert(self.contains(self.x0 as int, self.y0 as int));
            }
        }
        self.x0 >= self.x1 || self.y0 >= self.y1
    }

    /// Bounding union. An empty operand (which may carry arbitrary
    /// coordinates after clamping) is ignored rather than inflating the
    /// result.
    pub fn union(&self, o: GridRect) -> (r: GridRect)
        ensures
            r == self.union_of(o),
            forall|x: int, y: int| self.contains(x, y) ==> r.contains(x, y),
            forall|x: int, y: int| o.contains(x, y) ==> r.contains(x, y),
            self.empty() && o.empty() ==> r.empty(),
    {
        if self.is_empty() {
            return o;
        }
        if o.is_empty() {
            return *self;
        }
        GridRect {
            x0: if self.x0 <= o.x0 { self.x0 } else { o.x0 },
            y0: if self.y0 <= o.y0 { self.y0 } else { o.y0 },
            x1: if self.x1 >= o.x1 { self.x1 } else { o.x1 },
            y1: if self.y1 >= o.y1 { self.y1 } else { o.y1 },
        }
    }

    /// Overlap of two rectangles; exactly the cells in both.
    pub fn intersect(&self, o: GridRect) -> (r: GridRect)
        ensures
            r == self.intersection(o),
            forall|x: int, y: int| r.contains(x, y) <==> (self.contains(x, y) && o.contains(x, y)),
    {
        GridRect {
            x0: if self.x0 >= o.x0 { self.x0 } else { o.x0 },
            y0: if self.y0 >= o.y0 { self.y0 } else { o.y0 },
            x1: if self.x1 <= o.x1 { self.x1 } else { o.x1 },
            y1: if self.y1 <= o.y1 { self.y1 } else { o.y1 },
        }
    }

    /// The rectangle cut to the cells of a `w` by `h` grid.
    pub fn clampped(&self, w: usize, h: usize) -> (r: GridRect)
        ensures
            r == self.clamped_to(w, h),
            r == self.intersection(GridRect::full_of(w, h)),
    {
        let wi = w as i32;
        let hi = h as i32;
        GridRect {
            x0: if self.x0 >= 0 { self.x0 } else { 0 },
            y0: if self.y0 >= 0 { self.y0 } else { 0 },
            x1: if self.x1 <= wi { self.x1 } else { wi },
            y1: if self.y1 <= hi { self.y1 } else { hi },
        }
    }

    /// The whole `w` by `h` grid.
    pub fn full(w: usize, h: usize) -> (r: GridRect)
        ensures
            r == GridRect::full_of(w, h),
            w <= i32::MAX && h <= i32::MAX ==> (forall|x: int, y: int|
                r.contains(x, y) <==> (0 <= x < w && 0 <= y < h)),
    {
        GridRect { x0: 0, y0: 0, x1: w as i32, y1: h as i32 }
    }
}

/// The solver-grid layers: per-cell type codes (`CELL_*`) plus the fan
/// and dye-source layers, whose records `L` this module only stores and
/// clears (their physics lives with the renderer).
pub struct Geometry<L> {
    pub w: usize,
    pub h: usize,
    pub cell: Vec<u32>,
    pub fan: Vec<L>,
    pub dye_src: Vec<L>,
    /// Region that needs re-uploading to the GPU (None = clean).
    pub dirty: Option<GridRect>,
}

impl<L: Copy> Geometry<L> {
    /// A `w` by `h` grid of fluid cells with every layer record set to
    /// `zero`, wholly dirty.
    pub fn new(w: usize, h: usize, zero: L) -> (g: Self)
        requires
            w * h <= usize::MAX,
        ensures
            g.w == w,
            g.h == h,
            g.cell@ == Seq::new((w * h) as nat, |i: int| CELL_FLUID),
            g.fan@ == Seq::new((w * h) as nat, |i: int| zero),
            g.dye_src@ == Seq::new((w * h) as nat, |i: int| zero),
            g.dirty == Some(GridRect::full_of(w, h)),
    {
        let n = w * h;
        let mut cell: Vec<u32> = Vec::with_capacity(n);
        let mut fan: Vec<L> = Vec::with_capacity(n);
        let mut dye_src: Vec<L> = Vec::with_capacity(n);
        let mut i: usize = 0;
        while i < n
            invariant
                n == w * h,
                i <= n,
                cell@ == Seq::new(i as nat, |k: int| CELL_FLUID),
                fan@ == Seq::new(i as nat, |k: int| zero),
                dye_src@ == Seq::new(i as nat, |k: int| zero),
            decreases n - i,
        {
            cell.push(CELL_FLUID);
            fan.push(zero);
            dye_src.push(zero);
            i = i + 1;
        }
        Geometry { w, h, cell, fan, dye_src, dirty: Some(GridRect::full(w, h)) }
    }
}

impl<L> Geometry<L> {
    /// Dirty-marking for callers that write the layers directly: the
    /// part of `r` inside the grid joins the dirty region.
    pub fn touch(&mut self, r: GridRect)
        ensures
            final(self).w == old(self).w,
            final(self).h == old(self).h,
            final(self).cell == old(self).cell,
            final(self).fan == old(self).fan,
            final(self).dye_src == old(self).dye_src,
            ({
                let c = r.clamped_to(old(self).w, old(self).h);
                final(self).dirty == if c.empty() {
                    old(self).dirty
                } else {
                    match old(self).dirty {
                        Some(d) => Some(d.union_of(c)),
                        None => Some(c),
                    }
                }
            }),
    {
        let r = r.clampped(self.w, self.h);
        if r.is_empty() {
            return;
        }
        self.dirty = Some(match self.dirty {
            Some(d) => d.union(r),
            None => r,
        });
    }
}

/// `a + m`, held at `i32::MAX` (`m` is never negative here).
pub open spec fn sat_add_i32(a: i32, m: i32) -> i32 {
    if a + m > i32::MAX { i32::MAX } else { (a + m) as i32 }
}

/// `a + m` held at `i32::MAX`.
fn sat_add(a: i32, m: i32) -> (r: i32)
    requires
        m >= 0,
    ensures
        r == sat_add_i32(a, m),
{
    if a > i32::MAX - m {
        i32::MAX
    } else {
        a + m
    }
}

/// A damage region given in visible-cell coordinates, moved into
/// full-grid coordinates (offset by the margin) and cut to the grid.
pub open spec fn region_clip(r: GridRect, m: i32, w: usize, h: usize) -> GridRect {
    GridRect {
        x0: sat_add_i32(r.x0, m),
        y0: sat_add_i32(r.y0, m),
        x1: sat_add_i32(r.x1, m),
        y1: sat_add_i32(r.y1, m),
    }.clamped_to(w, h)
}

/// Row-major index of cell `(x, y)` on a grid `w` wide.
pub open spec fn grid_index(w: usize, x: int, y: int) -> int {
    y * w + x
}

/// Cell `(x, y)` sits in an inlet band: the two leftmost columns, when
/// the tunnel is on.
pub open spec fn in_inlet_band(tunnel: bool, x: int) -> bool {
    tunnel && x < 2
}

/// Cell `(x, y)` sits in an outlet band: the two rightmost columns.
pub open spec fn in_outlet_band(tunnel: bool, w: usize, x: int) -> bool {
    tunnel && !(x < 2) && x >= w - 2
}

/// A cell's type once a region is cleared and its tunnel bands painted.
pub open spec fn cleared_cell(tunnel: bool, w: usize, x: int) -> u32 {
    if in_inlet_band(tunnel, x) {
        CELL_INLET
    } else if in_outlet_band(tunnel, w, x) {
        CELL_OUTLET
    } else {
        CELL_FLUID
    }
}

/// Distinct cells of a grid have distinct indices, all below `w * h`.
pub proof fn lemma_grid_index(w: usize, h: usize, x: int, y: int, x2: int, y2: int)
    requires
        0 <= x < w,
        0 <= y < h,
        0 <= x2 < w,
        0 <= y2 < h,
    ensures
        0 <= grid_index(w, x, y) < w * h,
        grid_index(w, x, y) == grid_index(w, x2, y2) ==> x == x2 && y == y2,
{
    assert(0 <= y * w + x < w * h) by (nonlinear_arith)
        requires
            0 <= x < w,
            0 <= y < h,
    ;
    if y < y2 {
        assert(y * w + x < y2 * w + x2) by (nonlinear_arith)
            requires
                0 <= x < w,
                0 <= x2,
                y < y2,
        ;
    } else if y2 < y {
        assert(y2 * w + x2 < y * w + x) by (nonlinear_arith)
            requires
                0 <= x2 < w,
                0 <= x,
                y2 < y,
        ;
    }
}

/// Cell `(xx, yy)` comes before the scan position `(x, y)`, row by
/// row, inside `clip`.
pub open spec fn scanned(clip: GridRect, x: int, y: int, xx: int, yy: int) -> bool {
    clip.contains(xx, yy) && (yy < y || (yy == y && xx < x))
}

/// Cell `(xx, yy)` of the layers holds its cleared value when scanned,
/// its old value otherwise.
pub open spec fn cell_prepared<L>(
    cell: Seq<u32>,
    fan: Seq<L>,
    dye: Seq<L>,
    old_cell: Seq<u32>,
    old_fan: Seq<L>,
    old_dye: Seq<L>,
    w: usize,
    done: bool,
    tunnel: bool,
    zero: L,
    inlet_fan: L,
    seed_dye: L,
    xx: int,
    yy: int,
) -> bool {
    let i = grid_index(w, xx, yy);
    &&& cell[i] == if done { cleared_cell(tunnel, w, xx) } else { old_cell[i] }
    &&& fan[i] == if done {
        if in_inlet_band(tunnel, xx) { inlet_fan } else { zero }
    } else {
        old_fan[i]
    }
    &&& dye[i] == if done {
        if in_inlet_band(tunnel, xx) && yy % 12 < 2 { seed_dye } else { zero }
    } else {
        old_dye[i]
    }
}

impl<L: Copy> Geometry<L> {
    /// First steps of re-rasterizing a damage region given in visible
    /// cells: cut it to the grid (offset by `margin`), reset every cell
    /// inside to fluid with `zero` fan and dye records, paint the tunnel
    /// bands when `tunnel` is on (inlets with `inlet_fan`, and
    /// `seed_dye` on every twelfth pair of rows, along the left edge;
    /// outlets along the right), and mark it dirty. Returns the cut
    /// region, in which the objects are then drawn, or None when it
    /// covers no cell (nothing changes).
    pub fn prepare_region(
        &mut self,
        region: GridRect,
        margin: usize,
        tunnel: bool,
        zero: L,
        inlet_fan: L,
        seed_dye: L,
    ) -> (r: Option<GridRect>)
        requires
            old(self).cell@.len() == old(self).w * old(self).h,
            old(self).fan@.len() == old(self).w * old(self).h,
            old(self).dye_src@.len() == old(self).w * old(self).h,
            old(self).w <= i32::MAX,
            old(self).h <= i32::MAX,
            old(self).w * old(self).h <= usize::MAX,
            margin <= i32::MAX,
        ensures
            ({
                let w = old(self).w;
                let h = old(self).h;
                let clip = region_clip(region, margin as i32, w, h);
                &&& final(self).w == w
                &&& final(self).h == h
                &&& r == (if clip.empty() { None } else { Some(clip) })
                &&& clip.empty() ==> *final(self) == *old(self)
                &&& !clip.empty() ==> {
                    &&& final(self).cell@.len() == w * h
                    &&& final(self).fan@.len() == w * h
                    &&& final(self).dye_src@.len() == w * h
                    &&& final(self).dirty == Some(match old(self).dirty {
                        Some(d) => d.union_of(clip),
                        None => clip,
                    })
                    &&& forall|x: int, y: int| 0 <= x < w && 0 <= y < h ==> #[trigger] cell_prepared(
                        final(self).cell@,
                        final(self).fan@,
                        final(self).dye_src@,
                        old(self).cell@,
                        old(self).fan@,
                        old(self).dye_src@,
                        w,
                        clip.contains(x, y),
                        tunnel,
                        zero,
                        inlet_fan,
                        seed_dye,
                        x,
                        y,
                    )
                }
            }),
    {
        let m = margin as i32;
        let clip = GridRect {
            x0: sat_add(region.x0, m),
            y0: sat_add(region.y0, m),
            x1: sat_add(region.x1, m),
            y1: sat_add(region.y1, m),
        }.clampped(self.w, self.h);
        if clip.is_empty() {
            return None;
        }
        let w = self.w;
        let h = self.h;
        let ghost oc = self.cell@;
        let ghost of = self.fan@;
        let ghost od = self.dye_src@;
        let ghost dirty0 = self.dirty;
        let gw = w as i32;
        let mut y: i32 = clip.y0;
        while y < clip.y1
            invariant
                w == self.w,
                h == self.h,
                self.dirty == dirty0,
                gw == w as i32,
                w <= i32::MAX,
                h <= i32::MAX,
                w * h <= usize::MAX,
                0 <= clip.x0 < clip.x1 <= w,
                0 <= clip.y0 <= y <= clip.y1 <= h,
                self.cell@.len() == w * h,
                self.fan@.len() == w * h,
                self.dye_src@.len() == w * h,
                forall|xx: int, yy: int| 0 <= xx < w && 0 <= yy < h ==> #[trigger] cell_prepared(
                    self.cell@, self.fan@, self.dye_src@, oc, of, od, w,
                    scanned(clip, clip.x0 as int, y as int, xx, yy), tunnel, zero, inlet_fan, seed_dye, xx, yy),
            decreases clip.y1 - y,
        {
            let seed = (y as usize) % 12 < 2;
            let mut x: i32 = clip.x0;
            while x < clip.x1
                invariant
                    w == self.w,
                    h == self.h,
                    self.dirty == dirty0,
                    gw == w as i32,
                    w <= i32::MAX,
                    h <= i32::MAX,
                    w * h <= usize::MAX,
                    0 <= clip.x0 <= x <= clip.x1 <= w,
                    0 <= clip.y0 <= y < clip.y1 <= h,
                    seed == ((y as int) % 12 < 2),
                    self.cell@.len() == w * h,
                    self.fan@.len() == w * h,
                    self.dye_src@.len() == w * h,
                    forall|xx: int, yy: int| 0 <= xx < w && 0 <= yy < h ==> #[trigger] cell_prepared(
                        self.cell@, self.fan@, self.dye_src@, oc, of, od, w,
                        scanned(clip, x as int, y as int, xx, yy), tunnel, zero, inlet_fan, seed_dye, xx, yy),
                decreases clip.x1 - x,
            {
                proof {
                    lemma_grid_index(w, h, x as int, y as int, x as int, y as int);
                    assert((y as usize) as int * w + (x as usize) as int == grid_index(w, x as int, y as int));
                }
                let i = (y as usize) * w + x as usize;
                let (c, f, d) = if tunnel && x < 2 {
                    (CELL_INLET, inlet_fan, if seed { seed_dye } else { zero })
                } else if tunnel && x >= gw - 2 {
                    (CELL_OUTLET, zero, zero)
                } else {
                    (CELL_FLUID, zero, zero)
                };
                let ghost c0 = self.cell@;
                let ghost f0 = self.fan@;
                let ghost d0 = self.dye_src@;
                self.cell.set(i, c);
                self.fan.set(i, f);
                self.dye_src.set(i, d);
                proof {
                    assert forall|xx: int, yy: int| 0 <= xx < w && 0 <= yy < h implies #[trigger] cell_prepared(
                        self.cell@, self.fan@, self.dye_src@, oc, of, od, w,
                        scanned(clip, x + 1, y as int, xx, yy), tunnel, zero, inlet_fan, seed_dye, xx, yy) by {
                        lemma_grid_index(w, h, xx, yy, x as int, y as int);
                        assert(cell_prepared(c0, f0, d0, oc, of, od, w,
                            scanned(clip, x as int, y as int, xx, yy), tunnel, zero, inlet_fan, seed_dye, xx, yy));
                    }
                }
                x = x + 1;
            }
            proof {
                assert forall|xx: int, yy: int| 0 <= xx < w && 0 <= yy < h implies #[trigger] cell_prepared(
                    self.cell@, self.fan@, self.dye_src@, oc, of, od, w,
                    scanned(clip, clip.x0 as int, y + 1, xx, yy), tunnel, zero, inlet_fan, seed_dye, xx, yy) by {
                    assert(cell_prepared(self.cell@, self.fan@, self.dye_src@, oc, of, od, w,
                        scanned(clip, x as int, y as int, xx, yy), tunnel, zero, inlet_fan, seed_dye, xx, yy));
                    assert(scanned(clip, x as int, y as int, xx, yy) == scanned(clip, clip.x0 as int, y + 1, xx, yy));
                }
            }
            y = y + 1;
        }
        proof {
            assert forall|xx: int, yy: int| 0 <= xx < w && 0 <= yy < h implies #[trigger] cell_prepared(
                self.cell@, self.fan@, self.dye_src@, oc, of, od, w,
                clip.contains(xx, yy), tunnel, zero, inlet_fan, seed_dye, xx, yy) by {
                assert(cell_prepared(self.cell@, self.fan@, self.dye_src@, oc, of, od, w,
                    scanned(clip, clip.x0 as int, y as int, xx, yy), tunnel, zero, inlet_fan, seed_dye, xx, yy));
                assert(scanned(clip, clip.x0 as int, y as int, xx, yy) == clip.contains(xx, yy));
            }
        }
        proof {
            assert(clip == region_clip(region, margin as i32, w, h));
            assert(clip.clamped_to(w, h) == clip);
            assert(!clip.empty());
        }
        self.touch(clip);
        Some(clip)
    }
}

/// The row spans `[a, b)` of cell indices covering rectangle `r` on a
/// grid `w` wide, one per row from top to bottom.
pub open spec fn row_spans(r: GridRect, w: usize) -> Seq<(int, int)> {
    Seq::new(
        (if r.empty() { 0 } else { r.y1 - r.y0 }) as nat,
        |k: int| (grid_index(w, r.x0 as int, r.y0 + k), grid_index(w, r.x1 as int, r.y0 + k)),
    )
}

impl<L> Geometry<L> {
    /// Hand out the dirty region for upload and mark the grid clean: the
    /// region cut to the grid, as one span of cell indices `[a, b)` per
    /// row (none when nothing inside the grid is dirty).
    pub fn take_dirty_spans(&mut self) -> (r: Vec<(usize, usize)>)
        requires
            old(self).w * old(self).h <= usize::MAX,
            old(self).w <= i32::MAX,
            old(self).h <= i32::MAX,
        ensures
            final(self).dirty is None,
            final(self).w == old(self).w,
            final(self).h == old(self).h,
            final(self).cell == old(self).cell,
            final(self).fan == old(self).fan,
            final(self).dye_src == old(self).dye_src,
            ({
                let spans = match old(self).dirty {
                    Some(d) => row_spans(d.clamped_to(old(self).w, old(self).h), old(self).w),
                    None => Seq::empty(),
                };
                &&& r@.len() == spans.len()
                &&& forall|k: int| 0 <= k < spans.len() ==> #[trigger] r@[k].0 as int == spans[k].0
                    && r@[k].1 as int == spans[k].1
            }),
    {
        let mut out: Vec<(usize, usize)> = Vec::new();
        let Some(d) = self.dirty else {
            return out;
        };
        self.dirty = None;
        let w = self.w;
        let h = self.h;
        let rect = d.clampped(w, h);
        if rect.is_empty() {
            proof {
                assert(row_spans(rect, w).len() == 0);
            }
            return out;
        }
        let ghost spans = row_spans(rect, w);
        let mut y: i32 = rect.y0;
        while y < rect.y1
            invariant
                w <= i32::MAX,
                h <= i32::MAX,
                w * h <= usize::MAX,
                0 <= rect.x0 < rect.x1 <= w,
                0 <= rect.y0 <= y <= rect.y1 <= h,
                spans == row_spans(rect, w),
                out@.len() == y - rect.y0,
                forall|k: int| 0 <= k < out@.len() ==> #[trigger] out@[k].0 as int == spans[k].0
                    && out@[k].1 as int == spans[k].1,
            decreases rect.y1 - y,
        {
            proof {
                lemma_grid_index(w, h, rect.x0 as int, y as int, rect.x0 as int, y as int);
                lemma_grid_index(w, h, rect.x1 - 1, y as int, rect.x1 - 1, y as int);
                assert((y as usize) as int * w + (rect.x0 as usize) as int == grid_index(w, rect.x0 as int, y as int));
                assert((y as usize) as int * w + (rect.x1 as usize) as int == grid_index(w, rect.x1 - 1, y as int) + 1);
            }
            let row = (y as usize) * w;
            out.push((row + rect.x0 as usize, row + rect.x1 as usize));
            y = y + 1;
        }
        out
    }
}

/// A grid of `w` by `h` visible cells with `m` margin cells on each side
/// fits a device buffer cap when its nine f32 distributions per cell do.
pub open spec fn margin_fits(vis_w: usize, vis_h: usize, m: int, cap: u64) -> bool {
    (vis_w + 2 * m) * (vis_h + 2 * m) * 36 <= cap
}

/// The margin that stays: `m` when it fits (or is already 0), else the
/// result of trying 32 cells less (never below 0).
pub open spec fn shrunk_margin(vis_w: usize, vis_h: usize, m: nat, cap: u64) -> nat
    decreases m,
{
    if m == 0 || margin_fits(vis_w, vis_h, m as int, cap) {
        m
    } else if m < 32 {
        shrunk_margin(vis_w, vis_h, 0, cap)
    } else {
        shrunk_margin(vis_w, vis_h, (m - 32) as nat, cap)
    }
}

/// The margin kept is the largest of `m`, `m - 32`, `m - 64`, ... that
/// fits: every larger step was tried and did not fit.
pub proof fn lemma_shrunk_margin_largest(vis_w: usize, vis_h: usize, m: nat, cap: u64)
    ensures
        shrunk_margin(vis_w, vis_h, m, cap) <= m,
        forall|k: nat| m >= 32 * k && m - 32 * k > shrunk_margin(vis_w, vis_h, m, cap)
            ==> !margin_fits(vis_w, vis_h, #[trigger] (m - 32 * k), cap),
    decreases m,
{
    if m == 0 || margin_fits(vis_w, vis_h, m as int, cap) {
    } else if m < 32 {
        assert(shrunk_margin(vis_w, vis_h, 0, cap) == 0);
        assert forall|k: nat| m >= 32 * k && m - 32 * k > shrunk_margin(vis_w, vis_h, m, cap)
            implies !margin_fits(vis_w, vis_h, #[trigger] (m - 32 * k), cap) by {
            assert(k == 0);
        }
    } else {
        let m2 = (m - 32) as nat;
        lemma_shrunk_margin_largest(vis_w, vis_h, m2, cap);
        assert forall|k: nat| m >= 32 * k && m - 32 * k > shrunk_margin(vis_w, vis_h, m, cap)
            implies !margin_fits(vis_w, vis_h, #[trigger] (m - 32 * k), cap) by {
            if k > 0 {
                let k2 = (k - 1) as nat;
                assert(m - 32 * k == m2 - 32 * k2);
                assert(m2 >= 32 * k2);
                assert(!margin_fits(vis_w, vis_h, m2 - 32 * k2, cap));
            }
        }
    }
}

/// Shrink a requested margin in steps of 32 cells until the grid's
/// largest buffer fits the device's cap (or the margin reaches 0).
pub fn fit_margin(vis_w: usize, vis_h: usize, margin: usize, cap: u64) -> (r: usize)
    requires
        vis_w + 2 * margin <= usize::MAX,
        vis_h + 2 * margin <= usize::MAX,
        (vis_w + 2 * margin) * (vis_h + 2 * margin) * 36 <= u64::MAX,
    ensures
        r == shrunk_margin(vis_w, vis_h, margin as nat, cap),
        r <= margin,
        r == 0 || margin_fits(vis_w, vis_h, r as int, cap),
{
    let mut m = margin;
    while m > 0
        invariant
            m <= margin,
            vis_w + 2 * margin <= usize::MAX,
            vis_h + 2 * margin <= usize::MAX,
            (vis_w + 2 * margin) * (vis_h + 2 * margin) * 36 <= u64::MAX,
            shrunk_margin(vis_w, vis_h, m as nat, cap) == shrunk_margin(vis_w, vis_h, margin as nat, cap),
        ensures
            m <= margin,
            shrunk_margin(vis_w, vis_h, m as nat, cap) == shrunk_margin(vis_w, vis_h, margin as nat, cap),
            m == 0 || margin_fits(vis_w, vis_h, m as int, cap),
        decreases m,
    {
        let w = (vis_w + 2 * m) as u64;
        let h = (vis_h + 2 * m) as u64;
        proof {
            assert(w * h <= (vis_w + 2 * margin) * (vis_h + 2 * margin)) by (nonlinear_arith)
                requires
                    w <= vis_w + 2 * margin,
                    h <= vis_h + 2 * margin,
            ;
        }
        if w * h * 9 * 4 <= cap {
            break;
        }
        m = if m >= 32 { m - 32 } else { 0 };
    }
    m
}

} // verus!
