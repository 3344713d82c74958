use flowpaint::geometry::{fit_margin, Geometry, GridRect, CELL_FLUID, CELL_INLET, CELL_OUTLET, CELL_WALL};

fn r(x0: i32, y0: i32, x1: i32, y1: i32) -> GridRect {
    GridRect { x0, y0, x1, y1 }
}

#[test]
fn rect_union_ignores_empty_operands() {
    let a = r(0, 0, 10, 10);
    let b = r(5, -3, 20, 4);
    assert_eq!(a.union(b), r(0, -3, 20, 10));
    let e = r(50, 50, 40, 60);
    assert!(e.is_empty());
    assert_eq!(a.union(e), a);
    assert_eq!(e.union(a), a);
}

#[test]
fn rect_intersect_and_clamp() {
    let a = r(0, 0, 10, 10);
    assert_eq!(a.intersect(r(5, 5, 20, 20)), r(5, 5, 10, 10));
    assert!(a.intersect(r(10, 0, 20, 10)).is_empty());
    assert_eq!(r(-5, -5, 50, 3).clampped(8, 6), r(0, 0, 8, 3));
    assert_eq!(GridRect::full(8, 6), r(0, 0, 8, 6));
    assert!(!GridRect::full(8, 6).is_empty());
    assert!(GridRect::full(0, 6).is_empty());
}

#[test]
fn new_geometry_is_fluid_and_wholly_dirty() {
    let g: Geometry<[f32; 4]> = Geometry::new(3, 2, [0.0; 4]);
    assert_eq!(g.cell, vec![CELL_FLUID; 6]);
    assert_eq!(g.fan.len(), 6);
    assert_eq!(g.dirty, Some(GridRect::full(3, 2)));
}

#[test]
fn touch_grows_the_dirty_region_inside_the_grid() {
    let mut g: Geometry<u8> = Geometry::new(10, 10, 0);
    g.dirty = None;
    g.touch(r(-4, 2, 3, 5));
    assert_eq!(g.dirty, Some(r(0, 2, 3, 5)));
    g.touch(r(8, 8, 20, 20));
    assert_eq!(g.dirty, Some(r(0, 2, 10, 10)));
    g.touch(r(30, 30, 40, 40)); // off the grid: no change
    assert_eq!(g.dirty, Some(r(0, 2, 10, 10)));
}

#[test]
fn prepare_region_clears_and_paints_tunnel_bands() {
    let w = 8;
    let h = 14;
    let mut g: Geometry<u8> = Geometry::new(w, h, 0);
    for c in g.cell.iter_mut() {
        *c = CELL_WALL;
    }
    for f in g.fan.iter_mut() {
        *f = 9;
    }
    g.dirty = None;
    // Visible region (−1..4, 0..3) with a margin of 1: full-grid 0..5 × 1..4.
    let clip = g.prepare_region(r(-1, 0, 4, 3), 1, true, 0, 7, 5);
    assert_eq!(clip, Some(r(0, 1, 5, 4)));
    assert_eq!(g.dirty, Some(r(0, 1, 5, 4)));
    // Inlet columns with fan and dye seed on rows 0..2 of every 12.
    assert_eq!(g.cell[1 * w + 0], CELL_INLET);
    assert_eq!(g.fan[1 * w + 1], 7);
    assert_eq!(g.dye_src[1 * w + 1], 5);
    assert_eq!(g.dye_src[2 * w + 1], 0);
    // Interior cleared.
    assert_eq!(g.cell[2 * w + 3], CELL_FLUID);
    assert_eq!(g.fan[2 * w + 3], 0);
    // Outside the clip untouched.
    assert_eq!(g.cell[0 * w + 0], CELL_WALL);
    assert_eq!(g.cell[1 * w + 5], CELL_WALL);
    assert_eq!(g.fan[5 * w + 2], 9);
}

#[test]
fn prepare_region_paints_outlets_on_the_right_edge() {
    let mut g: Geometry<u8> = Geometry::new(6, 4, 0);
    let clip = g.prepare_region(r(0, 0, 6, 4), 0, true, 0, 1, 2);
    assert_eq!(clip, Some(r(0, 0, 6, 4)));
    for y in 0..4 {
        assert_eq!(g.cell[y * 6 + 4], CELL_OUTLET);
        assert_eq!(g.cell[y * 6 + 5], CELL_OUTLET);
        assert_eq!(g.cell[y * 6 + 2], CELL_FLUID);
        assert_eq!(g.cell[y * 6 + 0], CELL_INLET);
    }
    // Without the tunnel everything inside is plain fluid.
    let mut g2: Geometry<u8> = Geometry::new(6, 4, 0);
    g2.prepare_region(r(0, 0, 6, 4), 0, false, 0, 1, 2);
    assert!(g2.cell.iter().all(|&c| c == CELL_FLUID));
    assert!(g2.fan.iter().all(|&f| f == 0));
}

#[test]
fn prepare_region_outside_the_grid_changes_nothing() {
    let mut g: Geometry<u8> = Geometry::new(4, 4, 0);
    g.cell[5] = CELL_WALL;
    g.dirty = None;
    assert_eq!(g.prepare_region(r(10, 10, 12, 12), 0, true, 0, 1, 2), None);
    assert_eq!(g.cell[5], CELL_WALL);
    assert_eq!(g.dirty, None);
}

#[test]
fn dirty_spans_cover_the_clamped_region_row_by_row() {
    let mut g: Geometry<u8> = Geometry::new(10, 6, 0);
    g.dirty = Some(r(-2, 1, 3, 3));
    assert_eq!(g.take_dirty_spans(), vec![(10, 13), (20, 23)]);
    assert_eq!(g.dirty, None);
    assert!(g.take_dirty_spans().is_empty());
    g.dirty = Some(r(20, 20, 30, 30));
    assert!(g.take_dirty_spans().is_empty());
    assert_eq!(g.dirty, None);
}

#[test]
fn margins_shrink_in_steps_of_32_until_they_fit() {
    // 100 x 50 visible with a 64 margin: 228 x 178 cells of 36 bytes.
    let need = |m: u64| (100 + 2 * m) * (50 + 2 * m) * 36;
    assert_eq!(fit_margin(100, 50, 64, need(64)), 64);
    assert_eq!(fit_margin(100, 50, 64, need(64) - 1), 32);
    assert_eq!(fit_margin(100, 50, 64, need(32) - 1), 0);
    assert_eq!(fit_margin(100, 50, 40, need(8)), 8);
    assert_eq!(fit_margin(100, 50, 40, 0), 0);
}
