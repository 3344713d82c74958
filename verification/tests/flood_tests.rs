use flowpaint::flood::{flood_region, trace_mask, Flood};
use flowpaint::geometry::{CELL_FLUID, CELL_WALL};

/// Shoelace area of a closed corner loop.
fn signed_area(pts: &[(i32, i32)]) -> f64 {
    let n = pts.len();
    let mut a = 0.0f64;
    for i in 0..n {
        let p = pts[i];
        let q = pts[(i + 1) % n];
        a += p.0 as f64 * q.1 as f64 - q.0 as f64 * p.1 as f64;
    }
    a * 0.5
}

#[test]
fn flood_open_region_refuses() {
    let (w, h) = (8, 8);
    let cell = vec![CELL_FLUID; w * h];
    assert!(matches!(flood_region(&cell, w, h, (4, 4)), Flood::OpenToEdge));
}

#[test]
fn flood_on_wall_is_not_fluid() {
    let (w, h) = (4, 4);
    let mut cell = vec![CELL_FLUID; w * h];
    cell[w + 1] = CELL_WALL;
    assert!(matches!(flood_region(&cell, w, h, (1, 1)), Flood::NotFluid));
}

#[test]
fn flood_enclosed_region_and_trace() {
    // Wall box ring at x,y ∈ {2,7}: the enclosed interior is the 4×4
    // block 3..=6.
    let (w, h) = (10, 10);
    let mut cell = vec![CELL_FLUID; w * h];
    for i in 2..=7usize {
        for &(x, y) in &[(i, 2), (i, 7), (2, i), (7, i)] {
            cell[y * w + x] = CELL_WALL;
        }
    }
    match flood_region(&cell, w, h, (4, 4)) {
        Flood::Region(mask) => {
            assert_eq!(mask.iter().filter(|&&m| m).count(), 16);
            let contour = trace_mask(&mask, w, h);
            assert!(contour.len() >= 4);
            let a = signed_area(&contour).abs();
            assert!((a - 16.0).abs() < 0.5, "traced area {a}");
            // Every corner lies on the [3,7]×[3,7] boundary.
            for p in &contour {
                assert!(p.0 >= 3 && p.0 <= 7 && p.1 >= 3 && p.1 <= 7);
            }
        }
        _ => panic!("expected enclosed region"),
    }
}

#[test]
fn trace_l_shape_has_six_corners_after_weld() {
    // L-shaped mask: cells (0,0),(0,1),(1,1).
    let (w, h) = (3, 3);
    let mut mask = vec![false; w * h];
    mask[0] = true; // (0,0)
    mask[w] = true; // (0,1)
    mask[w + 1] = true; // (1,1)
    let contour = trace_mask(&mask, w, h);
    // The raw trace visits every lattice corner on the boundary; count
    // the DISTINCT direction changes instead.
    let mut corners = 0;
    let n = contour.len();
    for i in 0..n {
        let a = contour[i];
        let b = contour[(i + 1) % n];
        let c = contour[(i + 2) % n];
        let d1 = (b.0 - a.0, b.1 - a.1);
        let d2 = (c.0 - b.0, c.1 - b.1);
        if d1.0 * d2.1 - d1.1 * d2.0 != 0 {
            corners += 1;
        }
    }
    assert_eq!(corners, 6);
    assert!((signed_area(&contour).abs() - 3.0).abs() < 1e-3);
}

#[test]
fn trace_ignores_diagonal_pinch() {
    // Two cells touching only diagonally: the tracer stays on the start
    // cell's component.
    let (w, h) = (2, 2);
    let mut mask = vec![false; w * h];
    mask[0] = true; // (0,0)
    mask[3] = true; // (1,1)
    let contour = trace_mask(&mask, w, h);
    assert!((signed_area(&contour).abs() - 1.0).abs() < 1e-3);
}

#[test]
fn trace_of_an_empty_mask_is_empty() {
    let mask = vec![false; 9];
    assert!(trace_mask(&mask, 3, 3).is_empty());
}

#[test]
fn trace_of_one_cell_is_its_four_corners() {
    let mut mask = vec![false; 9];
    mask[4] = true; // (1,1)
    assert_eq!(trace_mask(&mask, 3, 3), vec![(1, 1), (2, 1), (2, 2), (1, 2)]);
}

#[test]
fn flood_fills_exactly_the_enclosed_cell() {
    // A single fluid cell walled in at (1,1) on a 3×3 grid.
    let mut cell = vec![CELL_WALL; 9];
    cell[4] = CELL_FLUID;
    match flood_region(&cell, 3, 3, (1, 1)) {
        Flood::Region(mask) => {
            let mut expect = vec![false; 9];
            expect[4] = true;
            assert_eq!(mask, expect);
        }
        _ => panic!("expected enclosed region"),
    }
}

#[test]
fn flood_from_a_border_cell_is_open() {
    let cell = vec![CELL_FLUID; 9];
    assert!(matches!(flood_region(&cell, 3, 3, (0, 1)), Flood::OpenToEdge));
}

#[test]
fn trace_steps_along_the_boundary_and_closes() {
    // A plus-shaped region on a 5 by 5 grid.
    let (w, h) = (5usize, 5usize);
    let mut mask = vec![false; w * h];
    for (x, y) in [(2, 1), (1, 2), (2, 2), (3, 2), (2, 3)] {
        mask[y * w + x] = true;
    }
    let at = |x: i32, y: i32| x >= 0 && y >= 0 && (x as usize) < w && (y as usize) < h && mask[y as usize * w + x as usize];
    let c = trace_mask(&mask, w, h);
    assert_eq!(c.len(), 12);
    for k in 0..c.len() {
        let a = c[k];
        let b = c[(k + 1) % c.len()];
        let d = (b.0 - a.0, b.1 - a.1);
        // A unit step with the region on its right.
        let (inside, outside) = match d {
            (1, 0) => (at(a.0, a.1), at(a.0, a.1 - 1)),
            (-1, 0) => (at(a.0 - 1, a.1 - 1), at(a.0 - 1, a.1)),
            (0, 1) => (at(a.0 - 1, a.1), at(a.0, a.1)),
            (0, -1) => (at(a.0, a.1 - 1), at(a.0 - 1, a.1 - 1)),
            _ => panic!("not a unit step: {d:?}"),
        };
        assert!(inside && !outside);
    }
}
