//! The paint bucket: 4-connected flood fill over the solver grid's cell
//! types, and the walk that traces a filled region's outer contour.

use vstd::prelude::*;
use vstd::set_lib::{set_int_range, lemma_int_range, lemma_len_subset};
use crate::geometry::CELL_FLUID;

verus! {

/// Cell `(x, y)` lies on a `w` by `h` grid.
pub open spec fn in_grid(w: usize, h: usize, x: int, y: int) -> bool {
    0 <= x < w && 0 <= y < h
}

/// Row-major index of cell `(x, y)`.
pub open spec fn cell_index(w: usize, x: int, y: int) -> int {
    y * w + x
}

/// Cell `(x, y)` is on the grid and is fluid.
pub open spec fn is_fluid(cell: Seq<u32>, w: usize, h: usize, x: int, y: int) -> bool {
    in_grid(w, h, x, y) && cell[cell_index(w, x, y)] == CELL_FLUID
}

/// Two cells share an edge.
pub open spec fn adjacent(a: (int, int), b: (int, int)) -> bool {
    (a.0 == b.0 && (a.1 == b.1 + 1 || b.1 == a.1 + 1)) || (a.1 == b.1 && (a.0 == b.0 + 1
        || b.0 == a.0 + 1))
}

/// `p` walks from `from` to `to` through edge-adjacent fluid cells.
pub open spec fn fluid_path(
    cell: Seq<u32>,
    w: usize,
    h: usize,
    p: Seq<(int, int)>,
    from: (int, int),
    to: (int, int),
) -> bool {
    &&& p.len() >= 1
    &&& p[0] == from
    &&& p.last() == to
    &&& forall|k: int| 0 <= k < p.len() ==> #[trigger] is_fluid(cell, w, h, p[k].0, p[k].1)
    &&& forall|k: int| 0 <= k < p.len() - 1 ==> #[trigger] adjacent(p[k], p[k + 1])
}

/// `to` lies in the 4-connected fluid region of `from`.
pub open spec fn connected(cell: Seq<u32>, w: usize, h: usize, from: (int, int), to: (int, int)) -> bool {
    exists|p: Seq<(int, int)>| fluid_path(cell, w, h, p, from, to)
}

/// Cell `(x, y)` touches the edge of a `w` by `h` grid.
pub open spec fn on_border(w: usize, h: usize, x: int, y: int) -> bool {
    x == 0 || y == 0 || x == w - 1 || y == h - 1
}

/// The outcome of a paint-bucket click.
pub enum Flood {
    /// The clicked cell is not fluid.
    NotFluid,
    /// The region reaches the domain edge; filling would flood the domain.
    OpenToEdge,
    /// The enclosed region as a mask over the w×h grid.
    Region(Vec<bool>),
}

proof fn lemma_index_bounds(w: usize, h: usize, x: int, y: int)
    requires
        in_grid(w, h, x, y),
    ensures
        0 <= cell_index(w, x, y) < w * h,
        cell_index(w, x, y) % (w as int) == x,
        cell_index(w, x, y) / (w as int) == y,
{
    assert(0 <= y * w + x < w * h) by (nonlinear_arith)
        requires 0 <= x < w, 0 <= y < h;
    assert((y * w + x) % (w as int) == x && (y * w + x) / (w as int) == y) by (nonlinear_arith)
        requires 0 <= x < w, 0 <= y;
}

proof fn lemma_index_injective(w: usize, h: usize, x1: int, y1: int, x2: int, y2: int)
    requires
        in_grid(w, h, x1, y1),
        in_grid(w, h, x2, y2),
        cell_index(w, x1, y1) == cell_index(w, x2, y2),
    ensures
        x1 == x2 && y1 == y2,
{
    lemma_index_bounds(w, h, x1, y1);
    lemma_index_bounds(w, h, x2, y2);
}

/// Every fluid neighbour of a marked cell is marked.
spec fn closed_at(cell: Seq<u32>, w: usize, h: usize, mask: Seq<bool>, x: int, y: int) -> bool {
    &&& is_fluid(cell, w, h, x - 1, y) ==> mask[cell_index(w, x - 1, y)]
    &&& is_fluid(cell, w, h, x + 1, y) ==> mask[cell_index(w, x + 1, y)]
    &&& is_fluid(cell, w, h, x, y - 1) ==> mask[cell_index(w, x, y - 1)]
    &&& is_fluid(cell, w, h, x, y + 1) ==> mask[cell_index(w, x, y + 1)]
}

/// A set of cells that holds `from` and is closed under fluid adjacency
/// holds every cell connected to `from`.
proof fn lemma_closed_holds_paths(
    cell: Seq<u32>,
    w: usize,
    h: usize,
    mask: Seq<bool>,
    from: (int, int),
    p: Seq<(int, int)>,
    to: (int, int),
)
    requires
        mask.len() == w * h,
        fluid_path(cell, w, h, p, from, to),
        mask[cell_index(w, from.0, from.1)],
        forall|x: int, y: int|
            in_grid(w, h, x, y) && #[trigger] mask[cell_index(w, x, y)] ==> closed_at(
                cell,
                w,
                h,
                mask,
                x,
                y,
            ),
    ensures
        mask[cell_index(w, to.0, to.1)],
    decreases p.len(),
{
    if p.len() > 1 {
        let q = p.drop_last();
        let prev = q.last();
        assert(is_fluid(cell, w, h, q[q.len() - 1].0, q[q.len() - 1].1));
        assert forall|k: int| 0 <= k < q.len() implies #[trigger] is_fluid(cell, w, h, q[k].0, q[k].1) by {
            assert(is_fluid(cell, w, h, p[k].0, p[k].1));
        }
        assert forall|k: int| 0 <= k < q.len() - 1 implies #[trigger] adjacent(q[k], q[k + 1]) by {
            assert(adjacent(p[k], p[k + 1]));
        }
        lemma_closed_holds_paths(cell, w, h, mask, from, q, prev);
        let k = p.len() - 2;
        assert(adjacent(p[k], p[k + 1]));
        assert(is_fluid(cell, w, h, p[p.len() - 1].0, p[p.len() - 1].1));
        assert(closed_at(cell, w, h, mask, prev.0, prev.1));
    }
}

/// `b` marks at least what `a` marks.
spec fn grows(a: Seq<bool>, b: Seq<bool>) -> bool {
    a.len() == b.len() && forall|i: int| 0 <= i < a.len() && #[trigger] a[i] ==> b[i]
}

/// Marking more cells keeps a cell closed.
proof fn lemma_closed_mono(cell: Seq<u32>, w: usize, h: usize, a: Seq<bool>, b: Seq<bool>, x: int, y: int)
    requires
        a.len() == w * h,
        grows(a, b),
        closed_at(cell, w, h, a, x, y),
    ensures
        closed_at(cell, w, h, b, x, y),
{
    if is_fluid(cell, w, h, x - 1, y) { lemma_index_bounds(w, h, x - 1, y); }
    if is_fluid(cell, w, h, x + 1, y) { lemma_index_bounds(w, h, x + 1, y); }
    if is_fluid(cell, w, h, x, y - 1) { lemma_index_bounds(w, h, x, y - 1); }
    if is_fluid(cell, w, h, x, y + 1) { lemma_index_bounds(w, h, x, y + 1); }
}

/// Marks cell `(nx, ny)` and pushes it when it is fluid and unmarked.
fn visit(
    cell: &[u32],
    w: usize,
    h: usize,
    mask: &mut Vec<bool>,
    stack: &mut Vec<(usize, usize)>,
    nx: usize,
    ny: usize,
) -> (pushed: bool)
    requires
        nx < w,
        ny < h,
        w * h <= cell@.len(),
        w * h <= usize::MAX,
        old(mask)@.len() == w * h,
    ensures
        grows(old(mask)@, final(mask)@),
        0 <= cell_index(w, nx as int, ny as int) < w * h,
        pushed == (old(mask)@[cell_index(w, nx as int, ny as int)] == false && is_fluid(
            cell@,
            w,
            h,
            nx as int,
            ny as int,
        )),
        pushed ==> final(mask)@ == old(mask)@.update(cell_index(w, nx as int, ny as int), true),
        pushed ==> final(stack)@ == old(stack)@.push((nx, ny)),
        !pushed ==> final(mask)@ == old(mask)@,
        !pushed ==> final(stack)@ == old(stack)@,
{
    proof {
        lemma_index_bounds(w, h, nx as int, ny as int);
    }
    let i = ny * w + nx;
    if !mask[i] && cell[i] == CELL_FLUID {
        mask.set(i, true);
        stack.push((nx, ny));
        true
    } else {
        false
    }
}

/// The loop invariant of `flood_region`: every marked cell is fluid and
/// has a recorded path from the start; the stack holds distinct marked
/// cells; a marked cell off the stack (other than the one being
/// expanded, `ex`) has all its fluid neighbours marked, and if it lies
/// on the border the region is known to be open.
#[verifier::opaque]
spec fn flood_inv(
    cell: Seq<u32>,
    w: usize,
    h: usize,
    s: (int, int),
    mask: Seq<bool>,
    stack: Seq<(usize, usize)>,
    marked: Set<int>,
    paths: Map<int, Seq<(int, int)>>,
    open: bool,
    ex: (int, int),
) -> bool {
    &&& mask.len() == w * h
    &&& in_grid(w, h, s.0, s.1)
    &&& mask[cell_index(w, s.0, s.1)]
    &&& marked.subset_of(set_int_range(0, (w * h) as int))
    &&& marked.finite()
    &&& forall|i: int| 0 <= i < w * h ==> (#[trigger] mask[i] <==> marked.contains(i))
    &&& forall|j: int|
        #![trigger stack[j]]
        0 <= j < stack.len() ==> stack[j].0 < w && stack[j].1 < h && mask[cell_index(
            w,
            stack[j].0 as int,
            stack[j].1 as int,
        )]
    &&& forall|i: int, j: int| 0 <= i < j < stack.len() ==> #[trigger] stack[i] != #[trigger] stack[j]
    &&& forall|x: int, y: int|
        in_grid(w, h, x, y) && #[trigger] mask[cell_index(w, x, y)] ==> is_fluid(cell, w, h, x, y)
            && paths.contains_key(cell_index(w, x, y)) && fluid_path(
            cell,
            w,
            h,
            paths[cell_index(w, x, y)],
            s,
            (x, y),
        )
    &&& forall|x: int, y: int|
        in_grid(w, h, x, y) && #[trigger] mask[cell_index(w, x, y)] && !stack.contains(
            (x as usize, y as usize),
        ) && (x, y) != ex ==> closed_at(cell, w, h, mask, x, y)
    &&& forall|x: int, y: int|
        in_grid(w, h, x, y) && #[trigger] mask[cell_index(w, x, y)] && !stack.contains(
            (x as usize, y as usize),
        ) && on_border(w, h, x, y) ==> open
    &&& open ==> exists|x: int, y: int|
        in_grid(w, h, x, y) && on_border(w, h, x, y) && #[trigger] connected(cell, w, h, s, (x, y))
}

/// Marking and pushing a fluid neighbour of the expanded cell keeps the
/// invariant.
proof fn lemma_after_push(
    cell: Seq<u32>,
    w: usize,
    h: usize,
    s: (int, int),
    mask: Seq<bool>,
    stack: Seq<(usize, usize)>,
    marked: Set<int>,
    paths: Map<int, Seq<(int, int)>>,
    open: bool,
    ex: (int, int),
    nx: int,
    ny: int,
)
    requires
        flood_inv(cell, w, h, s, mask, stack, marked, paths, open, ex),
        in_grid(w, h, ex.0, ex.1),
        mask[cell_index(w, ex.0, ex.1)],
        in_grid(w, h, nx, ny),
        adjacent(ex, (nx, ny)),
        !mask[cell_index(w, nx, ny)],
        is_fluid(cell, w, h, nx, ny),
    ensures
        flood_inv(
            cell,
            w,
            h,
            s,
            mask.update(cell_index(w, nx, ny), true),
            stack.push((nx as usize, ny as usize)),
            marked.insert(cell_index(w, nx, ny)),
            paths.insert(cell_index(w, nx, ny), paths[cell_index(w, ex.0, ex.1)].push((nx, ny))),
            open,
            ex,
        ),
        marked.insert(cell_index(w, nx, ny)).len() == marked.len() + 1,
        !stack.contains((ex.0 as usize, ex.1 as usize)) ==> !stack.push((nx as usize, ny as usize)).contains(
            (ex.0 as usize, ex.1 as usize),
        ),
{
    reveal(flood_inv);
    let ni = cell_index(w, nx, ny);
    let m2 = mask.update(ni, true);
    let st2 = stack.push((nx as usize, ny as usize));
    let cp = paths[cell_index(w, ex.0, ex.1)];
    let p2 = paths.insert(ni, cp.push((nx, ny)));
    lemma_index_bounds(w, h, nx, ny);
    assert(fluid_path(cell, w, h, cp, s, ex));
    let np = cp.push((nx, ny));
    assert forall|k: int| 0 <= k < np.len() implies #[trigger] is_fluid(cell, w, h, np[k].0, np[k].1) by {
        if k < cp.len() {
            assert(is_fluid(cell, w, h, cp[k].0, cp[k].1));
        }
    }
    assert forall|k: int| 0 <= k < np.len() - 1 implies #[trigger] adjacent(np[k], np[k + 1]) by {
        if k < cp.len() - 1 {
            assert(adjacent(cp[k], cp[k + 1]));
        }
    }
    assert(fluid_path(cell, w, h, np, s, (nx, ny)));
    assert forall|x: int, y: int|
        in_grid(w, h, x, y) && #[trigger] m2[cell_index(w, x, y)] implies is_fluid(cell, w, h, x, y)
        && p2.contains_key(cell_index(w, x, y)) && fluid_path(
        cell,
        w,
        h,
        p2[cell_index(w, x, y)],
        s,
        (x, y),
    ) by {
        lemma_index_bounds(w, h, x, y);
        if cell_index(w, x, y) == ni {
            lemma_index_injective(w, h, x, y, nx, ny);
        } else {
            assert(mask[cell_index(w, x, y)]);
        }
    }
    assert forall|j: int| 0 <= j < st2.len() implies #[trigger] st2[j].0 < w && st2[j].1 < h
        && m2[cell_index(w, st2[j].0 as int, st2[j].1 as int)] by {
        if j < stack.len() {
            assert(stack[j] == st2[j]);
            lemma_index_bounds(w, h, stack[j].0 as int, stack[j].1 as int);
        }
    }
    assert forall|i: int, j: int| 0 <= i < j < st2.len() implies #[trigger] st2[i] != #[trigger] st2[j] by {
        if j == stack.len() {
            if st2[i] == st2[j] {
                assert(stack[i] == st2[i]);
                assert(mask[cell_index(w, stack[i].0 as int, stack[i].1 as int)]);
            }
        } else {
            assert(stack[i] == st2[i] && stack[j] == st2[j]);
        }
    }
    assert forall|x: int, y: int|
        in_grid(w, h, x, y) && #[trigger] m2[cell_index(w, x, y)] && !st2.contains(
            (x as usize, y as usize),
        ) && (x, y) != ex implies closed_at(cell, w, h, m2, x, y) by {
        lemma_index_bounds(w, h, x, y);
        if cell_index(w, x, y) == ni {
            lemma_index_injective(w, h, x, y, nx, ny);
            assert(st2[st2.len() - 1] == (nx as usize, ny as usize));
        } else {
            assert(mask[cell_index(w, x, y)]);
            assert(!stack.contains((x as usize, y as usize))) by {
                if stack.contains((x as usize, y as usize)) {
                    let j = choose|j: int| 0 <= j < stack.len() && stack[j] == (x as usize, y as usize);
                    assert(st2[j] == stack[j]);
                }
            }
            assert(closed_at(cell, w, h, mask, x, y));
            assert(grows(mask, m2));
            lemma_closed_mono(cell, w, h, mask, m2, x, y);
        }
    }
    assert forall|x: int, y: int|
        in_grid(w, h, x, y) && #[trigger] m2[cell_index(w, x, y)] && !st2.contains(
            (x as usize, y as usize),
        ) && on_border(w, h, x, y) implies open by {
        lemma_index_bounds(w, h, x, y);
        if cell_index(w, x, y) == ni {
            lemma_index_injective(w, h, x, y, nx, ny);
            assert(st2[st2.len() - 1] == (nx as usize, ny as usize));
        } else {
            assert(mask[cell_index(w, x, y)]);
            assert(!stack.contains((x as usize, y as usize))) by {
                if stack.contains((x as usize, y as usize)) {
                    let j = choose|j: int| 0 <= j < stack.len() && stack[j] == (x as usize, y as usize);
                    assert(st2[j] == stack[j]);
                }
            }
        }
    }
    assert forall|i: int| 0 <= i < w * h implies (#[trigger] m2[i] <==> marked.insert(ni).contains(i)) by {
        if i != ni {
            assert(mask[i] <==> marked.contains(i));
        }
    }
    assert(marked.insert(ni).subset_of(set_int_range(0, (w * h) as int)));
    lemma_index_bounds(w, h, s.0, s.1);
    assert(m2[cell_index(w, s.0, s.1)]);
    assert(!marked.contains(ni));
    vstd::set::axiom_set_insert_len(marked, ni);
    if !stack.contains((ex.0 as usize, ex.1 as usize)) {
        if st2.contains((ex.0 as usize, ex.1 as usize)) {
            let j = choose|j: int| 0 <= j < st2.len() && st2[j] == (ex.0 as usize, ex.1 as usize);
            if j < stack.len() {
                assert(stack[j] == st2[j]);
            }
        }
    }
    assert(m2.len() == w * h);
    assert(open ==> exists|x: int, y: int|
        in_grid(w, h, x, y) && on_border(w, h, x, y) && #[trigger] connected(cell, w, h, s, (x, y)));
}

/// Popping the top cell of the stack: the invariant holds with that
/// cell exempt from closure, and the open flag accounts for it.
proof fn lemma_after_pop(
    cell: Seq<u32>,
    w: usize,
    h: usize,
    s: (int, int),
    mask: Seq<bool>,
    stack0: Seq<(usize, usize)>,
    rest: Seq<(usize, usize)>,
    marked: Set<int>,
    paths: Map<int, Seq<(int, int)>>,
    open0: bool,
    open1: bool,
    x: usize,
    y: usize,
)
    requires
        flood_inv(cell, w, h, s, mask, stack0, marked, paths, open0, (-1, -1)),
        stack0 == rest.push((x, y)),
        open1 == (open0 || on_border(w, h, x as int, y as int)),
    ensures
        flood_inv(cell, w, h, s, mask, rest, marked, paths, open1, (x as int, y as int)),
        mask.len() == w * h,
        in_grid(w, h, x as int, y as int),
        mask[cell_index(w, x as int, y as int)],
        !rest.contains((x, y)),
        marked.len() <= w * h,
{
    reveal(flood_inv);
    let top = stack0.len() - 1;
    assert(0 <= top < stack0.len());
    assert(stack0[top] == (x, y));
    assert(stack0[top].0 < w && stack0[top].1 < h);
    assert(!rest.contains((x, y))) by {
        if rest.contains((x, y)) {
            let j = choose|j: int| 0 <= j < rest.len() && rest[j] == (x, y);
            assert(stack0[j] == stack0[stack0.len() - 1]);
        }
    }
    lemma_index_bounds(w, h, x as int, y as int);
    if on_border(w, h, x as int, y as int) {
        assert(connected(cell, w, h, s, (x as int, y as int)));
    }
    let ex = (x as int, y as int);
    assert forall|xx: int, yy: int|
        in_grid(w, h, xx, yy) && #[trigger] mask[cell_index(w, xx, yy)] && !rest.contains(
            (xx as usize, yy as usize),
        ) && (xx, yy) != ex implies closed_at(cell, w, h, mask, xx, yy) by {
        if stack0.contains((xx as usize, yy as usize)) {
            let j = choose|j: int| 0 <= j < stack0.len() && stack0[j] == (xx as usize, yy as usize);
            if j < rest.len() {
                assert(rest[j] == stack0[j]);
            }
        }
    }
    assert forall|xx: int, yy: int|
        in_grid(w, h, xx, yy) && #[trigger] mask[cell_index(w, xx, yy)] && !rest.contains(
            (xx as usize, yy as usize),
        ) && on_border(w, h, xx, yy) implies open1 by {
        if stack0.contains((xx as usize, yy as usize)) {
            let j = choose|j: int| 0 <= j < stack0.len() && stack0[j] == (xx as usize, yy as usize);
            if j < rest.len() {
                assert(rest[j] == stack0[j]);
            } else {
                lemma_index_injective(w, h, xx, yy, x as int, y as int);
            }
        }
    }
    assert forall|j: int| 0 <= j < rest.len() implies #[trigger] rest[j].0 < w && rest[j].1 < h
        && mask[cell_index(w, rest[j].0 as int, rest[j].1 as int)] by {
        assert(rest[j] == stack0[j]);
    }
    assert forall|i: int, j: int| 0 <= i < j < rest.len() implies #[trigger] rest[i] != #[trigger] rest[j] by {
        assert(rest[i] == stack0[i] && rest[j] == stack0[j]);
    }
    lemma_int_range(0, (w * h) as int);
    lemma_len_subset(marked, set_int_range(0, (w * h) as int));
}

/// Once the expanded cell has all its fluid neighbours marked, the
/// exemption can be dropped.
proof fn lemma_close(
    cell: Seq<u32>,
    w: usize,
    h: usize,
    s: (int, int),
    mask: Seq<bool>,
    stack: Seq<(usize, usize)>,
    marked: Set<int>,
    paths: Map<int, Seq<(int, int)>>,
    open: bool,
    ex: (int, int),
)
    requires
        flood_inv(cell, w, h, s, mask, stack, marked, paths, open, ex),
        in_grid(w, h, ex.0, ex.1),
        closed_at(cell, w, h, mask, ex.0, ex.1),
    ensures
        flood_inv(cell, w, h, s, mask, stack, marked, paths, open, (-1, -1)),
        marked.len() <= w * h,
{
    reveal(flood_inv);
    lemma_int_range(0, (w * h) as int);
    lemma_len_subset(marked, set_int_range(0, (w * h) as int));
}

/// An exhausted stack leaves exactly the connected region marked, and
/// the open flag says whether it touches the border.
proof fn lemma_finish(
    cell: Seq<u32>,
    w: usize,
    h: usize,
    s: (int, int),
    mask: Seq<bool>,
    marked: Set<int>,
    paths: Map<int, Seq<(int, int)>>,
    open: bool,
)
    requires
        flood_inv(cell, w, h, s, mask, Seq::empty(), marked, paths, open, (-1, -1)),
    ensures
        forall|x: int, y: int|
            in_grid(w, h, x, y) ==> (#[trigger] mask[cell_index(w, x, y)] <==> connected(
                cell,
                w,
                h,
                s,
                (x, y),
            )),
        open ==> exists|x: int, y: int|
            in_grid(w, h, x, y) && on_border(w, h, x, y) && #[trigger] connected(cell, w, h, s, (x, y)),
        !open ==> forall|x: int, y: int|
            in_grid(w, h, x, y) && on_border(w, h, x, y) ==> !#[trigger] connected(cell, w, h, s, (x, y)),
{
    reveal(flood_inv);
    let stack: Seq<(usize, usize)> = Seq::empty();
    assert forall|x: int, y: int|
        in_grid(w, h, x, y) && #[trigger] mask[cell_index(w, x, y)] implies closed_at(cell, w, h, mask, x, y) by {
        assert(!stack.contains((x as usize, y as usize)));
    }
    assert forall|x: int, y: int|
        in_grid(w, h, x, y) implies (#[trigger] mask[cell_index(w, x, y)] <==> connected(cell, w, h, s, (x, y))) by {
        if connected(cell, w, h, s, (x, y)) {
            let p = choose|p: Seq<(int, int)>| fluid_path(cell, w, h, p, s, (x, y));
            lemma_closed_holds_paths(cell, w, h, mask, s, p, (x, y));
        }
        if mask[cell_index(w, x, y)] {
            assert(fluid_path(cell, w, h, paths[cell_index(w, x, y)], s, (x, y)));
        }
    }
    if !open {
        assert forall|x: int, y: int|
            in_grid(w, h, x, y) && on_border(w, h, x, y) implies !#[trigger] connected(cell, w, h, s, (x, y)) by {
            if connected(cell, w, h, s, (x, y)) {
                assert(mask[cell_index(w, x, y)]);
                assert(!stack.contains((x as usize, y as usize)));
            }
        }
    }
}

/// Flood-fill 4-connected fluid from `start` over a `w` by `h` grid.
#[verifier::rlimit(30)]
pub fn flood_region(cell: &[u32], w: usize, h: usize, start: (usize, usize)) -> (r: Flood)
    requires
        w * h <= cell@.len(),
    ensures
        ({
            let s = (start.0 as int, start.1 as int);
            match r {
                Flood::NotFluid => !is_fluid(cell@, w, h, s.0, s.1),
                Flood::OpenToEdge => is_fluid(cell@, w, h, s.0, s.1) && exists|x: int, y: int|
                    in_grid(w, h, x, y) && on_border(w, h, x, y) && #[trigger] connected(
                        cell@,
                        w,
                        h,
                        s,
                        (x, y),
                    ),
                Flood::Region(mask) => {
                    &&& is_fluid(cell@, w, h, s.0, s.1)
                    &&& mask@.len() == w * h
                    &&& forall|x: int, y: int|
                        in_grid(w, h, x, y) ==> (#[trigger] mask@[cell_index(w, x, y)] <==> connected(
                            cell@,
                            w,
                            h,
                            s,
                            (x, y),
                        ))
                    &&& forall|x: int, y: int|
                        in_grid(w, h, x, y) && on_border(w, h, x, y) ==> !#[trigger] connected(
                            cell@,
                            w,
                            h,
                            s,
                            (x, y),
                        )
                },
            }
        }),
{
    let clen = cell.len();
    assert(w * h <= usize::MAX);
    let (sx, sy) = start;
    if sx >= w || sy >= h {
        return Flood::NotFluid;
    }
    proof {
        lemma_index_bounds(w, h, sx as int, sy as int);
    }
    if cell[sy * w + sx] != CELL_FLUID {
        return Flood::NotFluid;
    }
    let ghost s = (sx as int, sy as int);
    let n = w * h;
    let mut mask: Vec<bool> = Vec::with_capacity(n);
    let mut k: usize = 0;
    while k < n
        invariant
            n == w * h,
            k <= n,
            mask@ == Seq::new(k as nat, |i: int| false),
        decreases n - k,
    {
        mask.push(false);
        k = k + 1;
    }
    let mut open = false;
    let mut stack: Vec<(usize, usize)> = Vec::new();
    let si = sy * w + sx;
    mask.set(si, true);
    stack.push((sx, sy));
    let ghost mut marked: Set<int> = set![si as int];
    let ghost mut paths: Map<int, Seq<(int, int)>> = map![si as int => seq![s]];
    let ghost none: (int, int) = (-1, -1);
    proof {
        assert(fluid_path(cell@, w, h, seq![s], s, s));
        assert forall|x: int, y: int|
            in_grid(w, h, x, y) && #[trigger] mask@[cell_index(w, x, y)] implies (x, y) == s by {
            lemma_index_bounds(w, h, x, y);
            if (x, y) != s {
                lemma_index_injective(w, h, x, y, s.0, s.1);
            }
        }
        assert(stack@[0] == (sx, sy));
        reveal(flood_inv);
        lemma_int_range(0, n as int);
        assert(flood_inv(cell@, w, h, s, mask@, stack@, marked, paths, open, none));
    }
    while stack.len() > 0
        invariant
            n == w * h,
            w * h <= cell@.len(),
            w * h <= usize::MAX,
            is_fluid(cell@, w, h, s.0, s.1),
            none == (-1int, -1int),
            mask@.len() == n,
            flood_inv(cell@, w, h, s, mask@, stack@, marked, paths, open, none),
        decreases (n - marked.len()) * 2 + stack@.len(),
    {
        let ghost stack0 = stack@;
        let ghost len0 = marked.len();
        let ghost open0 = open;
        let (x, y) = stack.pop().unwrap();
        let ghost ex = (x as int, y as int);
        let ghost rest = stack@;
        let ghost mask_start = mask@;
        proof {
            assert(stack0 =~= rest.push((x, y)));
        }
        if x == 0 || y == 0 || x == w - 1 || y == h - 1 {
            open = true;
        }
        proof {
            lemma_after_pop(cell@, w, h, s, mask@, stack0, rest, marked, paths, open0, open, x, y);
            lemma_index_bounds(w, h, x as int, y as int);
        }
        if x > 0 {
            let ghost m = mask@;
            let ghost st = stack@;
            if visit(cell, w, h, &mut mask, &mut stack, x - 1, y) {
                proof {
                    lemma_after_push(cell@, w, h, s, m, st, marked, paths, open, ex, x - 1, y as int);
                    let ni = cell_index(w, x - 1, y as int);
                    paths = paths.insert(ni, paths[cell_index(w, x as int, y as int)].push(((x - 1) as int, y as int)));
                    marked = marked.insert(ni);
                }
            }
        }
        let ghost m_a = mask@;
        proof {
            assert(m_a[cell_index(w, x as int, y as int)]);
            assert(grows(mask_start, m_a));
            assert(is_fluid(cell@, w, h, x - 1, y as int) ==> m_a[cell_index(w, x - 1, y as int)]);
            assert(stack@.len() - rest.len() == marked.len() - len0);
        }
        if x + 1 < w {
            let ghost m = mask@;
            let ghost st = stack@;
            if visit(cell, w, h, &mut mask, &mut stack, x + 1, y) {
                proof {
                    lemma_after_push(cell@, w, h, s, m, st, marked, paths, open, ex, x + 1, y as int);
                    let ni = cell_index(w, x + 1, y as int);
                    paths = paths.insert(ni, paths[cell_index(w, x as int, y as int)].push(((x + 1) as int, y as int)));
                    marked = marked.insert(ni);
                }
            }
        }
        let ghost m_b = mask@;
        proof {
            assert(m_b[cell_index(w, x as int, y as int)]);
            assert(grows(m_a, m_b));
            assert(is_fluid(cell@, w, h, x + 1, y as int) ==> m_b[cell_index(w, x + 1, y as int)]);
            assert(stack@.len() - rest.len() == marked.len() - len0);
        }
        if y > 0 {
            let ghost m = mask@;
            let ghost st = stack@;
            if visit(cell, w, h, &mut mask, &mut stack, x, y - 1) {
                proof {
                    lemma_after_push(cell@, w, h, s, m, st, marked, paths, open, ex, x as int, y - 1);
                    let ni = cell_index(w, x as int, y - 1);
                    paths = paths.insert(ni, paths[cell_index(w, x as int, y as int)].push((x as int, (y - 1) as int)));
                    marked = marked.insert(ni);
                }
            }
        }
        let ghost m_c = mask@;
        proof {
            assert(m_c[cell_index(w, x as int, y as int)]);
            assert(grows(m_b, m_c));
            assert(is_fluid(cell@, w, h, x as int, y - 1) ==> m_c[cell_index(w, x as int, y - 1)]);
            assert(stack@.len() - rest.len() == marked.len() - len0);
        }
        if y + 1 < h {
            let ghost m = mask@;
            let ghost st = stack@;
            if visit(cell, w, h, &mut mask, &mut stack, x, y + 1) {
                proof {
                    lemma_after_push(cell@, w, h, s, m, st, marked, paths, open, ex, x as int, y + 1);
                    let ni = cell_index(w, x as int, y + 1);
                    paths = paths.insert(ni, paths[cell_index(w, x as int, y as int)].push((x as int, (y + 1) as int)));
                    marked = marked.insert(ni);
                }
            }
        }
        proof {
            let m_d = mask@;
            assert(grows(m_c, m_d));
            assert(is_fluid(cell@, w, h, x as int, y + 1) ==> m_d[cell_index(w, x as int, y + 1)]);
            assert(stack@.len() - rest.len() == marked.len() - len0);
            if is_fluid(cell@, w, h, x - 1, y as int) { lemma_index_bounds(w, h, x - 1, y as int); }
            if is_fluid(cell@, w, h, x + 1, y as int) { lemma_index_bounds(w, h, x + 1, y as int); }
            if is_fluid(cell@, w, h, x as int, y - 1) { lemma_index_bounds(w, h, x as int, y - 1); }
            if is_fluid(cell@, w, h, x as int, y + 1) { lemma_index_bounds(w, h, x as int, y + 1); }
            assert(closed_at(cell@, w, h, mask@, x as int, y as int));
            lemma_close(cell@, w, h, s, mask@, stack@, marked, paths, open, ex);
        }
    }
    proof {
        assert(stack@ =~= Seq::<(usize, usize)>::empty());
        lemma_finish(cell@, w, h, s, mask@, marked, paths, open);
        reveal(flood_inv);
    }
    if open {
        return Flood::OpenToEdge;
    }
    Flood::Region(mask)
}


// --- Contour walk ---------------------------------------------------------

/// Cell `(x, y)` is on the grid and in the mask.
pub open spec fn masked(mask: Seq<bool>, w: usize, h: usize, x: int, y: int) -> bool {
    in_grid(w, h, x, y) && mask[cell_index(w, x, y)]
}

/// The lattice edge leaving corner `c` in direction `d` lies on the
/// region's boundary with the region on the walker's right-hand side
/// (below it when heading +x).
pub open spec fn boundary_edge(mask: Seq<bool>, w: usize, h: usize, c: (int, int), d: (int, int)) -> bool {
    let tl = masked(mask, w, h, c.0 - 1, c.1 - 1);
    let tr = masked(mask, w, h, c.0, c.1 - 1);
    let bl = masked(mask, w, h, c.0 - 1, c.1);
    let br = masked(mask, w, h, c.0, c.1);
    if d == (1int, 0int) {
        br && !tr
    } else if d == (-1int, 0int) {
        tl && !bl
    } else if d == (0int, 1int) {
        bl && !br
    } else if d == (0int, -1int) {
        tr && !tl
    } else {
        false
    }
}

/// The direction a quarter turn clockwise from `d` (rows grow downward).
pub open spec fn right_of(d: (int, int)) -> (int, int) {
    (-d.1, d.0)
}

/// The direction a quarter turn counter-clockwise from `d`.
pub open spec fn left_of(d: (int, int)) -> (int, int) {
    (d.1, -d.0)
}

/// The walker's rule at a corner: the sharpest available turn that keeps
/// following the boundary (right, straight, left), else turn back.
pub open spec fn next_dir(mask: Seq<bool>, w: usize, h: usize, c: (int, int), d: (int, int)) -> (int, int) {
    if boundary_edge(mask, w, h, c, right_of(d)) {
        right_of(d)
    } else if boundary_edge(mask, w, h, c, d) {
        d
    } else if boundary_edge(mask, w, h, c, left_of(d)) {
        left_of(d)
    } else {
        (-d.0, -d.1)
    }
}

/// Corner and heading of the walker after `k` steps from `start`
/// (heading +x along the start cell's top edge).
pub open spec fn walk(mask: Seq<bool>, w: usize, h: usize, start: (int, int), k: nat) -> ((int, int), (int, int))
    decreases k,
{
    if k == 0 {
        (start, (1, 0))
    } else {
        let (p, d) = walk(mask, w, h, start, (k - 1) as nat);
        let q = (p.0 + d.0, p.1 + d.1);
        (q, next_dir(mask, w, h, q, d))
    }
}

/// The step budget of the walk on a `w` by `h` grid.
pub open spec fn walk_budget(w: usize, h: usize) -> int {
    4 * (w + 2) * (h + 2)
}

/// `out` is the walk from `start`: its corners in order, stopping just
/// before the walk first returns to `start`, or at the step budget.
pub open spec fn is_contour_walk(mask: Seq<bool>, w: usize, h: usize, start: (int, int), out: Seq<(i32, i32)>) -> bool {
    &&& 1 <= out.len() <= walk_budget(w, h)
    &&& forall|k: int| 0 <= k < out.len() ==> (#[trigger] out[k]).0 as int == walk(mask, w, h, start, k as nat).0.0
        && out[k].1 as int == walk(mask, w, h, start, k as nat).0.1
    &&& forall|k: int| 1 <= k < out.len() ==> #[trigger] walk(mask, w, h, start, k as nat).0 != start
    &&& out.len() == walk_budget(w, h) || walk(mask, w, h, start, out.len() as nat).0 == start
}

/// The edge leaving corner `c` along unit direction `d` borders at
/// least one masked cell.
spec fn edge_touches(mask: Seq<bool>, w: usize, h: usize, c: (int, int), d: (int, int)) -> bool {
    if d == (1int, 0int) {
        masked(mask, w, h, c.0, c.1) || masked(mask, w, h, c.0, c.1 - 1)
    } else if d == (-1int, 0int) {
        masked(mask, w, h, c.0 - 1, c.1 - 1) || masked(mask, w, h, c.0 - 1, c.1)
    } else if d == (0int, 1int) {
        masked(mask, w, h, c.0 - 1, c.1) || masked(mask, w, h, c.0, c.1)
    } else if d == (0int, -1int) {
        masked(mask, w, h, c.0, c.1 - 1) || masked(mask, w, h, c.0 - 1, c.1 - 1)
    } else {
        false
    }
}

/// Every step of the walk runs along an edge of a masked cell, so every
/// corner stays on the `[0, w] x [0, h]` lattice.
proof fn lemma_walk_step(mask: Seq<bool>, w: usize, h: usize, p: (int, int), d: (int, int))
    requires
        edge_touches(mask, w, h, p, d),
    ensures
        0 <= p.0 + d.0 <= w,
        0 <= p.1 + d.1 <= h,
        0 <= p.0 <= w,
        0 <= p.1 <= h,
        edge_touches(mask, w, h, (p.0 + d.0, p.1 + d.1), next_dir(mask, w, h, (p.0 + d.0, p.1 + d.1), d)),
{
}

/// Arriving at a corner along a boundary edge, the walker's rule finds
/// another boundary edge leaving it (right, straight or left); it never
/// needs to turn back.
proof fn lemma_boundary_continues(mask: Seq<bool>, w: usize, h: usize, p: (int, int), d: (int, int))
    requires
        boundary_edge(mask, w, h, p, d),
    ensures
        boundary_edge(mask, w, h, (p.0 + d.0, p.1 + d.1), next_dir(mask, w, h, (p.0 + d.0, p.1 + d.1), d)),
{
}

/// Starting along a boundary edge, every edge the walker takes lies on
/// the boundary.
proof fn lemma_walk_on_boundary(mask: Seq<bool>, w: usize, h: usize, start: (int, int), k: nat)
    requires
        boundary_edge(mask, w, h, start, (1, 0)),
    ensures
        boundary_edge(mask, w, h, walk(mask, w, h, start, k).0, walk(mask, w, h, start, k).1),
    decreases k,
{
    if k > 0 {
        lemma_walk_on_boundary(mask, w, h, start, (k - 1) as nat);
        let (p, d) = walk(mask, w, h, start, (k - 1) as nat);
        lemma_boundary_continues(mask, w, h, p, d);
    }
}

/// The lattice edge from corner `a` to corner `b` is one unit step along
/// the mask's boundary, with a masked cell on its right and an unmasked
/// one on its left.
pub open spec fn boundary_step(mask: Seq<bool>, w: usize, h: usize, a: (i32, i32), b: (i32, i32)) -> bool {
    boundary_edge(mask, w, h, (a.0 as int, a.1 as int), (b.0 - a.0, b.1 - a.1))
}

/// A contour walk that starts along a boundary edge steps along the
/// boundary from corner to corner, and closes back onto its first
/// corner unless the step budget cut it short.
proof fn lemma_contour_steps(mask: Seq<bool>, w: usize, h: usize, start: (int, int), out: Seq<(i32, i32)>)
    requires
        is_contour_walk(mask, w, h, start, out),
        boundary_edge(mask, w, h, start, (1, 0)),
    ensures
        forall|k: int| 0 <= k < out.len() - 1 ==> #[trigger] boundary_step(mask, w, h, out[k], out[k + 1]),
        out.len() < walk_budget(w, h) ==> boundary_step(mask, w, h, out[out.len() - 1], out[0]),
{
    assert forall|k: int| 0 <= k < out.len() - 1 implies #[trigger] boundary_step(mask, w, h, out[k], out[k + 1]) by {
        lemma_walk_on_boundary(mask, w, h, start, k as nat);
        assert(out[k].0 as int == walk(mask, w, h, start, k as nat).0.0);
        assert(out[k + 1].0 as int == walk(mask, w, h, start, (k + 1) as nat).0.0);
    }
    if out.len() < walk_budget(w, h) {
        let k = out.len() - 1;
        lemma_walk_on_boundary(mask, w, h, start, k as nat);
        assert(out[k].0 as int == walk(mask, w, h, start, k as nat).0.0);
        assert(out[0].0 as int == walk(mask, w, h, start, 0).0.0);
    }
}

/// Heading code of a unit direction.
spec fn dir_code(d: (int, int)) -> int {
    if d == (1int, 0int) {
        0
    } else if d == (0int, 1int) {
        1
    } else if d == (-1int, 0int) {
        2
    } else {
        3
    }
}

/// `d` is one of the four unit headings.
spec fn unit_dir(d: (int, int)) -> bool {
    d == (1int, 0int) || d == (-1int, 0int) || d == (0int, 1int) || d == (0int, -1int)
}

/// Number of a walker state (corner, heading) among the `(w + 1)(h + 1)`
/// corners times four headings.
spec fn state_index(w: usize, p: (int, int), d: (int, int)) -> int {
    (p.1 * (w + 1) + p.0) * 4 + dir_code(d)
}

/// A boundary edge leaves a corner of the grid along a unit heading.
proof fn lemma_boundary_in_range(mask: Seq<bool>, w: usize, h: usize, p: (int, int), d: (int, int))
    requires
        boundary_edge(mask, w, h, p, d),
    ensures
        unit_dir(d),
        0 <= p.0 <= w,
        0 <= p.1 <= h,
{
}

/// Walker states are numbered one-to-one below `4 (w + 1)(h + 1)`.
proof fn lemma_state_index(w: usize, h: usize, p: (int, int), d: (int, int), p2: (int, int), d2: (int, int))
    requires
        unit_dir(d),
        unit_dir(d2),
        0 <= p.0 <= w,
        0 <= p.1 <= h,
        0 <= p2.0 <= w,
        0 <= p2.1 <= h,
    ensures
        0 <= state_index(w, p, d) < 4 * (w + 1) * (h + 1),
        state_index(w, p, d) == state_index(w, p2, d2) ==> p == p2 && d == d2,
{
    let ww = w + 1;
    let hh = h + 1;
    let a = p.1 * ww + p.0;
    let b = p2.1 * ww + p2.0;
    assert(0 <= a < ww * hh) by (nonlinear_arith)
        requires
            0 <= p.0 < ww,
            0 <= p.1 < hh,
            a == p.1 * ww + p.0,
    ;
    assert(4 * (w + 1) * (h + 1) == 4 * (ww * hh)) by (nonlinear_arith)
        requires
            ww == w + 1,
            hh == h + 1,
    ;
    if p.1 < p2.1 {
        assert(a < b) by (nonlinear_arith)
            requires
                0 <= p.0 < ww,
                0 <= p2.0,
                p.1 < p2.1,
                a == p.1 * ww + p.0,
                b == p2.1 * ww + p2.0,
        ;
    } else if p2.1 < p.1 {
        assert(b < a) by (nonlinear_arith)
            requires
                0 <= p2.0 < ww,
                0 <= p.0,
                p2.1 < p.1,
                a == p.1 * ww + p.0,
                b == p2.1 * ww + p2.0,
        ;
    }
}

/// Two boundary edges that lead the walker into the same next state
/// are the same edge: the step is one-to-one on boundary edges.
proof fn lemma_step_injective(
    mask: Seq<bool>,
    w: usize,
    h: usize,
    p1: (int, int),
    d1: (int, int),
    p2: (int, int),
    d2: (int, int),
)
    requires
        boundary_edge(mask, w, h, p1, d1),
        boundary_edge(mask, w, h, p2, d2),
        (p1.0 + d1.0, p1.1 + d1.1) == (p2.0 + d2.0, p2.1 + d2.1),
        next_dir(mask, w, h, (p1.0 + d1.0, p1.1 + d1.1), d1) == next_dir(mask, w, h, (p2.0 + d2.0, p2.1 + d2.1), d2),
    ensures
        p1 == p2,
        d1 == d2,
{
    let q = (p1.0 + d1.0, p1.1 + d1.1);
    let tl = masked(mask, w, h, q.0 - 1, q.1 - 1);
    let tr = masked(mask, w, h, q.0, q.1 - 1);
    let bl = masked(mask, w, h, q.0 - 1, q.1);
    let br = masked(mask, w, h, q.0, q.1);
    // Which headings can arrive at `q` along a boundary edge, in terms
    // of the four cells around it.
    assert(boundary_edge(mask, w, h, (q.0 - 1, q.1), (1, 0)) == (bl && !tl));
    assert(boundary_edge(mask, w, h, (q.0 + 1, q.1), (-1, 0)) == (tr && !br));
    assert(boundary_edge(mask, w, h, (q.0, q.1 - 1), (0, 1)) == (tl && !tr));
    assert(boundary_edge(mask, w, h, (q.0, q.1 + 1), (0, -1)) == (br && !bl));
    lemma_boundary_in_range(mask, w, h, p1, d1);
    lemma_boundary_in_range(mask, w, h, p2, d2);
}

/// Equal walker states stay equal going back: when the walk is in the
/// same state after `i` and after `j >= i` steps, it was back in its
/// start state after `j - i` steps.
proof fn lemma_walk_back(mask: Seq<bool>, w: usize, h: usize, start: (int, int), i: nat, j: nat)
    requires
        boundary_edge(mask, w, h, start, (1, 0)),
        i <= j,
        walk(mask, w, h, start, i) == walk(mask, w, h, start, j),
    ensures
        walk(mask, w, h, start, 0) == walk(mask, w, h, start, (j - i) as nat),
    decreases i,
{
    if i > 0 {
        let a = (i - 1) as nat;
        let b = (j - 1) as nat;
        lemma_walk_on_boundary(mask, w, h, start, a);
        lemma_walk_on_boundary(mask, w, h, start, b);
        let (p1, d1) = walk(mask, w, h, start, a);
        let (p2, d2) = walk(mask, w, h, start, b);
        lemma_step_injective(mask, w, h, p1, d1, p2, d2);
        lemma_walk_back(mask, w, h, start, a, b);
    }
}

/// A walk that starts along a boundary edge comes back to its start
/// corner within `4 (w + 1)(h + 1)` steps: it has no more states than
/// that, so it repeats one, and a step that is one-to-one can only
/// repeat by returning to where it began.
proof fn lemma_walk_returns(mask: Seq<bool>, w: usize, h: usize, start: (int, int)) -> (k: nat)
    requires
        boundary_edge(mask, w, h, start, (1, 0)),
    ensures
        1 <= k <= 4 * (w + 1) * (h + 1),
        walk(mask, w, h, start, k).0 == start,
{
    let m = 4 * (w + 1) * (h + 1);
    let s = Seq::new((m + 1) as nat, |k: int| state_index(w, walk(mask, w, h, start, k as nat).0, walk(mask, w, h, start, k as nat).1));
    assert forall|k: int| 0 <= k < s.len() implies 0 <= #[trigger] s[k] < m by {
        lemma_walk_on_boundary(mask, w, h, start, k as nat);
        let (p, d) = walk(mask, w, h, start, k as nat);
        lemma_boundary_in_range(mask, w, h, p, d);
        lemma_state_index(w, h, p, d, p, d);
    }
    if s.no_duplicates() {
        s.unique_seq_to_set();
        lemma_int_range(0, m);
        assert(s.to_set().subset_of(set_int_range(0, m)));
        lemma_len_subset(s.to_set(), set_int_range(0, m));
        assert(false);
    }
    let (i, j) = choose|i: int, j: int| 0 <= i < s.len() && 0 <= j < s.len() && i != j && s[i] == s[j];
    let (a, b) = if i < j { (i, j) } else { (j, i) };
    assert(s[a] == s[b]);
    lemma_walk_on_boundary(mask, w, h, start, a as nat);
    lemma_walk_on_boundary(mask, w, h, start, b as nat);
    let (p1, d1) = walk(mask, w, h, start, a as nat);
    let (p2, d2) = walk(mask, w, h, start, b as nat);
    lemma_boundary_in_range(mask, w, h, p1, d1);
    lemma_boundary_in_range(mask, w, h, p2, d2);
    lemma_state_index(w, h, p1, d1, p2, d2);
    lemma_walk_back(mask, w, h, start, a as nat, b as nat);
    (b - a) as nat
}

/// The contour of any mask with a masked cell closes: the walk from
/// the first masked cell's top-left corner comes back to it before the
/// step budget runs out, so the trace has fewer corners than the budget
/// and its last corner steps back onto its first. The budget only
/// guards against malformed input; no mask reaches it.
pub proof fn lemma_contour_closes(mask: Seq<bool>, w: usize, h: usize, start: (int, int), out: Seq<(i32, i32)>)
    requires
        is_contour_walk(mask, w, h, start, out),
        boundary_edge(mask, w, h, start, (1, 0)),
    ensures
        out.len() < walk_budget(w, h),
        walk(mask, w, h, start, out.len() as nat).0 == start,
{
    let k = lemma_walk_returns(mask, w, h, start);
    assert(4 * (w + 1) * (h + 1) < 4 * (w + 2) * (h + 2)) by (nonlinear_arith);
    if out.len() == walk_budget(w, h) {
        let ki: int = k as int;
        assert(1 <= ki < out.len());
        assert(walk(mask, w, h, start, ki as nat).0 != start);
    }
}

fn mask_at(mask: &[bool], w: usize, h: usize, x: i32, y: i32) -> (r: bool)
    requires
        w * h <= mask@.len(),
        w * h <= usize::MAX,
    ensures
        r == masked(mask@, w, h, x as int, y as int),
{
    if x >= 0 && y >= 0 && (x as usize) < w && (y as usize) < h {
        proof {
            lemma_index_bounds(w, h, x as int, y as int);
        }
        mask[(y as usize) * w + (x as usize)]
    } else {
        false
    }
}

fn is_boundary(mask: &[bool], w: usize, h: usize, c: (i32, i32), d: (i32, i32)) -> (r: bool)
    requires
        w * h <= mask@.len(),
        w * h <= usize::MAX,
        0 <= c.0 <= w < i32::MAX,
        0 <= c.1 <= h < i32::MAX,
    ensures
        r == boundary_edge(mask@, w, h, (c.0 as int, c.1 as int), (d.0 as int, d.1 as int)),
{
    let tl = mask_at(mask, w, h, c.0 - 1, c.1 - 1);
    let tr = mask_at(mask, w, h, c.0, c.1 - 1);
    let bl = mask_at(mask, w, h, c.0 - 1, c.1);
    let br = mask_at(mask, w, h, c.0, c.1);
    if d.0 == 1 && d.1 == 0 {
        br && !tr
    } else if d.0 == -1 && d.1 == 0 {
        tl && !bl
    } else if d.0 == 0 && d.1 == 1 {
        bl && !br
    } else if d.0 == 0 && d.1 == -1 {
        tr && !tl
    } else {
        false
    }
}

/// Trace the OUTER contour of a mask as an ordered loop of cell-corner
/// coordinates. Starts at the top-left corner of the first masked cell
/// in row-major order (on the outer boundary and never a saddle) and
/// walks corner to corner keeping the region on the walk's right;
/// saddle corners resolve by preferring the sharpest available turn, so
/// diagonally-touching cells never connect (matching the 4-connected
/// flood). A malformed mask stops at the step budget.
pub fn trace_mask(mask: &[bool], w: usize, h: usize) -> (out: Vec<(i32, i32)>)
    requires
        w * h <= mask@.len(),
        w < i32::MAX,
        h < i32::MAX,
        walk_budget(w, h) <= usize::MAX,
    ensures
        (forall|i: int| 0 <= i < w * h ==> !mask@[i]) ==> out@.len() == 0,
        (exists|i: int| 0 <= i < w * h && mask@[i]) ==> exists|i: int|
            0 <= i < w * h && mask@[i] && (forall|j: int| 0 <= j < i ==> !mask@[j])
                && #[trigger] is_contour_walk(mask@, w, h, (i % (w as int), i / (w as int)), out@),
        forall|k: int|
            0 <= k < out@.len() ==> 0 <= (#[trigger] out@[k]).0 <= w && 0 <= out@[k].1 <= h,
        forall|k: int| 0 <= k < out@.len() - 1 ==> #[trigger] boundary_step(mask@, w, h, out@[k], out@[k + 1]),
        0 < out@.len() < walk_budget(w, h) ==> boundary_step(mask@, w, h, out@[out@.len() - 1], out@[0]),
        (exists|i: int| 0 <= i < w * h && mask@[i]) ==> 0 < out@.len() < walk_budget(w, h),
{
    let mlen = mask.len();
    assert(w * h <= usize::MAX);
    let n = w * h;
    let mut first: usize = 0;
    while first < n && !mask[first]
        invariant
            n == w * h,
            n <= mask@.len(),
            first <= n,
            forall|j: int| 0 <= j < first ==> !mask@[j],
        decreases n - first,
    {
        first = first + 1;
    }
    if first >= n {
        return Vec::new();
    }
    let sx = (first % w) as i32;
    let sy = (first / w) as i32;
    let ghost start = (sx as int, sy as int);
    proof {
        assert(first < w * h);
        assert(w > 0) by (nonlinear_arith)
            requires first < w * h;
        assert((first as int) % (w as int) < (w as int) && (first as int) / (w as int) < (h as int)) by (nonlinear_arith)
            requires 0 <= first < w * h, w > 0;
        lemma_index_bounds(w, h, start.0, start.1);
        assert(cell_index(w, start.0, start.1) == first) by (nonlinear_arith)
            requires w > 0, start.0 == (first as int) % (w as int), start.1 == (first as int) / (w as int);
        assert(masked(mask@, w, h, start.0, start.1));
        if start.1 >= 1 {
            assert(cell_index(w, start.0, start.1 - 1) == first - w) by (nonlinear_arith)
                requires cell_index(w, start.0, start.1) == first, cell_index(w, start.0, start.1 - 1) == (start.1 - 1) * w + start.0,
                    cell_index(w, start.0, start.1) == start.1 * w + start.0;
            assert(!mask@[first - w]);
        }
        assert(boundary_edge(mask@, w, h, start, (1, 0)));
    }
    proof {
        assert(4 * (w + 2) <= 4 * (w + 2) * (h + 2) && 4 <= 4 * (w + 2) * (h + 2)) by (nonlinear_arith);
    }
    let budget = 4 * (w + 2) * (h + 2);
    let mut pos: (i32, i32) = (sx, sy);
    let mut dir: (i32, i32) = (1, 0);
    let mut out: Vec<(i32, i32)> = Vec::new();
    let mut guard: usize = 0;
    loop
        invariant_except_break
            ((pos.0 as int, pos.1 as int), (dir.0 as int, dir.1 as int)) == walk(mask@, w, h, start, guard as nat),
            edge_touches(mask@, w, h, (pos.0 as int, pos.1 as int), (dir.0 as int, dir.1 as int)),
            forall|k: int| 1 <= k <= out@.len() ==> #[trigger] walk(mask@, w, h, start, k as nat).0 != start,
        invariant
            w * h <= mask@.len(),
            w * h <= usize::MAX,
            4 <= budget,
            w < i32::MAX,
            h < i32::MAX,
            budget == walk_budget(w, h),
            guard == out@.len(),
            guard <= budget,
            start == (sx as int, sy as int),
            forall|k: int| 0 <= k < out@.len() ==> (#[trigger] out@[k]).0 as int == walk(mask@, w, h, start, k as nat).0.0
                && out@[k].1 as int == walk(mask@, w, h, start, k as nat).0.1,
            forall|k: int| 0 <= k < out@.len() ==> 0 <= (#[trigger] out@[k]).0 <= w && 0 <= out@[k].1 <= h,
            forall|k: int| 1 <= k < out@.len() ==> #[trigger] walk(mask@, w, h, start, k as nat).0 != start,
        ensures
            is_contour_walk(mask@, w, h, start, out@),
            forall|k: int| 0 <= k < out@.len() ==> 0 <= (#[trigger] out@[k]).0 <= w && 0 <= out@[k].1 <= h,
        decreases budget - guard,
    {
        if guard >= budget {
            break;
        }
        guard = guard + 1;
        proof {
            lemma_walk_step(mask@, w, h, (pos.0 as int, pos.1 as int), (dir.0 as int, dir.1 as int));
        }
        out.push(pos);
        pos = (pos.0 + dir.0, pos.1 + dir.1);
        proof {
            assert(walk(mask@, w, h, start, guard as nat).0 == (pos.0 as int, pos.1 as int));
        }
        if pos.0 == sx && pos.1 == sy {
            break;
        }
        let r = (-dir.1, dir.0);
        let l = (dir.1, -dir.0);
        if is_boundary(mask, w, h, pos, r) {
            dir = r;
        } else if is_boundary(mask, w, h, pos, dir) {
        } else if is_boundary(mask, w, h, pos, l) {
            dir = l;
        } else {
            dir = (-dir.0, -dir.1);
        }
    }
    proof {
        lemma_contour_steps(mask@, w, h, start, out@);
        lemma_contour_closes(mask@, w, h, start, out@);
    }
    out
}

} // verus!
