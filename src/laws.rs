use vstd::prelude::*;
use crate::grid::{Cell, Island, in_grid, cell_index, is_land, grid_shape, lemma_cell_index};
use crate::connectivity::{
    adjacent, connected, links, lemma_connected_land, lemma_connected_refl, lemma_connected_step,
    lemma_connected_symm, lemma_connected_trans,
};
use crate::engine::{
    within, scanned_before, is_seed, scan_seeds, all_seeds, islands_spec, bounds_component,
};

verus! {

/// The scan lists each seed before row `y`, column `x` once, and in row-major order.
pub proof fn lemma_scan_seeds(g: Seq<bool>, w: int, h: int, y: int, x: int)
    requires
        grid_shape(g, w, h),
        0 <= y <= h,
        0 <= x <= w,
    ensures
        forall|i: int| #![trigger scan_seeds(g, w, h, y, x)[i]]
            0 <= i < scan_seeds(g, w, h, y, x).len() ==> is_seed(g, w, h, scan_seeds(g, w, h, y, x)[i])
                && scanned_before(scan_seeds(g, w, h, y, x)[i], y, x),
        forall|i: int, j: int|
            0 <= i < j < scan_seeds(g, w, h, y, x).len() ==> scanned_before(
                #[trigger] scan_seeds(g, w, h, y, x)[i],
                #[trigger] scan_seeds(g, w, h, y, x)[j].1 as int,
                scan_seeds(g, w, h, y, x)[j].0 as int,
            ),
        forall|c: Cell| #[trigger]
            is_seed(g, w, h, c) && scanned_before(c, y, x) ==> scan_seeds(g, w, h, y, x).contains(c),
    decreases y, x,
{
    let s = scan_seeds(g, w, h, y, x);
    if x > 0 {
        lemma_scan_seeds(g, w, h, y, x - 1);
        let t = scan_seeds(g, w, h, y, x - 1);
        let c = Cell((x - 1) as i32, y as i32);
        assert(c.0 == x - 1 && c.1 == y);
        assert forall|i: int| #![trigger s[i]] 0 <= i < s.len() implies is_seed(g, w, h, s[i])
            && scanned_before(s[i], y, x) by {
            if i < t.len() {
                assert(s[i] == t[i]);
            }
        }
        assert forall|i: int, j: int| 0 <= i < j < s.len() implies scanned_before(
            #[trigger] s[i],
            #[trigger] s[j].1 as int,
            s[j].0 as int,
        ) by {
            assert(s[i] == t[i]);
            if j < t.len() {
                assert(s[j] == t[j]);
            }
        }
        assert forall|d: Cell| #[trigger] is_seed(g, w, h, d) && scanned_before(d, y, x) implies s.contains(d) by {
            if scanned_before(d, y, x - 1) {
                let i = choose|i: int| 0 <= i < t.len() && t[i] == d;
                assert(s[i] == d);
            } else {
                assert(d == c);
                assert(s[s.len() - 1] == d);
            }
        }
    } else if y > 0 {
        lemma_scan_seeds(g, w, h, y - 1, w);
        let t = scan_seeds(g, w, h, y - 1, w);
        assert(s == t);
        assert forall|i: int| #![trigger s[i]] 0 <= i < s.len() implies is_seed(g, w, h, s[i])
            && scanned_before(s[i], y, x) by {
            assert(is_seed(g, w, h, t[i]));
        }
        assert forall|d: Cell| #[trigger] is_seed(g, w, h, d) && scanned_before(d, y, x) implies s.contains(d) by {
            assert(scanned_before(d, y - 1, w));
        }
    }
}

/// A land cell with no land neighbour is alone on its island.
pub proof fn lemma_isolated(g: Seq<bool>, w: int, h: int, a: Cell, c: Cell)
    requires
        is_land(g, w, h, a),
        forall|q: Cell| #[trigger] adjacent(a, q) ==> !is_land(g, w, h, q),
        connected(g, w, h, a, c),
    ensures
        c == a,
{
    let p = choose|p: Seq<Cell>| #[trigger] links(g, w, h, p, a, c);
    assert forall|i: int| 0 <= i < p.len() implies p[i] == a by {
        if i > 0 {
            assert(adjacent(p[0], p[1]));
            assert(is_land(g, w, h, p[1]));
        }
    }
    assert(p[p.len() - 1] == a);
}

/// An isolated land cell is a seed, and its island's box is the cell itself.
proof fn lemma_isolated_island(g: Seq<bool>, w: int, h: int, a: Cell, isl: Island)
    requires
        is_land(g, w, h, a),
        forall|q: Cell| #[trigger] adjacent(a, q) ==> !is_land(g, w, h, q),
    ensures
        is_seed(g, w, h, a),
        bounds_component(g, w, h, a, isl) ==> isl == Island(a, a),
{
    assert forall|d: Cell| #[trigger] connected(g, w, h, d, a) implies !scanned_before(d, a.1 as int, a.0 as int) by {
        lemma_connected_symm(g, w, h, d, a);
        lemma_isolated(g, w, h, a, d);
    }
    if bounds_component(g, w, h, a, isl) {
        let c1 = choose|c: Cell| #[trigger] connected(g, w, h, a, c) && c.0 == isl.0.0;
        let c2 = choose|c: Cell| #[trigger] connected(g, w, h, a, c) && c.0 == isl.1.0;
        let c3 = choose|c: Cell| #[trigger] connected(g, w, h, a, c) && c.1 == isl.0.1;
        let c4 = choose|c: Cell| #[trigger] connected(g, w, h, a, c) && c.1 == isl.1.1;
        lemma_isolated(g, w, h, a, c1);
        lemma_isolated(g, w, h, a, c2);
        lemma_isolated(g, w, h, a, c3);
        lemma_isolated(g, w, h, a, c4);
    }
}

/// A grid with no land has no islands.
pub proof fn empty_grid_has_no_islands(g: Seq<bool>, w: int, h: int, r: Seq<Island>)
    requires
        grid_shape(g, w, h),
        forall|i: int| 0 <= i < g.len() ==> !#[trigger] g[i],
        islands_spec(g, w, h, r),
    ensures
        r.len() == 0,
{
    lemma_cell_index(w, h);
    lemma_scan_seeds(g, w, h, h, 0);
    let s = all_seeds(g, w, h);
    if s.len() > 0 {
        assert(is_seed(g, w, h, s[0]));
    }
}

/// In a grid of land only, every cell is connected to the top-left corner.
proof fn lemma_full_connected(g: Seq<bool>, w: int, h: int, c: Cell)
    requires
        grid_shape(g, w, h),
        forall|i: int| 0 <= i < g.len() ==> #[trigger] g[i],
        in_grid(w, h, c),
    ensures
        connected(g, w, h, Cell(0, 0), c),
    decreases c.0 + c.1,
{
    lemma_cell_index(w, h);
    if c.1 > 0 {
        let d = Cell(c.0, (c.1 - 1) as i32);
        lemma_full_connected(g, w, h, d);
        assert(is_land(g, w, h, c));
        lemma_connected_step(g, w, h, Cell(0, 0), d, c);
    } else if c.0 > 0 {
        let d = Cell((c.0 - 1) as i32, c.1);
        lemma_full_connected(g, w, h, d);
        assert(is_land(g, w, h, c));
        lemma_connected_step(g, w, h, Cell(0, 0), d, c);
    } else {
        assert(c == Cell(0, 0));
        assert(is_land(g, w, h, c));
        lemma_connected_refl(g, w, h, c);
    }
}

/// A non-empty grid of land only is one island spanning the whole grid.
pub proof fn full_grid_is_one_island(g: Seq<bool>, w: int, h: int, r: Seq<Island>)
    requires
        grid_shape(g, w, h),
        1 <= w,
        1 <= h,
        forall|i: int| 0 <= i < g.len() ==> #[trigger] g[i],
        islands_spec(g, w, h, r),
    ensures
        r == seq![Island(Cell(0, 0), Cell((w - 1) as i32, (h - 1) as i32))],
{
    lemma_cell_index(w, h);
    lemma_scan_seeds(g, w, h, h, 0);
    let s = all_seeds(g, w, h);
    let o = Cell(0, 0);
    assert(in_grid(w, h, o));
    assert(is_land(g, w, h, o));
    lemma_connected_refl(g, w, h, o);
    assert forall|d: Cell| #[trigger] connected(g, w, h, d, o) implies !scanned_before(d, 0, 0) by {
        lemma_connected_land(g, w, h, d, o);
    }
    assert(is_seed(g, w, h, o));
    assert(s.contains(o));
    assert forall|i: int| 0 <= i < s.len() implies s[i] == o by {
        assert(is_seed(g, w, h, s[i]));
        lemma_full_connected(g, w, h, s[i]);
    }
    if s.len() > 1 {
        assert(scanned_before(s[0], s[1].1 as int, s[1].0 as int));
    }
    assert(s.len() == 1);
    let isl = r[0];
    let e = Cell((w - 1) as i32, (h - 1) as i32);
    assert(bounds_component(g, w, h, o, isl));
    lemma_full_connected(g, w, h, e);
    assert(within(isl, e));
    assert(within(isl, o));
    let c1 = choose|c: Cell| #[trigger] connected(g, w, h, o, c) && c.0 == isl.0.0;
    let c2 = choose|c: Cell| #[trigger] connected(g, w, h, o, c) && c.0 == isl.1.0;
    let c3 = choose|c: Cell| #[trigger] connected(g, w, h, o, c) && c.1 == isl.0.1;
    let c4 = choose|c: Cell| #[trigger] connected(g, w, h, o, c) && c.1 == isl.1.1;
    lemma_connected_land(g, w, h, o, c1);
    lemma_connected_land(g, w, h, o, c2);
    lemma_connected_land(g, w, h, o, c3);
    lemma_connected_land(g, w, h, o, c4);
    assert(r =~= seq![Island(o, e)]);
}

/// A single land cell among water is one island: the cell itself.
pub proof fn single_cell_is_one_island(g: Seq<bool>, w: int, h: int, a: Cell, r: Seq<Island>)
    requires
        grid_shape(g, w, h),
        is_land(g, w, h, a),
        forall|c: Cell| #[trigger] is_land(g, w, h, c) ==> c == a,
        islands_spec(g, w, h, r),
    ensures
        r == seq![Island(a, a)],
{
    lemma_scan_seeds(g, w, h, h, 0);
    let s = all_seeds(g, w, h);
    lemma_isolated_island(g, w, h, a, r[0]);
    assert(s.contains(a));
    assert forall|i: int| 0 <= i < s.len() implies s[i] == a by {
        assert(is_seed(g, w, h, s[i]));
    }
    if s.len() > 1 {
        assert(scanned_before(s[0], s[1].1 as int, s[1].0 as int));
    }
    assert(bounds_component(g, w, h, s[0], r[0]));
    assert(r =~= seq![Island(a, a)]);
}

/// Two land cells that touch only at a corner form one island.
pub proof fn diagonal_cells_are_one_island(g: Seq<bool>, w: int, h: int, r: Seq<Island>)
    requires
        grid_shape(g, w, h),
        2 <= w,
        2 <= h,
        forall|c: Cell| #[trigger] is_land(g, w, h, c) <==> (c == Cell(0, 0) || c == Cell(1, 1)),
        islands_spec(g, w, h, r),
    ensures
        r == seq![Island(Cell(0, 0), Cell(1, 1))],
{
    lemma_scan_seeds(g, w, h, h, 0);
    let s = all_seeds(g, w, h);
    let (a, b) = (Cell(0, 0), Cell(1, 1));
    assert(is_land(g, w, h, a));
    assert(is_land(g, w, h, b));
    lemma_connected_refl(g, w, h, a);
    lemma_connected_step(g, w, h, a, a, b);
    assert forall|d: Cell| #[trigger] connected(g, w, h, d, a) implies !scanned_before(d, 0, 0) by {
        lemma_connected_land(g, w, h, d, a);
    }
    assert(is_seed(g, w, h, a));
    assert(!is_seed(g, w, h, b));
    assert(s.contains(a));
    assert forall|i: int| 0 <= i < s.len() implies s[i] == a by {
        assert(is_seed(g, w, h, s[i]));
        assert(is_land(g, w, h, s[i]));
    }
    if s.len() > 1 {
        assert(scanned_before(s[0], s[1].1 as int, s[1].0 as int));
    }
    let isl = r[0];
    assert(bounds_component(g, w, h, a, isl));
    assert(within(isl, a));
    assert(within(isl, b));
    let c1 = choose|c: Cell| #[trigger] connected(g, w, h, a, c) && c.0 == isl.0.0;
    let c2 = choose|c: Cell| #[trigger] connected(g, w, h, a, c) && c.0 == isl.1.0;
    let c3 = choose|c: Cell| #[trigger] connected(g, w, h, a, c) && c.1 == isl.0.1;
    let c4 = choose|c: Cell| #[trigger] connected(g, w, h, a, c) && c.1 == isl.1.1;
    lemma_connected_land(g, w, h, a, c1);
    lemma_connected_land(g, w, h, a, c2);
    lemma_connected_land(g, w, h, a, c3);
    lemma_connected_land(g, w, h, a, c4);
    assert(r =~= seq![Island(a, b)]);
}

/// Two land cells with water all around each are two islands, one box each.
pub proof fn separated_cells_are_two_islands(
    g: Seq<bool>,
    w: int,
    h: int,
    a: Cell,
    b: Cell,
    r: Seq<Island>,
)
    requires
        grid_shape(g, w, h),
        is_land(g, w, h, a),
        is_land(g, w, h, b),
        a != b,
        !adjacent(a, b),
        forall|c: Cell| #[trigger] is_land(g, w, h, c) ==> c == a || c == b,
        islands_spec(g, w, h, r),
    ensures
        r == if scanned_before(a, b.1 as int, b.0 as int) {
            seq![Island(a, a), Island(b, b)]
        } else {
            seq![Island(b, b), Island(a, a)]
        },
{
    lemma_scan_seeds(g, w, h, h, 0);
    let s = all_seeds(g, w, h);
    lemma_isolated_island(g, w, h, a, Island(a, a));
    lemma_isolated_island(g, w, h, b, Island(b, b));
    assert(s.contains(a));
    assert(s.contains(b));
    assert forall|i: int| 0 <= i < s.len() implies s[i] == a || s[i] == b by {
        assert(is_seed(g, w, h, s[i]));
    }
    if s.len() > 2 {
        assert(scanned_before(s[0], s[1].1 as int, s[1].0 as int));
        assert(scanned_before(s[1], s[2].1 as int, s[2].0 as int));
        assert(scanned_before(s[0], s[2].1 as int, s[2].0 as int));
    }
    assert(s.len() == 2);
    assert(scanned_before(s[0], s[1].1 as int, s[1].0 as int));
    lemma_isolated_island(g, w, h, s[0], r[0]);
    lemma_isolated_island(g, w, h, s[1], r[1]);
    assert(bounds_component(g, w, h, s[0], r[0]));
    assert(bounds_component(g, w, h, s[1], r[1]));
    if scanned_before(a, b.1 as int, b.0 as int) {
        assert(s[0] == a);
        assert(r =~= seq![Island(a, a), Island(b, b)]);
    } else {
        assert(s[0] == b);
        assert(r =~= seq![Island(b, b), Island(a, a)]);
    }
}

/// Every land cell is connected to some seed.
proof fn lemma_has_seed(g: Seq<bool>, w: int, h: int, c: Cell)
    requires
        grid_shape(g, w, h),
        is_land(g, w, h, c),
    ensures
        exists|s: Cell| #[trigger] is_seed(g, w, h, s) && connected(g, w, h, s, c),
    decreases cell_index(w, c),
{
    lemma_cell_index(w, h);
    lemma_connected_refl(g, w, h, c);
    if !is_seed(g, w, h, c) {
        let d = choose|d: Cell| #[trigger] connected(g, w, h, d, c) && scanned_before(d, c.1 as int, c.0 as int);
        lemma_connected_land(g, w, h, d, c);
        let (dx, dy, cx, cy) = (d.0 as int, d.1 as int, c.0 as int, c.1 as int);
        assert(dy * w + dx < cy * w + cx) by (nonlinear_arith)
            requires
                0 <= dx < w,
                0 <= cx,
                dy < cy || (dy == cy && dx < cx),
        ;
        lemma_has_seed(g, w, h, d);
        let s = choose|s: Cell| #[trigger] is_seed(g, w, h, s) && connected(g, w, h, s, d);
        lemma_connected_trans(g, w, h, s, d, c);
    } else {
        assert(is_seed(g, w, h, c) && connected(g, w, h, c, c));
    }
}

/// Every land cell lies on the island of exactly one of the seeds behind the
/// reported islands, so each land cell is counted once over all islands.
pub proof fn each_land_cell_on_one_island(g: Seq<bool>, w: int, h: int, r: Seq<Island>, c: Cell)
    requires
        grid_shape(g, w, h),
        is_land(g, w, h, c),
        islands_spec(g, w, h, r),
    ensures
        exists|i: int| 0 <= i < r.len() && #[trigger] connected(g, w, h, all_seeds(g, w, h)[i], c),
        forall|i: int, j: int|
            0 <= i < r.len() && 0 <= j < r.len() && #[trigger] connected(g, w, h, all_seeds(g, w, h)[i], c)
                && #[trigger] connected(g, w, h, all_seeds(g, w, h)[j], c) ==> i == j,
{
    lemma_scan_seeds(g, w, h, h, 0);
    let seeds = all_seeds(g, w, h);
    lemma_has_seed(g, w, h, c);
    let s = choose|s: Cell| #[trigger] is_seed(g, w, h, s) && connected(g, w, h, s, c);
    assert(seeds.contains(s));
    let k = choose|k: int| 0 <= k < seeds.len() && seeds[k] == s;
    assert(connected(g, w, h, seeds[k], c));
    assert forall|i: int, j: int|
        0 <= i < r.len() && 0 <= j < r.len() && #[trigger] connected(g, w, h, seeds[i], c)
            && #[trigger] connected(g, w, h, seeds[j], c) implies i == j by {
        let (a, b) = (seeds[i], seeds[j]);
        assert(is_seed(g, w, h, a));
        assert(is_seed(g, w, h, b));
        lemma_connected_symm(g, w, h, b, c);
        lemma_connected_trans(g, w, h, a, c, b);
        lemma_connected_symm(g, w, h, a, b);
        if i < j {
            assert(scanned_before(seeds[i], seeds[j].1 as int, seeds[j].0 as int));
        } else if j < i {
            assert(scanned_before(seeds[j], seeds[i].1 as int, seeds[i].0 as int));
        }
    }
}

/// One seed has one least bounding box.
proof fn lemma_bounds_unique(g: Seq<bool>, w: int, h: int, s: Cell, a: Island, b: Island)
    requires
        bounds_component(g, w, h, s, a),
        bounds_component(g, w, h, s, b),
    ensures
        a == b,
{
    let a1 = choose|c: Cell| #[trigger] connected(g, w, h, s, c) && c.0 == a.0.0;
    let a2 = choose|c: Cell| #[trigger] connected(g, w, h, s, c) && c.0 == a.1.0;
    let a3 = choose|c: Cell| #[trigger] connected(g, w, h, s, c) && c.1 == a.0.1;
    let a4 = choose|c: Cell| #[trigger] connected(g, w, h, s, c) && c.1 == a.1.1;
    let b1 = choose|c: Cell| #[trigger] connected(g, w, h, s, c) && c.0 == b.0.0;
    let b2 = choose|c: Cell| #[trigger] connected(g, w, h, s, c) && c.0 == b.1.0;
    let b3 = choose|c: Cell| #[trigger] connected(g, w, h, s, c) && c.1 == b.0.1;
    let b4 = choose|c: Cell| #[trigger] connected(g, w, h, s, c) && c.1 == b.1.1;
    assert(within(b, a1) && within(b, a2) && within(b, a3) && within(b, a4));
    assert(within(a, b1) && within(a, b2) && within(a, b3) && within(a, b4));
}

/// Two runs of discovery on one grid give the same islands, in the same order.
pub proof fn islands_are_determined(g: Seq<bool>, w: int, h: int, r1: Seq<Island>, r2: Seq<Island>)
    requires
        islands_spec(g, w, h, r1),
        islands_spec(g, w, h, r2),
    ensures
        r1 == r2,
{
    let s = all_seeds(g, w, h);
    assert forall|i: int| 0 <= i < r1.len() implies r1[i] == r2[i] by {
        lemma_bounds_unique(g, w, h, s[i], r1[i], r2[i]);
    }
    assert(r1 =~= r2);
}

} // verus!
