use vstd::prelude::*;
use crate::grid::{Cell, Island, in_grid, cell_index, is_land, lemma_cell_index};
use crate::connectivity::{
    adjacent, connected, fresh_walk, reach_avoiding, lemma_connected_land,
    lemma_connected_reach, lemma_connected_symm, lemma_connected_trans, lemma_reach_connected,
    lemma_reach_enclosed, lemma_reach_prepend, lemma_reach_refl, lemma_reach_step,
};

verus! {

/// Number of `true` entries in `s`.
pub open spec fn count_true(s: Seq<bool>) -> nat
    decreases s.len(),
{
    if s.len() == 0 {
        0
    } else {
        count_true(s.drop_last()) + if s.last() { 1nat } else { 0nat }
    }
}

proof fn lemma_count_true_bound(s: Seq<bool>)
    ensures
        count_true(s) <= s.len(),
    decreases s.len(),
{
    if s.len() > 0 {
        lemma_count_true_bound(s.drop_last());
    }
}

proof fn lemma_count_true_set(s: Seq<bool>, i: int)
    requires
        0 <= i < s.len(),
        !s[i],
    ensures
        count_true(s.update(i, true)) == count_true(s) + 1,
    decreases s.len(),
{
    let t = s.update(i, true);
    if i == s.len() - 1 {
        assert(t.drop_last() =~= s.drop_last());
    } else {
        assert(t.drop_last() =~= s.drop_last().update(i, true));
        lemma_count_true_set(s.drop_last(), i);
    }
}

/// `c` is a grid cell marked in `vis` but not in `ov`: found by the current traversal.
pub open spec fn fresh(ov: Seq<bool>, vis: Seq<bool>, w: int, h: int, c: Cell) -> bool {
    in_grid(w, h, c) && vis[cell_index(w, c)] && !ov[cell_index(w, c)]
}

/// `c` lies inside the box `isl`.
pub open spec fn within(isl: Island, c: Cell) -> bool {
    isl.0.0 <= c.0 <= isl.1.0 && isl.0.1 <= c.1 <= isl.1.1
}

/// Some fresh cell lies in column `x`.
pub open spec fn fresh_in_col(ov: Seq<bool>, vis: Seq<bool>, w: int, h: int, x: int) -> bool {
    exists|c: Cell| #[trigger] fresh(ov, vis, w, h, c) && c.0 == x
}

/// Some fresh cell lies in row `y`.
pub open spec fn fresh_in_row(ov: Seq<bool>, vis: Seq<bool>, w: int, h: int, y: int) -> bool {
    exists|c: Cell| #[trigger] fresh(ov, vis, w, h, c) && c.1 == y
}

/// `isl` is the least box around the fresh cells of `vis`, and `vis` only adds to `ov`.
pub open spec fn box_ok(isl: Island, ov: Seq<bool>, vis: Seq<bool>, w: int, h: int) -> bool {
    &&& ov.len() == vis.len()
    &&& forall|i: int| 0 <= i < ov.len() && #[trigger] ov[i] ==> vis[i]
    &&& forall|c: Cell| #[trigger] fresh(ov, vis, w, h, c) ==> within(isl, c)
    &&& fresh_in_col(ov, vis, w, h, isl.0.0 as int)
    &&& fresh_in_col(ov, vis, w, h, isl.1.0 as int)
    &&& fresh_in_row(ov, vis, w, h, isl.0.1 as int)
    &&& fresh_in_row(ov, vis, w, h, isl.1.1 as int)
}

proof fn lemma_fresh_grows(ov: Seq<bool>, vis: Seq<bool>, vis2: Seq<bool>, w: int, h: int)
    requires
        vis.len() == vis2.len(),
        forall|i: int| 0 <= i < vis.len() && #[trigger] vis[i] ==> vis2[i],
        0 <= w,
        0 <= h,
        vis.len() == w * h,
    ensures
        forall|x: int| #[trigger] fresh_in_col(ov, vis, w, h, x) ==> fresh_in_col(ov, vis2, w, h, x),
        forall|y: int| #[trigger] fresh_in_row(ov, vis, w, h, y) ==> fresh_in_row(ov, vis2, w, h, y),
{
    lemma_cell_index(w, h);
    assert forall|x: int| #[trigger] fresh_in_col(ov, vis, w, h, x) implies fresh_in_col(ov, vis2, w, h, x) by {
        let c = choose|c: Cell| #[trigger] fresh(ov, vis, w, h, c) && c.0 == x;
        assert(fresh(ov, vis2, w, h, c));
    }
    assert forall|y: int| #[trigger] fresh_in_row(ov, vis, w, h, y) implies fresh_in_row(ov, vis2, w, h, y) by {
        let c = choose|c: Cell| #[trigger] fresh(ov, vis, w, h, c) && c.1 == y;
        assert(fresh(ov, vis2, w, h, c));
    }
}

/// The top-left corner of `isl` is above and left of its bottom-right corner.
pub open spec fn ordered(isl: Island) -> bool {
    isl.0.0 <= isl.1.0 && isl.0.1 <= isl.1.1
}

/// Both corners of `isl` lie in a grid of `w` columns and `h` rows.
pub open spec fn box_in_grid(w: int, h: int, isl: Island) -> bool {
    0 <= isl.0.0 && isl.1.0 < w && 0 <= isl.0.1 && isl.1.1 < h
}

/// `isl` is the least box around the box `isl0` and the cells marked in `v1` but not in `v0`.
pub open spec fn hull_of(isl0: Island, v0: Seq<bool>, v1: Seq<bool>, w: int, h: int, isl: Island) -> bool {
    &&& isl.0.0 <= isl0.0.0 && isl.0.1 <= isl0.0.1 && isl0.1.0 <= isl.1.0 && isl0.1.1 <= isl.1.1
    &&& forall|c: Cell| #[trigger] fresh(v0, v1, w, h, c) ==> within(isl, c)
    &&& isl.0.0 == isl0.0.0 || fresh_in_col(v0, v1, w, h, isl.0.0 as int)
    &&& isl.1.0 == isl0.1.0 || fresh_in_col(v0, v1, w, h, isl.1.0 as int)
    &&& isl.0.1 == isl0.0.1 || fresh_in_row(v0, v1, w, h, isl.0.1 as int)
    &&& isl.1.1 == isl0.1.1 || fresh_in_row(v0, v1, w, h, isl.1.1 as int)
}

/// The box `isl` widened just enough to hold `c`.
pub open spec fn widened(isl: Island, c: Cell) -> Island {
    Island(
        Cell(if c.0 < isl.0.0 { c.0 } else { isl.0.0 }, if c.1 < isl.0.1 { c.1 } else { isl.0.1 }),
        Cell(if c.0 > isl.1.0 { c.0 } else { isl.1.0 }, if c.1 > isl.1.1 { c.1 } else { isl.1.1 }),
    )
}

/// From `(v0, isl0)` to `(v1, isl1)` the flood from `start` marked `start` and
/// exactly the cells it reaches through unmarked land, and widened the box to
/// the least one around them; every land neighbour of what it marked is marked.
pub open spec fn flooded(
    g: Seq<bool>,
    w: int,
    h: int,
    start: Cell,
    v0: Seq<bool>,
    isl0: Island,
    v1: Seq<bool>,
    isl1: Island,
) -> bool {
    &&& v1.len() == v0.len()
    &&& forall|i: int| 0 <= i < v0.len() && #[trigger] v0[i] ==> v1[i]
    &&& v1[cell_index(w, start)]
    &&& forall|c: Cell| #[trigger]
        in_grid(w, h, c) ==> (v1[cell_index(w, c)] <==> (v0[cell_index(w, c)] || reach_avoiding(
            g,
            w,
            h,
            v0,
            start,
            c,
        )))
    &&& hull_of(isl0, v0, v1, w, h, isl1)
    &&& forall|v: Cell, q: Cell|
        (fresh(v0, v1, w, h, v) || v == start) && #[trigger] adjacent(v, q) && is_land(g, w, h, q)
            ==> v1[cell_index(w, q)]
}

proof fn lemma_hull_refl(isl: Island, v: Seq<bool>, w: int, h: int)
    ensures
        hull_of(isl, v, v, w, h, isl),
{
}

proof fn lemma_hull_trans(
    a: Island,
    b: Island,
    c: Island,
    v0: Seq<bool>,
    v1: Seq<bool>,
    v2: Seq<bool>,
    w: int,
    h: int,
)
    requires
        0 <= w,
        0 <= h,
        v0.len() == w * h,
        v1.len() == w * h,
        v2.len() == w * h,
        forall|i: int| 0 <= i < v0.len() && #[trigger] v0[i] ==> v1[i],
        forall|i: int| 0 <= i < v1.len() && #[trigger] v1[i] ==> v2[i],
        hull_of(a, v0, v1, w, h, b),
        hull_of(b, v1, v2, w, h, c),
    ensures
        hull_of(a, v0, v2, w, h, c),
{
    lemma_cell_index(w, h);
    lemma_fresh_grows(v0, v1, v2, w, h);
    assert forall|d: Cell| #[trigger] fresh(v0, v2, w, h, d) implies within(c, d) by {
        if !fresh(v1, v2, w, h, d) {
            assert(fresh(v0, v1, w, h, d));
        }
    }
    assert forall|x: int| #[trigger] fresh_in_col(v1, v2, w, h, x) implies fresh_in_col(v0, v2, w, h, x) by {
        let d = choose|d: Cell| #[trigger] fresh(v1, v2, w, h, d) && d.0 == x;
        assert(fresh(v0, v2, w, h, d));
    }
    assert forall|y: int| #[trigger] fresh_in_row(v1, v2, w, h, y) implies fresh_in_row(v0, v2, w, h, y) by {
        let d = choose|d: Cell| #[trigger] fresh(v1, v2, w, h, d) && d.1 == y;
        assert(fresh(v0, v2, w, h, d));
    }
}

/// Marking one new cell `c` and widening the box to it gives the least box around both.
proof fn lemma_hull_take(isl: Island, v: Seq<bool>, c: Cell, w: int, h: int)
    requires
        0 <= w,
        0 <= h,
        v.len() == w * h,
        in_grid(w, h, c),
        !v[cell_index(w, c)],
        ordered(isl),
    ensures
        hull_of(isl, v, v.update(cell_index(w, c), true), w, h, widened(isl, c)),
        ordered(widened(isl, c)),
{
    lemma_cell_index(w, h);
    let v1 = v.update(cell_index(w, c), true);
    assert(fresh(v, v1, w, h, c));
    assert forall|d: Cell| #[trigger] fresh(v, v1, w, h, d) implies d == c by {}
}

/// Widens `island` just enough to hold `cell`.
fn widen(island: &mut Island, cell: Cell)
    requires
        ordered(*old(island)),
    ensures
        *final(island) == widened(*old(island), cell),
{
    if cell.0 < island.0.0 {
        island.0.0 = cell.0;
    } else if cell.0 > island.1.0 {
        island.1.0 = cell.0;
    }
    if cell.1 < island.0.1 {
        island.0.1 = cell.1;
    } else if cell.1 > island.1.1 {
        island.1.1 = cell.1;
    }
}

/// From `(vis0, stack0)` to `(vis, stack)` only land neighbours of `cell` were
/// marked, and each newly marked cell was pushed once onto the work-list.
pub open spec fn grown(
    g: Seq<bool>,
    w: int,
    h: int,
    cell: Cell,
    vis0: Seq<bool>,
    stack0: Seq<Cell>,
    vis: Seq<bool>,
    stack: Seq<Cell>,
) -> bool {
    &&& vis.len() == vis0.len()
    &&& forall|i: int| 0 <= i < vis0.len() && #[trigger] vis0[i] ==> vis[i]
    &&& forall|c: Cell| #[trigger]
        fresh(vis0, vis, w, h, c) ==> adjacent(cell, c) && is_land(g, w, h, c)
    &&& stack0.len() <= stack.len()
    &&& stack.subrange(0, stack0.len() as int) == stack0
    &&& forall|i: int| stack0.len() <= i < stack.len() ==> fresh(vis0, vis, w, h, #[trigger] stack[i])
    &&& forall|c: Cell| #[trigger] fresh(vis0, vis, w, h, c) ==> stack.contains(c)
    &&& count_true(vis) == count_true(vis0) + stack.len() - stack0.len()
}


/// One step of the flood: takes each unvisited land neighbour of `cell` into the
/// island, widening the box to it, marking it and pushing it onto the work-list.
fn push_neighbors(
    grid: &[bool],
    w: i32,
    h: i32,
    cell: Cell,
    island: &mut Island,
    visited: &mut Vec<bool>,
    stack: &mut Vec<Cell>,
)
    requires
        0 <= w,
        0 <= h,
        grid@.len() == w * h,
        old(visited)@.len() == w * h,
        in_grid(w as int, h as int, cell),
        ordered(*old(island)),
    ensures
        grown(grid@, w as int, h as int, cell, old(visited)@, old(stack)@, final(visited)@, final(stack)@),
        forall|c: Cell|
            in_grid(w as int, h as int, c) && adjacent(cell, c) && #[trigger] is_land(grid@, w as int, h as int, c)
                ==> final(visited)@[cell_index(w as int, c)],
        hull_of(*old(island), old(visited)@, final(visited)@, w as int, h as int, *final(island)),
        ordered(*final(island)),
{
    let ghost isl0 = *island;
    let ghost g = grid@;
    let ghost (wi, hi) = (w as int, h as int);
    let ghost vis0 = visited@;
    let ghost stack0 = stack@;
    proof {
        lemma_cell_index(wi, hi);
        lemma_hull_refl(isl0, vis0, wi, hi);
        assert(stack@.subrange(0, stack0.len() as int) =~= stack0);
    }
    let mut dy: i32 = -1;
    while dy <= 1
        invariant
            -1 <= dy <= 2,
            0 <= w,
            0 <= h,
            g == grid@,
            g.len() == wi * hi,
            wi == w,
            hi == h,
            in_grid(wi, hi, cell),
            forall|c: Cell| #[trigger] in_grid(wi, hi, c) ==> 0 <= cell_index(wi, c) < wi * hi,
            forall|c: Cell, d: Cell|
                in_grid(wi, hi, c) && in_grid(wi, hi, d) && #[trigger] cell_index(wi, c)
                    == #[trigger] cell_index(wi, d) ==> c == d,
            vis0.len() == wi * hi,
            grown(g, wi, hi, cell, vis0, stack0, visited@, stack@),
            hull_of(isl0, vis0, visited@, wi, hi, *island),
                ordered(*island),
            forall|c: Cell|
                in_grid(wi, hi, c) && adjacent(cell, c) && #[trigger] is_land(g, wi, hi, c) && c.1 - cell.1 < dy
                    ==> visited@[cell_index(wi, c)],
        decreases 2 - dy,
    {
        let mut dx: i32 = -1;
        while dx <= 1
            invariant
                -1 <= dy <= 1,
                -1 <= dx <= 2,
                0 <= w,
                0 <= h,
                g == grid@,
                g.len() == wi * hi,
                wi == w,
                hi == h,
                in_grid(wi, hi, cell),
                forall|c: Cell| #[trigger] in_grid(wi, hi, c) ==> 0 <= cell_index(wi, c) < wi * hi,
                forall|c: Cell, d: Cell|
                    in_grid(wi, hi, c) && in_grid(wi, hi, d) && #[trigger] cell_index(wi, c)
                        == #[trigger] cell_index(wi, d) ==> c == d,
                vis0.len() == wi * hi,
                grown(g, wi, hi, cell, vis0, stack0, visited@, stack@),
                hull_of(isl0, vis0, visited@, wi, hi, *island),
                ordered(*island),
                forall|c: Cell|
                    in_grid(wi, hi, c) && adjacent(cell, c) && #[trigger] is_land(g, wi, hi, c) && (c.1
                        - cell.1 < dy || (c.1 - cell.1 == dy && c.0 - cell.0 < dx))
                        ==> visited@[cell_index(wi, c)],
            decreases 2 - dx,
        {
            let x = cell.0 + dx;
            let y = cell.1 + dy;
            if (dx != 0 || dy != 0) && 0 <= x && x < w && 0 <= y && y < h {
                let q = cell.rel(dx, dy);
                let k = q.index(w, h, visited.len());
                if q.val(grid, w, h) && !visited[k] {
                    let ghost vis1 = visited@;
                    let ghost stack1 = stack@;
                    let ghost isl1 = *island;
                    widen(island, q);
                    visited.set(k, true);
                    stack.push(q);
                    proof {
                        let k = k as int;
                        lemma_hull_take(isl1, vis1, q, wi, hi);
                        lemma_hull_trans(isl0, isl1, *island, vis0, vis1, visited@, wi, hi);
                        lemma_count_true_set(vis1, k);
                        assert(stack@.subrange(0, stack0.len() as int)
                            =~= stack1.subrange(0, stack0.len() as int));
                        assert forall|c: Cell| #[trigger] fresh(vis0, visited@, wi, hi, c)
                            implies adjacent(cell, c) && is_land(g, wi, hi, c) by {
                            if c != q {
                                assert(fresh(vis0, vis1, wi, hi, c));
                            }
                        }
                        assert forall|i: int| stack0.len() <= i < stack@.len()
                            implies fresh(vis0, visited@, wi, hi, #[trigger] stack@[i]) by {
                            if i < stack1.len() {
                                assert(fresh(vis0, vis1, wi, hi, stack1[i]));
                            }
                        }
                        assert forall|c: Cell| #[trigger] fresh(vis0, visited@, wi, hi, c)
                            implies stack@.contains(c) by {
                            if c == q {
                                assert(stack@[stack@.len() - 1] == q);
                            } else {
                                assert(fresh(vis0, vis1, wi, hi, c));
                                let i = choose|i: int| 0 <= i < stack1.len() && stack1[i] == c;
                                assert(stack@[i] == c);
                            }
                        }
                    }
                }
            }
            dx = dx + 1;
        }
        dy = dy + 1;
    }
}


/// Every cell on an island that starts at `s` lies in the box `isl`, and each side
/// of the box touches such a cell: `isl` is the island's least bounding box.
pub open spec fn bounds_component(g: Seq<bool>, w: int, h: int, s: Cell, isl: Island) -> bool {
    &&& forall|c: Cell| #[trigger] connected(g, w, h, s, c) ==> within(isl, c)
    &&& exists|c: Cell| #[trigger] connected(g, w, h, s, c) && c.0 == isl.0.0
    &&& exists|c: Cell| #[trigger] connected(g, w, h, s, c) && c.0 == isl.1.0
    &&& exists|c: Cell| #[trigger] connected(g, w, h, s, c) && c.1 == isl.0.1
    &&& exists|c: Cell| #[trigger] connected(g, w, h, s, c) && c.1 == isl.1.1
}

/// Every land neighbour of a fresh cell that is off the work-list is marked.
pub open spec fn closed_except(
    g: Seq<bool>,
    w: int,
    h: int,
    ov: Seq<bool>,
    vis: Seq<bool>,
    stack: Seq<Cell>,
) -> bool {
    forall|v: Cell, q: Cell|
        #[trigger] fresh(ov, vis, w, h, v) && !stack.contains(v) && #[trigger] adjacent(v, q)
            && is_land(g, w, h, q) ==> vis[cell_index(w, q)]
}


/// Every land neighbour of a marked cell that was newly marked, or is `a`, is marked.
pub open spec fn closed_from(g: Seq<bool>, w: int, h: int, v0: Seq<bool>, v1: Seq<bool>, a: Cell) -> bool {
    forall|v: Cell, q: Cell|
        (fresh(v0, v1, w, h, v) || v == a) && #[trigger] adjacent(v, q) && is_land(g, w, h, q)
            ==> v1[cell_index(w, q)]
}

/// Under a closed marking, each cell of a walk from a marked `a` through land
/// unmarked in `v0` is marked.
proof fn lemma_reach_marked(
    g: Seq<bool>,
    w: int,
    h: int,
    v0: Seq<bool>,
    v1: Seq<bool>,
    a: Cell,
    c: Cell,
    p: Seq<Cell>,
    i: int,
)
    requires
        fresh_walk(g, w, h, v0, p, a, c),
        0 <= i < p.len(),
        v1[cell_index(w, a)],
        closed_from(g, w, h, v0, v1, a),
    ensures
        v1[cell_index(w, p[i])],
        p[i] == a || fresh(v0, v1, w, h, p[i]),
    decreases i,
{
    if i > 0 {
        lemma_reach_marked(g, w, h, v0, v1, a, c, p, i - 1);
        assert(adjacent(p[i - 1], p[i]));
        assert(is_land(g, w, h, p[i]));
    }
}

/// The marking after a closed flood from `start` is exactly what it reaches.
proof fn lemma_flood_exact(g: Seq<bool>, w: int, h: int, v0: Seq<bool>, v1: Seq<bool>, start: Cell)
    requires
        v1[cell_index(w, start)],
        closed_from(g, w, h, v0, v1, start),
        forall|c: Cell| #[trigger] fresh(v0, v1, w, h, c) ==> reach_avoiding(g, w, h, v0, start, c),
        forall|i: int| 0 <= i < v0.len() && #[trigger] v0[i] ==> v1[i],
        0 <= w,
        0 <= h,
        v0.len() == w * h,
    ensures
        forall|c: Cell| #[trigger]
            in_grid(w, h, c) ==> (v1[cell_index(w, c)] <==> (v0[cell_index(w, c)] || reach_avoiding(
                g,
                w,
                h,
                v0,
                start,
                c,
            ))),
{
    lemma_cell_index(w, h);
    assert forall|c: Cell| #[trigger] in_grid(w, h, c) implies (v1[cell_index(w, c)] <==> (
    v0[cell_index(w, c)] || reach_avoiding(g, w, h, v0, start, c))) by {
        if reach_avoiding(g, w, h, v0, start, c) {
            let p = choose|p: Seq<Cell>| #[trigger] fresh_walk(g, w, h, v0, p, start, c);
            lemma_reach_marked(g, w, h, v0, v1, start, c, p, p.len() - 1);
        }
        if v1[cell_index(w, c)] && !v0[cell_index(w, c)] {
            assert(fresh(v0, v1, w, h, c));
        }
    }
}

/// Takes `cell` into the island when it is unvisited land: widens the box to it,
/// marks it, and floods from it with a work-list.
fn check_cell(grid: &[bool], w: i32, h: i32, cell: Cell, island: &mut Island, visited: &mut Vec<bool>)
    requires
        0 <= w,
        0 <= h,
        grid@.len() == w * h,
        old(visited)@.len() == w * h,
        in_grid(w as int, h as int, cell),
        ordered(*old(island)),
    ensures
        final(visited)@.len() == w * h,
        !(is_land(grid@, w as int, h as int, cell) && !old(visited)@[cell_index(w as int, cell)]) ==> {
            &&& *final(island) == *old(island)
            &&& final(visited)@ == old(visited)@
        },
        is_land(grid@, w as int, h as int, cell) && !old(visited)@[cell_index(w as int, cell)] ==> {
            &&& flooded(grid@, w as int, h as int, cell, old(visited)@, *old(island), final(visited)@, *final(island))
            &&& within(*final(island), cell)
        },
        ordered(*final(island)),
{
    let ghost g = grid@;
    let ghost (wi, hi) = (w as int, h as int);
    let ghost v0 = visited@;
    let ghost isl0 = *island;
    let k = cell.index(w, h, visited.len());
    if cell.val(grid, w, h) && !visited[k] {
        widen(island, cell);
        visited.set(k, true);
        let mut stack: Vec<Cell> = Vec::new();
        stack.push(cell);
        proof {
            lemma_cell_index(wi, hi);
            lemma_hull_take(isl0, v0, cell, wi, hi);
            lemma_reach_refl(g, wi, hi, v0, cell);
            assert(fresh(v0, visited@, wi, hi, cell));
            assert(stack@[0] == cell);
            assert forall|c: Cell| #[trigger] fresh(v0, visited@, wi, hi, c) implies c == cell by {}
        }
        while stack.len() > 0
            invariant
                0 <= w,
                0 <= h,
                g == grid@,
                g.len() == wi * hi,
                wi == w,
                hi == h,
                v0.len() == wi * hi,
                forall|c: Cell| #[trigger] in_grid(wi, hi, c) ==> 0 <= cell_index(wi, c) < wi * hi,
                forall|c: Cell, d: Cell|
                    in_grid(wi, hi, c) && in_grid(wi, hi, d) && #[trigger] cell_index(wi, c)
                        == #[trigger] cell_index(wi, d) ==> c == d,
                visited@.len() == wi * hi,
                forall|i: int| 0 <= i < v0.len() && #[trigger] v0[i] ==> visited@[i],
                hull_of(isl0, v0, visited@, wi, hi, *island),
                ordered(*island),
                fresh(v0, visited@, wi, hi, cell),
                forall|c: Cell| #[trigger] fresh(v0, visited@, wi, hi, c) ==> reach_avoiding(g, wi, hi, v0, cell, c),
                forall|i: int| 0 <= i < stack@.len() ==> fresh(v0, visited@, wi, hi, #[trigger] stack@[i]),
                closed_except(g, wi, hi, v0, visited@, stack@),
            decreases 9 * (wi * hi - count_true(visited@)) + stack@.len(),
        {
            let ghost st0 = stack@;
            let ghost vis1 = visited@;
            let ghost isl1 = *island;
            let v = stack.pop().unwrap();
            let ghost st1 = stack@;
            proof {
                assert(st0 == st1.push(v));
                assert(fresh(v0, vis1, wi, hi, v));
                lemma_count_true_bound(vis1);
            }
            push_neighbors(grid, w, h, v, island, visited, &mut stack);
            proof {
                let vis2 = visited@;
                let st2 = stack@;
                lemma_count_true_bound(vis2);
                lemma_hull_trans(isl0, isl1, *island, v0, vis1, vis2, wi, hi);
                assert forall|c: Cell| #[trigger] fresh(v0, vis2, wi, hi, c)
                    implies reach_avoiding(g, wi, hi, v0, cell, c) by {
                    if fresh(v0, vis1, wi, hi, c) {
                    } else {
                        assert(fresh(vis1, vis2, wi, hi, c));
                        lemma_reach_step(g, wi, hi, v0, cell, v, c);
                    }
                }
                assert forall|i: int| 0 <= i < st2.len() implies fresh(v0, vis2, wi, hi, #[trigger] st2[i]) by {
                    if i < st1.len() {
                        assert(st2.subrange(0, st1.len() as int)[i] == st2[i]);
                        assert(fresh(v0, vis1, wi, hi, st0[i]));
                    } else {
                        assert(fresh(vis1, vis2, wi, hi, st2[i]));
                    }
                }
                assert forall|u: Cell, q: Cell|
                    #[trigger] fresh(v0, vis2, wi, hi, u) && !st2.contains(u) && #[trigger] adjacent(u, q)
                        && is_land(g, wi, hi, q) implies vis2[cell_index(wi, q)] by {
                    if u == v {
                    } else if fresh(vis1, vis2, wi, hi, u) {
                    } else {
                        assert(fresh(v0, vis1, wi, hi, u));
                        if st0.contains(u) {
                            let i = choose|i: int| 0 <= i < st0.len() && st0[i] == u;
                            assert(st2.subrange(0, st1.len() as int)[i] == st2[i]);
                            assert(st2.contains(u));
                        }
                    }
                }
            }
        }
        proof {
            let vis = visited@;
            assert(closed_except(g, wi, hi, v0, vis, Seq::empty()));
            assert(closed_from(g, wi, hi, v0, vis, cell));
            lemma_flood_exact(g, wi, hi, v0, vis, cell);
            assert(fresh(v0, vis, wi, hi, cell));
        }
    }
}

/// Marks the cell `cell` visited and takes in each of its up to eight
/// neighbours that lie in the grid, flooding the island through unvisited land.
fn visit_neighbors(grid: &[bool], w: i32, h: i32, cell: Cell, island: &mut Island, visited: &mut Vec<bool>)
    requires
        0 <= w,
        0 <= h,
        grid@.len() == w * h,
        old(visited)@.len() == w * h,
        in_grid(w as int, h as int, cell),
        ordered(*old(island)),
        within(*old(island), cell),
    ensures
        flooded(grid@, w as int, h as int, cell, old(visited)@, *old(island), final(visited)@, *final(island)),
        ordered(*final(island)),
        box_in_grid(w as int, h as int, *old(island)) ==> box_in_grid(w as int, h as int, *final(island)),
        (forall|q: Cell|
            adjacent(cell, q) && #[trigger] is_land(grid@, w as int, h as int, q) ==> old(
                visited,
            )@[cell_index(w as int, q)]) ==> {
            &&& *final(island) == *old(island)
            &&& forall|c: Cell| #[trigger]
                in_grid(w as int, h as int, c) ==> (final(visited)@[cell_index(w as int, c)] <==> (old(
                    visited,
                )@[cell_index(w as int, c)] || c == cell))
        },
{
    let ghost g = grid@;
    let ghost (wi, hi) = (w as int, h as int);
    let ghost v0 = visited@;
    let ghost isl0 = *island;
    let k = cell.index(w, h, visited.len());
    visited.set(k, true);
    proof {
        lemma_cell_index(wi, hi);
        lemma_reach_refl(g, wi, hi, v0, cell);
        assert forall|c: Cell| #[trigger] fresh(v0, visited@, wi, hi, c) implies c == cell by {}
        assert(hull_of(isl0, v0, visited@, wi, hi, *island));
    }
    let mut dy: i32 = -1;
    while dy <= 1
        invariant
            -1 <= dy <= 2,
            0 <= w,
            0 <= h,
            g == grid@,
            g.len() == wi * hi,
            wi == w,
            hi == h,
            in_grid(wi, hi, cell),
            forall|c: Cell| #[trigger] in_grid(wi, hi, c) ==> 0 <= cell_index(wi, c) < wi * hi,
            forall|c: Cell, d: Cell|
                in_grid(wi, hi, c) && in_grid(wi, hi, d) && #[trigger] cell_index(wi, c)
                    == #[trigger] cell_index(wi, d) ==> c == d,
            v0.len() == wi * hi,
            visited@.len() == wi * hi,
            forall|i: int| 0 <= i < v0.len() && #[trigger] v0[i] ==> visited@[i],
            visited@[cell_index(wi, cell)],
            forall|c: Cell| #[trigger] fresh(v0, visited@, wi, hi, c) ==> reach_avoiding(g, wi, hi, v0, cell, c),
            hull_of(isl0, v0, visited@, wi, hi, *island),
            ordered(*island),
            forall|u: Cell, q: Cell|
                fresh(v0, visited@, wi, hi, u) && u != cell && #[trigger] adjacent(u, q) && is_land(g, wi, hi, q)
                    ==> visited@[cell_index(wi, q)],
            forall|c: Cell|
                in_grid(wi, hi, c) && adjacent(cell, c) && #[trigger] is_land(g, wi, hi, c) && c.1 - cell.1 < dy
                    ==> visited@[cell_index(wi, c)],
        decreases 2 - dy,
    {
        let mut dx: i32 = -1;
        while dx <= 1
            invariant
                -1 <= dy <= 1,
                -1 <= dx <= 2,
                0 <= w,
                0 <= h,
                g == grid@,
                g.len() == wi * hi,
                wi == w,
                hi == h,
                in_grid(wi, hi, cell),
                forall|c: Cell| #[trigger] in_grid(wi, hi, c) ==> 0 <= cell_index(wi, c) < wi * hi,
                forall|c: Cell, d: Cell|
                    in_grid(wi, hi, c) && in_grid(wi, hi, d) && #[trigger] cell_index(wi, c)
                        == #[trigger] cell_index(wi, d) ==> c == d,
                v0.len() == wi * hi,
                visited@.len() == wi * hi,
                forall|i: int| 0 <= i < v0.len() && #[trigger] v0[i] ==> visited@[i],
                visited@[cell_index(wi, cell)],
                forall|c: Cell| #[trigger] fresh(v0, visited@, wi, hi, c) ==> reach_avoiding(g, wi, hi, v0, cell, c),
                hull_of(isl0, v0, visited@, wi, hi, *island),
                ordered(*island),
                forall|u: Cell, q: Cell|
                    fresh(v0, visited@, wi, hi, u) && u != cell && #[trigger] adjacent(u, q) && is_land(g, wi, hi, q)
                        ==> visited@[cell_index(wi, q)],
                forall|c: Cell|
                    in_grid(wi, hi, c) && adjacent(cell, c) && #[trigger] is_land(g, wi, hi, c) && (c.1
                        - cell.1 < dy || (c.1 - cell.1 == dy && c.0 - cell.0 < dx))
                        ==> visited@[cell_index(wi, c)],
            decreases 2 - dx,
        {
            let x = cell.0 + dx;
            let y = cell.1 + dy;
            if (dx != 0 || dy != 0) && 0 <= x && x < w && 0 <= y && y < h {
                let q = cell.rel(dx, dy);
                let ghost vis1 = visited@;
                let ghost isl1 = *island;
                check_cell(grid, w, h, q, island, visited);
                proof {
                    let vis2 = visited@;
                    let kq = cell_index(wi, q);
                    if is_land(g, wi, hi, q) && !vis1[kq] {
                        lemma_hull_trans(isl0, isl1, *island, v0, vis1, vis2, wi, hi);
                        assert forall|c: Cell| #[trigger] fresh(v0, vis2, wi, hi, c)
                            implies reach_avoiding(g, wi, hi, v0, cell, c) by {
                            if !fresh(v0, vis1, wi, hi, c) {
                                assert(fresh(vis1, vis2, wi, hi, c));
                                assert(in_grid(wi, hi, c));
                                lemma_reach_prepend(g, wi, hi, v0, vis1, cell, q, c);
                            }
                        }
                        assert forall|u: Cell, r: Cell|
                            fresh(v0, vis2, wi, hi, u) && u != cell && #[trigger] adjacent(u, r)
                                && is_land(g, wi, hi, r) implies vis2[cell_index(wi, r)] by {
                            if !fresh(vis1, vis2, wi, hi, u) {
                                assert(fresh(v0, vis1, wi, hi, u));
                            }
                        }
                    }
                }
            }
            dx = dx + 1;
        }
        dy = dy + 1;
    }
    proof {
        let vis = visited@;
        assert(closed_from(g, wi, hi, v0, vis, cell));
        lemma_flood_exact(g, wi, hi, v0, vis, cell);
        if box_in_grid(wi, hi, isl0) {
            if island.0.0 != isl0.0.0 {
                let c = choose|c: Cell| #[trigger] fresh(v0, vis, wi, hi, c) && c.0 == island.0.0;
            }
            if island.1.0 != isl0.1.0 {
                let c = choose|c: Cell| #[trigger] fresh(v0, vis, wi, hi, c) && c.0 == island.1.0;
            }
            if island.0.1 != isl0.0.1 {
                let c = choose|c: Cell| #[trigger] fresh(v0, vis, wi, hi, c) && c.1 == island.0.1;
            }
            if island.1.1 != isl0.1.1 {
                let c = choose|c: Cell| #[trigger] fresh(v0, vis, wi, hi, c) && c.1 == island.1.1;
            }
        }
        if forall|q: Cell| adjacent(cell, q) && #[trigger] is_land(g, wi, hi, q) ==> v0[cell_index(wi, q)] {
            assert forall|c: Cell| #[trigger] fresh(v0, vis, wi, hi, c) implies c == cell by {
                lemma_reach_enclosed(g, wi, hi, v0, cell, c);
            }
            if island.0.0 != isl0.0.0 {
                let c = choose|c: Cell| #[trigger] fresh(v0, vis, wi, hi, c) && c.0 == island.0.0;
            }
            if island.1.0 != isl0.1.0 {
                let c = choose|c: Cell| #[trigger] fresh(v0, vis, wi, hi, c) && c.0 == island.1.0;
            }
            if island.0.1 != isl0.0.1 {
                let c = choose|c: Cell| #[trigger] fresh(v0, vis, wi, hi, c) && c.1 == island.0.1;
            }
            if island.1.1 != isl0.1.1 {
                let c = choose|c: Cell| #[trigger] fresh(v0, vis, wi, hi, c) && c.1 == island.1.1;
            }
            assert forall|c: Cell| #[trigger] in_grid(wi, hi, c) implies (vis[cell_index(wi, c)] <==> (
            v0[cell_index(wi, c)] || c == cell)) by {
                if reach_avoiding(g, wi, hi, v0, cell, c) {
                    lemma_reach_enclosed(g, wi, hi, v0, cell, c);
                }
            }
        }
    }
}

/// After the flood from an unvisited land cell, the marked cells are land and
/// the box is the least one around them.
#[verifier::spinoff_prover]
proof fn lemma_march_box(g: Seq<bool>, w: int, h: int, v0: Seq<bool>, vis: Seq<bool>, c0: Cell, island: Island)
    requires
        0 <= w,
        0 <= h,
        v0.len() == w * h,
        is_land(g, w, h, c0),
        !v0[cell_index(w, c0)],
        flooded(g, w, h, c0, v0, Island(c0, c0), vis, island),
    ensures
        forall|c: Cell| #[trigger] fresh(v0, vis, w, h, c) ==> is_land(g, w, h, c),
        box_ok(island, v0, vis, w, h),
{
    lemma_cell_index(w, h);
    assert(fresh(v0, vis, w, h, c0));
    assert forall|c: Cell| #[trigger] fresh(v0, vis, w, h, c) implies is_land(g, w, h, c) by {
        assert(in_grid(w, h, c));
        lemma_reach_connected(g, w, h, v0, c0, c);
        lemma_connected_land(g, w, h, c0, c);
    }
    if island.0.0 == c0.0 {
        assert(fresh_in_col(v0, vis, w, h, c0.0 as int));
    }
    if island.1.0 == c0.0 {
        assert(fresh_in_col(v0, vis, w, h, c0.0 as int));
    }
    if island.0.1 == c0.1 {
        assert(fresh_in_row(v0, vis, w, h, c0.1 as int));
    }
    if island.1.1 == c0.1 {
        assert(fresh_in_row(v0, vis, w, h, c0.1 as int));
    }
}

/// When nothing visited lies on the island of `c0`, the flood marks exactly that
/// island and the box is its least bounding box.
#[verifier::spinoff_prover]
proof fn lemma_march_island(g: Seq<bool>, w: int, h: int, v0: Seq<bool>, vis: Seq<bool>, c0: Cell, island: Island)
    requires
        0 <= w,
        0 <= h,
        v0.len() == w * h,
        is_land(g, w, h, c0),
        !v0[cell_index(w, c0)],
        flooded(g, w, h, c0, v0, Island(c0, c0), vis, island),
        forall|c: Cell| in_grid(w, h, c) && #[trigger] v0[cell_index(w, c)] ==> !connected(g, w, h, c0, c),
    ensures
        forall|c: Cell| #[trigger]
            in_grid(w, h, c) ==> (vis[cell_index(w, c)] <==> (v0[cell_index(w, c)] || connected(g, w, h, c0, c))),
        bounds_component(g, w, h, c0, island),
{
    lemma_cell_index(w, h);
    lemma_march_box(g, w, h, v0, vis, c0, island);
    assert forall|c: Cell| #[trigger] in_grid(w, h, c) implies (vis[cell_index(w, c)] <==> (
    v0[cell_index(w, c)] || connected(g, w, h, c0, c))) by {
        if connected(g, w, h, c0, c) {
            lemma_connected_reach(g, w, h, v0, c0, c);
        }
        if vis[cell_index(w, c)] && !v0[cell_index(w, c)] {
            assert(fresh(v0, vis, w, h, c));
            lemma_reach_connected(g, w, h, v0, c0, c);
        }
    }
    assert forall|c: Cell| #[trigger] connected(g, w, h, c0, c) implies within(island, c) by {
        lemma_connected_land(g, w, h, c0, c);
        lemma_connected_reach(g, w, h, v0, c0, c);
        assert(fresh(v0, vis, w, h, c));
    }
    let a = choose|c: Cell| #[trigger] fresh(v0, vis, w, h, c) && c.0 == island.0.0;
    lemma_reach_connected(g, w, h, v0, c0, a);
    let b = choose|c: Cell| #[trigger] fresh(v0, vis, w, h, c) && c.0 == island.1.0;
    lemma_reach_connected(g, w, h, v0, c0, b);
    let d = choose|c: Cell| #[trigger] fresh(v0, vis, w, h, c) && c.1 == island.0.1;
    lemma_reach_connected(g, w, h, v0, c0, d);
    let e = choose|c: Cell| #[trigger] fresh(v0, vis, w, h, c) && c.1 == island.1.1;
    lemma_reach_connected(g, w, h, v0, c0, e);
}

/// Floods the island of the unvisited land cell `cell0`, marking what it reaches
/// through unvisited land, and returns the least box around the marked cells.
fn march_find(grid: &[bool], w: i32, h: i32, cell0: &Cell, visited: &mut Vec<bool>) -> (island: Island)
    requires
        0 <= w,
        0 <= h,
        grid@.len() == w * h,
        old(visited)@.len() == w * h,
        is_land(grid@, w as int, h as int, *cell0),
        !old(visited)@[cell_index(w as int, *cell0)],
    ensures
        final(visited)@.len() == w * h,
        final(visited)@[cell_index(w as int, *cell0)],
        forall|c: Cell| #[trigger]
            fresh(old(visited)@, final(visited)@, w as int, h as int, c) ==> is_land(grid@, w as int, h as int, c),
        box_ok(island, old(visited)@, final(visited)@, w as int, h as int),
        box_in_grid(w as int, h as int, island),
        ordered(island),
        within(island, *cell0),
        (forall|q: Cell|
            adjacent(*cell0, q) && #[trigger] is_land(grid@, w as int, h as int, q) ==> old(
                visited,
            )@[cell_index(w as int, q)]) ==> {
            &&& island == Island(*cell0, *cell0)
            &&& forall|c: Cell| #[trigger]
                in_grid(w as int, h as int, c) ==> (final(visited)@[cell_index(w as int, c)] <==> (old(
                    visited,
                )@[cell_index(w as int, c)] || c == *cell0))
        },
        (forall|c: Cell|
            in_grid(w as int, h as int, c) && #[trigger] old(visited)@[cell_index(w as int, c)]
                ==> !connected(grid@, w as int, h as int, *cell0, c)) ==> {
            &&& forall|c: Cell| #[trigger]
                in_grid(w as int, h as int, c) ==> (final(visited)@[cell_index(w as int, c)] <==> (old(
                    visited,
                )@[cell_index(w as int, c)] || connected(grid@, w as int, h as int, *cell0, c)))
            &&& bounds_component(grid@, w as int, h as int, *cell0, island)
        },
{
    let ghost g = grid@;
    let ghost (wi, hi) = (w as int, h as int);
    let ghost v0 = visited@;
    let ghost c0 = *cell0;
    let mut island = Island(*cell0, *cell0);
    visit_neighbors(grid, w, h, *cell0, &mut island, visited);
    proof {
        lemma_march_box(g, wi, hi, v0, visited@, c0, island);
        if forall|c: Cell|
            in_grid(wi, hi, c) && #[trigger] v0[cell_index(wi, c)] ==> !connected(g, wi, hi, c0, c) {
            lemma_march_island(g, wi, hi, v0, visited@, c0, island);
        }
    }
    island
}

/// `d` comes before row `y`, column `x` in row-major order.
pub open spec fn scanned_before(d: Cell, y: int, x: int) -> bool {
    d.1 < y || (d.1 == y && d.0 < x)
}

/// `c` is land and no cell on its island comes before it in row-major order:
/// the scan discovers the island at `c`.
pub open spec fn is_seed(g: Seq<bool>, w: int, h: int, c: Cell) -> bool {
    &&& is_land(g, w, h, c)
    &&& forall|d: Cell| #[trigger] connected(g, w, h, d, c) ==> !scanned_before(d, c.1 as int, c.0 as int)
}

/// The seeds among the cells before row `y`, column `x`, in row-major order.
pub open spec fn scan_seeds(g: Seq<bool>, w: int, h: int, y: int, x: int) -> Seq<Cell>
    decreases y, x,
{
    if y < 0 || x < 0 {
        Seq::empty()
    } else if x > 0 {
        let c = Cell((x - 1) as i32, y as i32);
        scan_seeds(g, w, h, y, x - 1) + if is_seed(g, w, h, c) { seq![c] } else { Seq::empty() }
    } else if y > 0 {
        scan_seeds(g, w, h, y - 1, w)
    } else {
        Seq::empty()
    }
}

/// The first cell of each island of the grid, in row-major order.
pub open spec fn all_seeds(g: Seq<bool>, w: int, h: int) -> Seq<Cell> {
    scan_seeds(g, w, h, h, 0)
}

/// `r` holds, for each island in the order the scan discovers them, its least
/// bounding box.
pub open spec fn islands_spec(g: Seq<bool>, w: int, h: int, r: Seq<Island>) -> bool {
    &&& r.len() == all_seeds(g, w, h).len()
    &&& forall|i: int| 0 <= i < r.len() ==> bounds_component(g, w, h, all_seeds(g, w, h)[i], #[trigger] r[i])
}

/// Some cell before row `y`, column `x` in row-major order is connected to `c`.
pub open spec fn covered(g: Seq<bool>, w: int, h: int, y: int, x: int, c: Cell) -> bool {
    exists|d: Cell| in_grid(w, h, d) && scanned_before(d, y, x) && #[trigger] connected(g, w, h, d, c)
}

/// Finds the islands of land cells of a grid of `width` columns and `height` rows,
/// stored row by row in `grid`: for each island, in the order a row-major scan
/// meets its first cell, its least bounding box.
pub fn find_islands(grid: &[bool], width: i32, height: i32) -> (islands: Vec<Island>)
    requires
        0 <= width,
        0 <= height,
        grid@.len() == width * height,
    ensures
        islands_spec(grid@, width as int, height as int, islands@),
{
    let ghost g = grid@;
    let ghost (wi, hi) = (width as int, height as int);
    let n = grid.len();
    let mut islands: Vec<Island> = Vec::new();
    let mut visited: Vec<bool> = vec![false; n];
    proof {
        lemma_cell_index(wi, hi);
    }
    let mut y: i32 = 0;
    while y < height
        invariant
            0 <= y <= height,
            0 <= width,
            g == grid@,
            g.len() == wi * hi,
            n == g.len(),
            wi == width,
            hi == height,
            forall|c: Cell| #[trigger] in_grid(wi, hi, c) ==> 0 <= cell_index(wi, c) < wi * hi,
            visited@.len() == wi * hi,
            forall|c: Cell| #[trigger]
                in_grid(wi, hi, c) ==> (visited@[cell_index(wi, c)] <==> covered(g, wi, hi, y as int, 0, c)),
            islands@.len() == scan_seeds(g, wi, hi, y as int, 0).len(),
            forall|i: int| 0 <= i < islands@.len() ==> bounds_component(
                g,
                wi,
                hi,
                scan_seeds(g, wi, hi, y as int, 0)[i],
                #[trigger] islands@[i],
            ),
        decreases height - y,
    {
        let mut x: i32 = 0;
        while x < width
            invariant
                0 <= y < height,
                0 <= x <= width,
                g == grid@,
                g.len() == wi * hi,
                n == g.len(),
                wi == width,
                hi == height,
                forall|c: Cell| #[trigger] in_grid(wi, hi, c) ==> 0 <= cell_index(wi, c) < wi * hi,
                visited@.len() == wi * hi,
                forall|c: Cell| #[trigger]
                    in_grid(wi, hi, c) ==> (visited@[cell_index(wi, c)] <==> covered(g, wi, hi, y as int, x as int, c)),
                islands@.len() == scan_seeds(g, wi, hi, y as int, x as int).len(),
                forall|i: int| 0 <= i < islands@.len() ==> bounds_component(
                    g,
                    wi,
                    hi,
                    scan_seeds(g, wi, hi, y as int, x as int)[i],
                    #[trigger] islands@[i],
                ),
            decreases width - x,
        {
            let cell = Cell(x, y);
            let k = cell.index(width, height, n);
            let ghost vis0 = visited@;
            let ghost isl0 = islands@;
            let ghost (yi, xi) = (y as int, x as int);
            proof {
                assert(cell == Cell((xi + 1 - 1) as i32, yi as i32));
                assert(in_grid(wi, hi, cell));
                if is_land(g, wi, hi, cell) && vis0[k as int] {
                    let d = choose|d: Cell| in_grid(wi, hi, d) && scanned_before(d, yi, xi)
                        && #[trigger] connected(g, wi, hi, d, cell);
                    assert(!is_seed(g, wi, hi, cell));
                }
                if is_land(g, wi, hi, cell) && !vis0[k as int] {
                    assert forall|d: Cell| #[trigger] connected(g, wi, hi, d, cell)
                        implies !scanned_before(d, yi, xi) by {
                        lemma_connected_land(g, wi, hi, d, cell);
                        if scanned_before(d, yi, xi) {
                            assert(covered(g, wi, hi, yi, xi, cell));
                        }
                    }
                    assert(is_seed(g, wi, hi, cell));
                }
            }
            if cell.val(grid, width, height) && !visited[k] {
                proof {
                    assert forall|c: Cell|
                        in_grid(wi, hi, c) && #[trigger] vis0[cell_index(wi, c)]
                            implies !connected(g, wi, hi, cell, c) by {
                        assert(covered(g, wi, hi, yi, xi, c));
                        let d = choose|d: Cell| in_grid(wi, hi, d) && scanned_before(d, yi, xi)
                            && #[trigger] connected(g, wi, hi, d, c);
                        if connected(g, wi, hi, cell, c) {
                            lemma_connected_symm(g, wi, hi, cell, c);
                            lemma_connected_trans(g, wi, hi, d, c, cell);
                            assert(covered(g, wi, hi, yi, xi, cell));
                        }
                    }
                }
                let island = march_find(grid, width, height, &cell, &mut visited);
                islands.push(island);
                proof {
                    assert forall|i: int| 0 <= i < islands@.len() implies bounds_component(
                        g,
                        wi,
                        hi,
                        scan_seeds(g, wi, hi, yi, xi + 1)[i],
                        #[trigger] islands@[i],
                    ) by {
                        if i < isl0.len() {
                            assert(islands@[i] == isl0[i]);
                        }
                    }
                }
            }
            proof {
                let vis = visited@;
                assert forall|c: Cell| #[trigger] in_grid(wi, hi, c)
                    implies (vis[cell_index(wi, c)] <==> covered(g, wi, hi, yi, xi + 1, c)) by {
                    if covered(g, wi, hi, yi, xi + 1, c) {
                        let d = choose|d: Cell| in_grid(wi, hi, d) && scanned_before(d, yi, xi + 1)
                            && #[trigger] connected(g, wi, hi, d, c);
                        if d == cell {
                            lemma_connected_land(g, wi, hi, d, c);
                            if vis0[k as int] {
                                assert(covered(g, wi, hi, yi, xi, cell));
                                let e = choose|e: Cell| in_grid(wi, hi, e) && scanned_before(e, yi, xi)
                                    && #[trigger] connected(g, wi, hi, e, cell);
                                lemma_connected_trans(g, wi, hi, e, cell, c);
                                assert(covered(g, wi, hi, yi, xi, c));
                            }
                        } else {
                            assert(covered(g, wi, hi, yi, xi, c));
                        }
                    }
                    if vis[cell_index(wi, c)] && !vis0[cell_index(wi, c)] {
                        assert(connected(g, wi, hi, cell, c));
                    }
                    if covered(g, wi, hi, yi, xi, c) {
                        let d = choose|d: Cell| in_grid(wi, hi, d) && scanned_before(d, yi, xi)
                            && #[trigger] connected(g, wi, hi, d, c);
                        assert(scanned_before(d, yi, xi + 1));
                    }
                }
            }
            x = x + 1;
        }
        proof {
            let (yi, vis) = (y as int, visited@);
            assert forall|c: Cell| #[trigger] in_grid(wi, hi, c)
                implies (vis[cell_index(wi, c)] <==> covered(g, wi, hi, yi + 1, 0, c)) by {
                if covered(g, wi, hi, yi + 1, 0, c) {
                    let d = choose|d: Cell| in_grid(wi, hi, d) && scanned_before(d, yi + 1, 0)
                        && #[trigger] connected(g, wi, hi, d, c);
                    assert(scanned_before(d, yi, wi));
                }
                if covered(g, wi, hi, yi, wi, c) {
                    let d = choose|d: Cell| in_grid(wi, hi, d) && scanned_before(d, yi, wi)
                        && #[trigger] connected(g, wi, hi, d, c);
                    assert(scanned_before(d, yi + 1, 0));
                }
            }
        }
        y = y + 1;
    }
    islands
}

} // verus!
