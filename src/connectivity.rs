use vstd::prelude::*;
use crate::grid::{Cell, is_land, in_grid, cell_index, lemma_cell_index};

verus! {

/// Two distinct cells that differ by at most one in each coordinate
/// (king-move neighbours, diagonals included).
pub open spec fn adjacent(a: Cell, b: Cell) -> bool {
    a != b && -1 <= a.0 - b.0 <= 1 && -1 <= a.1 - b.1 <= 1
}

/// `p` is a non-empty walk through land cells, each step to a neighbour.
pub open spec fn is_land_path(g: Seq<bool>, w: int, h: int, p: Seq<Cell>) -> bool {
    &&& p.len() > 0
    &&& forall|i: int| 0 <= i < p.len() ==> is_land(g, w, h, #[trigger] p[i])
    &&& forall|i: int| 0 <= i < p.len() - 1 ==> adjacent(#[trigger] p[i], p[i + 1])
}

/// `p` is a land path from `a` to `b`.
pub open spec fn links(g: Seq<bool>, w: int, h: int, p: Seq<Cell>, a: Cell, b: Cell) -> bool {
    is_land_path(g, w, h, p) && p[0] == a && p.last() == b
}

/// `a` and `b` lie on one island: some land path joins them.
pub open spec fn connected(g: Seq<bool>, w: int, h: int, a: Cell, b: Cell) -> bool {
    exists|p: Seq<Cell>| #[trigger] links(g, w, h, p, a, b)
}

/// Only land cells are connected to anything.
pub proof fn lemma_connected_land(g: Seq<bool>, w: int, h: int, a: Cell, b: Cell)
    requires
        connected(g, w, h, a, b),
    ensures
        is_land(g, w, h, a),
        is_land(g, w, h, b),
{
    let p = choose|p: Seq<Cell>| #[trigger] links(g, w, h, p, a, b);
    assert(is_land(g, w, h, p[0]));
    assert(is_land(g, w, h, p[p.len() - 1]));
}

/// Every land cell is connected to itself.
pub proof fn lemma_connected_refl(g: Seq<bool>, w: int, h: int, a: Cell)
    requires
        is_land(g, w, h, a),
    ensures
        connected(g, w, h, a, a),
{
    let p = seq![a];
    assert(links(g, w, h, p, a, a));
}

/// Connection extends by one step to a neighbouring land cell.
pub proof fn lemma_connected_step(g: Seq<bool>, w: int, h: int, a: Cell, b: Cell, c: Cell)
    requires
        connected(g, w, h, a, b),
        adjacent(b, c),
        is_land(g, w, h, c),
    ensures
        connected(g, w, h, a, c),
{
    let p = choose|p: Seq<Cell>| #[trigger] links(g, w, h, p, a, b);
    let q = p.push(c);
    assert forall|i: int| 0 <= i < q.len() - 1 implies adjacent(#[trigger] q[i], q[i + 1]) by {
        if i < p.len() - 1 {
            assert(adjacent(p[i], p[i + 1]));
        }
    }
    assert forall|i: int| 0 <= i < q.len() implies is_land(g, w, h, #[trigger] q[i]) by {
        if i < p.len() {
            assert(is_land(g, w, h, p[i]));
        }
    }
    assert(links(g, w, h, q, a, c));
}

/// Connection is symmetric.
pub proof fn lemma_connected_symm(g: Seq<bool>, w: int, h: int, a: Cell, b: Cell)
    requires
        connected(g, w, h, a, b),
    ensures
        connected(g, w, h, b, a),
{
    let p = choose|p: Seq<Cell>| #[trigger] links(g, w, h, p, a, b);
    let n = p.len();
    let q = Seq::new(n, |i: int| p[n - 1 - i]);
    assert forall|i: int| 0 <= i < q.len() - 1 implies adjacent(#[trigger] q[i], q[i + 1]) by {
        assert(adjacent(p[n - 2 - i], p[n - 2 - i + 1]));
    }
    assert forall|i: int| 0 <= i < q.len() implies is_land(g, w, h, #[trigger] q[i]) by {
        assert(is_land(g, w, h, p[n - 1 - i]));
    }
    assert(links(g, w, h, q, b, a));
}

/// Connection is transitive.
pub proof fn lemma_connected_trans(g: Seq<bool>, w: int, h: int, a: Cell, b: Cell, c: Cell)
    requires
        connected(g, w, h, a, b),
        connected(g, w, h, b, c),
    ensures
        connected(g, w, h, a, c),
{
    let p = choose|p: Seq<Cell>| #[trigger] links(g, w, h, p, a, b);
    let q = choose|q: Seq<Cell>| #[trigger] links(g, w, h, q, b, c);
    let (m, n) = (p.len(), q.len());
    let r = Seq::new((m + n - 1) as nat, |i: int| if i < m { p[i] } else { q[i - m + 1] });
    assert forall|i: int| 0 <= i < r.len() - 1 implies adjacent(#[trigger] r[i], r[i + 1]) by {
        if i < m - 1 {
            assert(adjacent(p[i], p[i + 1]));
        } else {
            assert(adjacent(q[i - m + 1], q[i - m + 2]));
        }
    }
    assert forall|i: int| 0 <= i < r.len() implies is_land(g, w, h, #[trigger] r[i]) by {
        if i < m {
            assert(is_land(g, w, h, p[i]));
        } else {
            assert(is_land(g, w, h, q[i - m + 1]));
        }
    }
    assert(links(g, w, h, r, a, c));
}

/// The start of a path is connected to each cell along it.
pub proof fn lemma_path_prefix(g: Seq<bool>, w: int, h: int, p: Seq<Cell>, i: int)
    requires
        is_land_path(g, w, h, p),
        0 <= i < p.len(),
    ensures
        connected(g, w, h, p[0], p[i]),
{
    let q = p.subrange(0, i + 1);
    assert forall|j: int| 0 <= j < q.len() - 1 implies adjacent(#[trigger] q[j], q[j + 1]) by {
        assert(adjacent(p[j], p[j + 1]));
    }
    assert forall|j: int| 0 <= j < q.len() implies is_land(g, w, h, #[trigger] q[j]) by {
        assert(is_land(g, w, h, p[j]));
    }
    assert(links(g, w, h, q, p[0], p[i]));
}

/// `p` walks from `a` to `c`, each step to a neighbour, and every cell after `a`
/// is land unmarked in `vis`.
pub open spec fn fresh_walk(g: Seq<bool>, w: int, h: int, vis: Seq<bool>, p: Seq<Cell>, a: Cell, c: Cell) -> bool {
    &&& p.len() > 0
    &&& p[0] == a
    &&& p.last() == c
    &&& forall|i: int| 1 <= i < p.len() ==> is_land(g, w, h, #[trigger] p[i]) && !vis[cell_index(w, p[i])]
    &&& forall|i: int| 0 <= i < p.len() - 1 ==> adjacent(#[trigger] p[i], p[i + 1])
}

/// `c` is `a` or is reached from `a` through land cells unmarked in `vis`.
pub open spec fn reach_avoiding(g: Seq<bool>, w: int, h: int, vis: Seq<bool>, a: Cell, c: Cell) -> bool {
    exists|p: Seq<Cell>| #[trigger] fresh_walk(g, w, h, vis, p, a, c)
}

/// Every cell reaches itself.
pub proof fn lemma_reach_refl(g: Seq<bool>, w: int, h: int, vis: Seq<bool>, a: Cell)
    ensures
        reach_avoiding(g, w, h, vis, a, a),
{
    assert(fresh_walk(g, w, h, vis, seq![a], a, a));
}

/// Reaching extends by one step to an unmarked neighbouring land cell.
pub proof fn lemma_reach_step(g: Seq<bool>, w: int, h: int, vis: Seq<bool>, a: Cell, b: Cell, c: Cell)
    requires
        reach_avoiding(g, w, h, vis, a, b),
        adjacent(b, c),
        is_land(g, w, h, c),
        !vis[cell_index(w, c)],
    ensures
        reach_avoiding(g, w, h, vis, a, c),
{
    let p = choose|p: Seq<Cell>| #[trigger] fresh_walk(g, w, h, vis, p, a, b);
    let q = p.push(c);
    assert forall|i: int| 0 <= i < q.len() - 1 implies adjacent(#[trigger] q[i], q[i + 1]) by {
        if i < p.len() - 1 {
            assert(adjacent(p[i], p[i + 1]));
        }
    }
    assert forall|i: int| 1 <= i < q.len() implies is_land(g, w, h, #[trigger] q[i]) && !vis[cell_index(
        w,
        q[i],
    )] by {
        if i < p.len() {
            assert(is_land(g, w, h, p[i]));
        }
    }
    assert(fresh_walk(g, w, h, vis, q, a, c));
}

/// A cell reaches, past its unmarked neighbour `q`, whatever `q` reaches past a
/// larger marking.
pub proof fn lemma_reach_prepend(
    g: Seq<bool>,
    w: int,
    h: int,
    v1: Seq<bool>,
    v2: Seq<bool>,
    a: Cell,
    q: Cell,
    c: Cell,
)
    requires
        0 <= w,
        0 <= h,
        v1.len() == w * h,
        v2.len() == w * h,
        forall|i: int| 0 <= i < v1.len() && #[trigger] v1[i] ==> v2[i],
        reach_avoiding(g, w, h, v2, q, c),
        is_land(g, w, h, q),
        !v1[cell_index(w, q)],
        adjacent(a, q),
    ensures
        reach_avoiding(g, w, h, v1, a, c),
{
    lemma_cell_index(w, h);
    let p = choose|p: Seq<Cell>| #[trigger] fresh_walk(g, w, h, v2, p, q, c);
    let r = seq![a] + p;
    assert forall|i: int| 0 <= i < r.len() - 1 implies adjacent(#[trigger] r[i], r[i + 1]) by {
        if i > 0 {
            assert(adjacent(p[i - 1], p[i]));
        }
    }
    assert forall|i: int| 1 <= i < r.len() implies is_land(g, w, h, #[trigger] r[i]) && !v1[cell_index(
        w,
        r[i],
    )] by {
        assert(r[i] == p[i - 1]);
        if i > 1 {
            assert(is_land(g, w, h, p[i - 1]));
            assert(in_grid(w, h, p[i - 1]));
        }
    }
    assert(fresh_walk(g, w, h, v1, r, a, c));
}

/// From a land cell, reaching past a marking is a connection.
pub proof fn lemma_reach_connected(g: Seq<bool>, w: int, h: int, vis: Seq<bool>, a: Cell, c: Cell)
    requires
        is_land(g, w, h, a),
        reach_avoiding(g, w, h, vis, a, c),
    ensures
        connected(g, w, h, a, c),
{
    let p = choose|p: Seq<Cell>| #[trigger] fresh_walk(g, w, h, vis, p, a, c);
    assert forall|i: int| 0 <= i < p.len() implies is_land(g, w, h, #[trigger] p[i]) by {}
    assert(links(g, w, h, p, a, c));
}

/// When nothing marked lies on the island of `a`, every cell of that island is
/// reached past the marking.
pub proof fn lemma_connected_reach(g: Seq<bool>, w: int, h: int, vis: Seq<bool>, a: Cell, c: Cell)
    requires
        forall|d: Cell| in_grid(w, h, d) && #[trigger] vis[cell_index(w, d)] ==> !connected(g, w, h, a, d),
        connected(g, w, h, a, c),
    ensures
        reach_avoiding(g, w, h, vis, a, c),
{
    let p = choose|p: Seq<Cell>| #[trigger] links(g, w, h, p, a, c);
    assert forall|i: int| 1 <= i < p.len() implies is_land(g, w, h, #[trigger] p[i]) && !vis[cell_index(
        w,
        p[i],
    )] by {
        lemma_path_prefix(g, w, h, p, i);
        assert(is_land(g, w, h, p[i]));
    }
    assert(fresh_walk(g, w, h, vis, p, a, c));
}

/// A cell whose land neighbours are all marked reaches only itself.
pub proof fn lemma_reach_enclosed(g: Seq<bool>, w: int, h: int, vis: Seq<bool>, a: Cell, c: Cell)
    requires
        forall|q: Cell| adjacent(a, q) && #[trigger] is_land(g, w, h, q) ==> vis[cell_index(w, q)],
        reach_avoiding(g, w, h, vis, a, c),
    ensures
        c == a,
{
    let p = choose|p: Seq<Cell>| #[trigger] fresh_walk(g, w, h, vis, p, a, c);
    if p.len() > 1 {
        assert(adjacent(p[0], p[1]));
        assert(is_land(g, w, h, p[1]));
    }
}

} // verus!
