use vstd::prelude::*;

verus! {

/// A grid position: column `0`, row `1`.
#[derive(PartialEq, Eq, Structural, Hash, Copy, Clone, Debug)]
pub struct Cell(pub i32, pub i32);

/// The bounding box of one island: top-left corner `0`, bottom-right corner `1`.
#[derive(PartialEq, Eq, Structural, Copy, Clone, Debug)]
pub struct Island(pub Cell, pub Cell);

/// `c` lies inside a grid of `w` columns and `h` rows.
pub open spec fn in_grid(w: int, h: int, c: Cell) -> bool {
    0 <= c.0 < w && 0 <= c.1 < h
}

/// Row-major position of `c` in a grid of `w` columns.
pub open spec fn cell_index(w: int, c: Cell) -> int {
    c.1 * w + c.0
}

/// `c` is inside the grid and its value is true.
pub open spec fn is_land(g: Seq<bool>, w: int, h: int, c: Cell) -> bool {
    in_grid(w, h, c) && g[cell_index(w, c)]
}

/// `g` holds exactly the `w * h` values of a grid.
pub open spec fn grid_shape(g: Seq<bool>, w: int, h: int) -> bool {
    0 <= w <= i32::MAX && 0 <= h <= i32::MAX && g.len() == w * h
}

/// Every cell of the grid has its own position in `0 .. w * h`.
pub proof fn lemma_cell_index(w: int, h: int)
    requires
        0 <= w,
        0 <= h,
    ensures
        forall|c: Cell| #[trigger]
            in_grid(w, h, c) ==> 0 <= cell_index(w, c) < w * h,
        forall|c: Cell, d: Cell|
            in_grid(w, h, c) && in_grid(w, h, d) && #[trigger] cell_index(w, c)
                == #[trigger] cell_index(w, d) ==> c == d,
{
    assert forall|c: Cell| #[trigger] in_grid(w, h, c) implies 0 <= cell_index(w, c) < w * h by {
        let (x, y) = (c.0 as int, c.1 as int);
        assert(0 <= y * w) by (nonlinear_arith)
            requires 0 <= y, 0 <= w;
        assert(y * w + x < w * h) by (nonlinear_arith)
            requires 0 <= x < w, 0 <= y < h;
    }
    assert forall|c: Cell, d: Cell|
        in_grid(w, h, c) && in_grid(w, h, d) && #[trigger] cell_index(w, c)
            == #[trigger] cell_index(w, d) implies c == d by {
        let (cx, cy, dx, dy) = (c.0 as int, c.1 as int, d.0 as int, d.1 as int);
        assert(cy == dy) by (nonlinear_arith)
            requires 0 <= cx < w, 0 <= dx < w, cy * w + cx == dy * w + dx;
    }
}

impl Cell {
    /// The cell at offset `(dx, dy)` from this one.
    pub fn rel(&self, dx: i32, dy: i32) -> (r: Cell)
        requires
            i32::MIN <= self.0 + dx <= i32::MAX,
            i32::MIN <= self.1 + dy <= i32::MAX,
        ensures
            r == Cell((self.0 + dx) as i32, (self.1 + dy) as i32),
    {
        Cell(self.0 + dx, self.1 + dy)
    }

    /// Row-major position of this cell in a grid of `w` columns and `h` rows.
    pub fn index(&self, w: i32, h: i32, len: usize) -> (r: usize)
        requires
            in_grid(w as int, h as int, *self),
            len == w * h,
        ensures
            r == cell_index(w as int, *self),
            r < len,
    {
        proof {
            lemma_cell_index(w as int, h as int);
        }
        assert(0 <= self.1 * w <= cell_index(w as int, *self));
        (self.1 as usize) * (w as usize) + (self.0 as usize)
    }

    /// The value of this cell in grid `grid` of `w` columns and `h` rows.
    pub fn val(&self, grid: &[bool], w: i32, h: i32) -> (r: bool)
        requires
            in_grid(w as int, h as int, *self),
            grid@.len() == w * h,
        ensures
            r == is_land(grid@, w as int, h as int, *self),
    {
        grid[self.index(w, h, grid.len())]
    }
}

} // verus!
