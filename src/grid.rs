//! The mathematical model of grids and of 8-connectivity.
//!
//! Grids are stored column by column: `g[x][y]` is the cell at column `x`
//! and row `y`.
use vstd::prelude::*;

verus! {

/// A cell position `(x, y)`.
pub type Cell = (int, int);

/// A grid with at least one column, all columns of one height.
pub open spec fn well_formed<T>(g: Seq<Seq<T>>) -> bool {
    &&& g.len() > 0
    &&& forall|x: int| 0 <= x < g.len() ==> #[trigger] g[x].len() == g[0].len()
}

/// The number of columns.
pub open spec fn width<T>(g: Seq<Seq<T>>) -> int {
    g.len() as int
}

/// The number of rows.
pub open spec fn height<T>(g: Seq<Seq<T>>) -> int {
    g[0].len() as int
}

pub open spec fn in_bounds<T>(g: Seq<Seq<T>>, c: Cell) -> bool {
    0 <= c.0 < width(g) && 0 <= c.1 < height(g)
}

/// Whether two grids have the same shape.
pub open spec fn same_shape<T, U>(a: Seq<Seq<T>>, b: Seq<Seq<U>>) -> bool {
    &&& a.len() == b.len()
    &&& forall|x: int| 0 <= x < a.len() ==> #[trigger] a[x].len() == b[x].len()
}

/// An in-bounds cell that holds `true`.
pub open spec fn active(g: Seq<Seq<bool>>, c: Cell) -> bool {
    in_bounds(g, c) && g[c.0][c.1]
}

/// Two distinct cells that differ by at most one in each coordinate.
pub open spec fn adjacent(a: Cell, b: Cell) -> bool {
    &&& a != b
    &&& -1 <= a.0 - b.0 <= 1
    &&& -1 <= a.1 - b.1 <= 1
}

/// A non-empty chain of active cells, each adjacent to the next.
pub open spec fn is_path(g: Seq<Seq<bool>>, p: Seq<Cell>) -> bool {
    &&& p.len() > 0
    &&& forall|i: int| 0 <= i < p.len() ==> active(g, #[trigger] p[i])
    &&& forall|i: int| 0 <= i < p.len() - 1 ==> adjacent(#[trigger] p[i], p[i + 1])
}

/// `b` can be reached from `a` through a chain of adjacent active cells.
pub open spec fn connected(g: Seq<Seq<bool>>, a: Cell, b: Cell) -> bool {
    exists|p: Seq<Cell>| #[trigger] is_path(g, p) && p[0] == a && p.last() == b
}

/// Row-major scan order: `a` is scanned before `b`.
pub open spec fn scanned_before(a: Cell, b: Cell) -> bool {
    a.1 < b.1 || (a.1 == b.1 && a.0 < b.0)
}

/// An active cell that no earlier active cell in scan order reaches: the
/// first cell of its cluster.
pub open spec fn leader(g: Seq<Seq<bool>>, c: Cell) -> bool {
    &&& active(g, c)
    &&& !exists|d: Cell| scanned_before(d, c) && #[trigger] connected(g, d, c)
}

/// The number of leaders in row `y` with a column below `x`.
pub open spec fn leaders_in_row(g: Seq<Seq<bool>>, y: int, x: int) -> nat
    decreases x,
{
    if x <= 0 {
        0
    } else {
        leaders_in_row(g, y, x - 1) + if leader(g, (x - 1, y)) {
            1nat
        } else {
            0nat
        }
    }
}

/// The number of leaders in the rows below `y`.
pub open spec fn leaders_in_rows(g: Seq<Seq<bool>>, y: int) -> nat
    decreases y,
{
    if y <= 0 {
        0
    } else {
        leaders_in_rows(g, y - 1) + leaders_in_row(g, y - 1, width(g))
    }
}

/// The number of clusters: maximal 8-connected regions of active cells.
pub open spec fn cluster_count(g: Seq<Seq<bool>>) -> nat {
    leaders_in_rows(g, height(g))
}

/// Whether no cell is active.
pub open spec fn all_inactive(g: Seq<Seq<bool>>) -> bool {
    forall|c: Cell| in_bounds(g, c) ==> !#[trigger] g[c.0][c.1]
}

} // verus!
