//! Counting over the grid: how many cells are reached, how many interior
//! passage-pairs are carved, how many coins sit in cells, and how many cells
//! are dead ends. All four counts are the same double sum with a different
//! per-cell weight, so the bookkeeping lemmas are shared.

use crate::maze::{cell_at, in_bounds, marked, open_at, Cell, Direction};
use vstd::prelude::*;

verus! {

/// Which per-cell quantity a grid sum adds up.
pub enum CountKind {
    /// Cells with at least one carved passage.
    Marked,
    /// Interior passage-pairs, each counted once at its west or north cell.
    Pairs,
    /// Cells holding a coin.
    Coins,
    /// Cells with exactly one carved passage.
    DeadEnds,
    /// Closed passages: the faces of the cell with no carved passage.
    Closed,
}

/// How many of a cell's four faces have no carved passage.
pub open spec fn closed_count(c: Cell) -> int {
    (if c.directions@.contains(Direction::North) {
        0int
    } else {
        1int
    }) + (if c.directions@.contains(Direction::South) {
        0int
    } else {
        1int
    }) + (if c.directions@.contains(Direction::East) {
        0int
    } else {
        1int
    }) + (if c.directions@.contains(Direction::West) {
        0int
    } else {
        1int
    })
}

/// How many interior passage-pairs cell `(x, y)` is the canonical (west or
/// north) end of: its east passage when a column follows, plus its south
/// passage when a row follows. Under the generator's symmetry every interior
/// pair is counted exactly once this way, and the two boundary-facing gate
/// carves are never counted.
pub open spec fn pair_weight(g: Seq<Vec<Cell>>, size: int, x: int, y: int) -> int {
    (if open_at(g, x, y, Direction::East) && x + 1 < size {
        1int
    } else {
        0int
    }) + (if open_at(g, x, y, Direction::South) && y + 1 < size {
        1int
    } else {
        0int
    })
}

/// The weight of cell `(x, y)` under count `k`.
pub open spec fn cw(k: CountKind, g: Seq<Vec<Cell>>, size: int, x: int, y: int) -> int {
    match k {
        CountKind::Marked => if marked(g, x, y) {
            1int
        } else {
            0int
        },
        CountKind::Pairs => pair_weight(g, size, x, y),
        CountKind::Coins => if cell_at(g, x, y).coin {
            1int
        } else {
            0int
        },
        CountKind::DeadEnds => if cell_at(g, x, y).directions@.len() == 1 {
            1int
        } else {
            0int
        },
        CountKind::Closed => closed_count(cell_at(g, x, y)),
    }
}

/// The sum of the weights of cells `(0, y)` through `(x - 1, y)`.
pub open spec fn row_total(k: CountKind, g: Seq<Vec<Cell>>, size: int, y: int, x: int) -> int
    decreases x,
{
    if x <= 0 {
        0
    } else {
        row_total(k, g, size, y, x - 1) + cw(k, g, size, x - 1, y)
    }
}

/// The sum of the weights of all cells in rows `0` through `y - 1`.
pub open spec fn rows_total(k: CountKind, g: Seq<Vec<Cell>>, size: int, y: int) -> int
    decreases y,
{
    if y <= 0 {
        0
    } else {
        rows_total(k, g, size, y - 1) + row_total(k, g, size, y - 1, size)
    }
}

/// The sum of the weights of every cell of the grid.
pub open spec fn grid_total(k: CountKind, g: Seq<Vec<Cell>>, size: int) -> int {
    rows_total(k, g, size, size)
}

/// Number of interior passage-pairs of the grid.
pub open spec fn pair_total(g: Seq<Vec<Cell>>, size: int) -> int {
    grid_total(CountKind::Pairs, g, size)
}

/// Number of cells of the grid holding a coin.
pub open spec fn coin_total(g: Seq<Vec<Cell>>, size: int) -> int {
    grid_total(CountKind::Coins, g, size)
}

/// Number of cells of the grid with exactly one carved passage.
pub open spec fn dead_end_total(g: Seq<Vec<Cell>>, size: int) -> int {
    grid_total(CountKind::DeadEnds, g, size)
}

/// Every weight is small: at most one per cell for the cell-counting kinds,
/// two passage-pairs, four closed faces.
pub proof fn lemma_cw_bound(k: CountKind, g: Seq<Vec<Cell>>, size: int, x: int, y: int)
    ensures
        0 <= cw(k, g, size, x, y) <= 4,
        k is Pairs ==> cw(k, g, size, x, y) <= 2,
        !(k is Pairs) && !(k is Closed) ==> cw(k, g, size, x, y) <= 1,
{
}

/// Two grids whose cells weigh the same over a row prefix sum the same there.
proof fn lemma_row_congruent(
    k: CountKind,
    g1: Seq<Vec<Cell>>,
    g2: Seq<Vec<Cell>>,
    size: int,
    y: int,
    x: int,
)
    requires
        forall|i: int| 0 <= i < x ==> #[trigger] cw(k, g1, size, i, y) == cw(k, g2, size, i, y),
    ensures
        row_total(k, g1, size, y, x) == row_total(k, g2, size, y, x),
    decreases x,
{
    if x > 0 {
        lemma_row_congruent(k, g1, g2, size, y, x - 1);
    }
}

/// Two grids whose cells weigh the same everywhere below row `y` sum the same.
proof fn lemma_rows_congruent(
    k: CountKind,
    g1: Seq<Vec<Cell>>,
    g2: Seq<Vec<Cell>>,
    size: int,
    y: int,
)
    requires
        forall|i: int, j: int|
            0 <= i < size && 0 <= j < y ==> #[trigger] cw(k, g1, size, i, j) == cw(
                k,
                g2,
                size,
                i,
                j,
            ),
    ensures
        rows_total(k, g1, size, y) == rows_total(k, g2, size, y),
    decreases y,
{
    if y > 0 {
        lemma_rows_congruent(k, g1, g2, size, y - 1);
        lemma_row_congruent(k, g1, g2, size, y - 1, size);
    }
}

/// Two grids whose cells weigh the same everywhere have the same total.
pub proof fn lemma_total_congruent(
    k: CountKind,
    g1: Seq<Vec<Cell>>,
    g2: Seq<Vec<Cell>>,
    size: int,
)
    requires
        forall|i: int, j: int|
            in_bounds(size, i, j) ==> #[trigger] cw(k, g1, size, i, j) == cw(k, g2, size, i, j),
    ensures
        grid_total(k, g1, size) == grid_total(k, g2, size),
{
    assert forall|i: int, j: int| 0 <= i < size && 0 <= j < size implies #[trigger] cw(
        k,
        g1,
        size,
        i,
        j,
    ) == cw(k, g2, size, i, j) by {
        assert(in_bounds(size, i, j));
    }
    lemma_rows_congruent(k, g1, g2, size, size);
}

/// A row sum changes by the weight difference of the one cell that changed.
proof fn lemma_row_update(
    k: CountKind,
    g1: Seq<Vec<Cell>>,
    g2: Seq<Vec<Cell>>,
    size: int,
    y: int,
    x: int,
    x0: int,
)
    requires
        0 <= x0 < x,
        forall|i: int|
            0 <= i < x && i != x0 ==> #[trigger] cw(k, g1, size, i, y) == cw(k, g2, size, i, y),
    ensures
        row_total(k, g2, size, y, x) == row_total(k, g1, size, y, x) - cw(k, g1, size, x0, y) + cw(
            k,
            g2,
            size,
            x0,
            y,
        ),
    decreases x,
{
    if x0 == x - 1 {
        lemma_row_congruent(k, g1, g2, size, y, x - 1);
    } else {
        lemma_row_update(k, g1, g2, size, y, x - 1, x0);
    }
}

/// A grid total changes by the weight difference of the one cell that changed.
pub proof fn lemma_total_update(
    k: CountKind,
    g1: Seq<Vec<Cell>>,
    g2: Seq<Vec<Cell>>,
    size: int,
    x0: int,
    y0: int,
)
    requires
        in_bounds(size, x0, y0),
        forall|i: int, j: int|
            in_bounds(size, i, j) && !(i == x0 && j == y0) ==> #[trigger] cw(k, g1, size, i, j)
                == cw(k, g2, size, i, j),
    ensures
        grid_total(k, g2, size) == grid_total(k, g1, size) - cw(k, g1, size, x0, y0) + cw(
            k,
            g2,
            size,
            x0,
            y0,
        ),
{
    lemma_rows_update(k, g1, g2, size, size, x0, y0);
}

/// As `lemma_total_update`, over the rows below `y`.
proof fn lemma_rows_update(
    k: CountKind,
    g1: Seq<Vec<Cell>>,
    g2: Seq<Vec<Cell>>,
    size: int,
    y: int,
    x0: int,
    y0: int,
)
    requires
        0 <= x0 < size,
        0 <= y0 < y,
        forall|i: int, j: int|
            0 <= i < size && 0 <= j < y && !(i == x0 && j == y0) ==> #[trigger] cw(k, g1, size, i, j)
                == cw(k, g2, size, i, j),
    ensures
        rows_total(k, g2, size, y) == rows_total(k, g1, size, y) - cw(k, g1, size, x0, y0) + cw(
            k,
            g2,
            size,
            x0,
            y0,
        ),
    decreases y,
{
    if y0 == y - 1 {
        lemma_rows_congruent(k, g1, g2, size, y - 1);
        lemma_row_update(k, g1, g2, size, y - 1, size, x0);
    } else {
        lemma_rows_update(k, g1, g2, size, y - 1, x0, y0);
        lemma_row_congruent(k, g1, g2, size, y - 1, size);
    }
}

/// A row sum of a prefix sits between 0 and four times the prefix length.
proof fn lemma_row_bounds(k: CountKind, g: Seq<Vec<Cell>>, size: int, y: int, x: int)
    requires
        x >= 0,
    ensures
        0 <= row_total(k, g, size, y, x) <= 4 * x,
        !(k is Pairs) && !(k is Closed) ==> row_total(k, g, size, y, x) <= x,
    decreases x,
{
    if x > 0 {
        lemma_row_bounds(k, g, size, y, x - 1);
        lemma_cw_bound(k, g, size, x - 1, y);
    }
}

/// A grid total sits between 0 and four times the cell count.
pub proof fn lemma_rows_bounds(k: CountKind, g: Seq<Vec<Cell>>, size: int, y: int)
    requires
        y >= 0,
        size >= 0,
    ensures
        0 <= rows_total(k, g, size, y) <= 4 * y * size,
        !(k is Pairs) && !(k is Closed) ==> rows_total(k, g, size, y) <= y * size,
    decreases y,
{
    if y > 0 {
        lemma_rows_bounds(k, g, size, y - 1);
        lemma_row_bounds(k, g, size, y - 1, size);
        assert(4 * (y - 1) * size + 4 * size == 4 * y * size) by (nonlinear_arith);
        assert((y - 1) * size + size == y * size) by (nonlinear_arith);
    }
}

/// A row sum over cells that all weigh `w` is `w` per cell.
proof fn lemma_row_constant(k: CountKind, g: Seq<Vec<Cell>>, size: int, y: int, x: int, w: int)
    requires
        x >= 0,
        forall|i: int| 0 <= i < x ==> #[trigger] cw(k, g, size, i, y) == w,
    ensures
        row_total(k, g, size, y, x) == w * x,
    decreases x,
{
    if x > 0 {
        lemma_row_constant(k, g, size, y, x - 1, w);
        assert(w * (x - 1) + w == w * x) by (nonlinear_arith);
    } else {
        assert(x == 0 ==> w * x == 0) by (nonlinear_arith);
    }
}

/// A grid total over cells that all weigh `w` is `w` per cell.
pub proof fn lemma_total_constant(k: CountKind, g: Seq<Vec<Cell>>, size: int, w: int)
    requires
        size >= 0,
        forall|i: int, j: int| in_bounds(size, i, j) ==> #[trigger] cw(k, g, size, i, j) == w,
    ensures
        grid_total(k, g, size) == w * size * size,
{
    lemma_rows_constant(k, g, size, size, w);
    assert(w * (size * size) == w * size * size) by (nonlinear_arith);
}

/// As `lemma_total_constant`, over the rows below `y`.
proof fn lemma_rows_constant(k: CountKind, g: Seq<Vec<Cell>>, size: int, y: int, w: int)
    requires
        y >= 0,
        size >= 0,
        forall|i: int, j: int|
            0 <= i < size && 0 <= j < y ==> #[trigger] cw(k, g, size, i, j) == w,
    ensures
        rows_total(k, g, size, y) == w * (y * size),
    decreases y,
{
    if y > 0 {
        lemma_rows_constant(k, g, size, y - 1, w);
        lemma_row_constant(k, g, size, y - 1, size, w);
        assert(w * ((y - 1) * size) + w * size == w * (y * size)) by (nonlinear_arith);
    } else {
        assert(w * (0 * size) == 0) by (nonlinear_arith);
    }
}

} // verus!
