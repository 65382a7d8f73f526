//! Deriving the resolver's obstacle field from a maze: one axis-aligned wall
//! rectangle per closed passage of every cell, sized so that the walls of
//! adjacent cells abut exactly. Geometry is in the resolver's integer units:
//! cell centers sit on a pitch of `2 * (half_cell + half_border)`, walls are
//! `2 * half_border` thick and overhang the cell by the border on both ends.

use crate::collision::{rect_within, Rect, COORD_BOUND};
use crate::maze::{cell_at, dir_dx, dir_dy, grid_wf, in_bounds, open_at, Cell, Direction, Maze};
use vstd::prelude::*;

verus! {

/// The largest grid coordinate and the largest geometry unit `wall_rects`
/// accepts; keeps every wall center and extent within `COORD_BOUND`.
pub const GEOM_BOUND: i64 = 0x10000;

/// Distance between the centers of two adjacent cells.
pub open spec fn pitch(half_cell: int, half_border: int) -> int {
    2 * half_cell + 2 * half_border
}

/// `r` is the wall rectangle of the `d` face of cell `(x, y)`: centered one
/// half-cell and one half-border out from the cell's center, a border thick
/// across the passage and a cell plus two borders long along it.
pub open spec fn is_wall_rect(
    r: Rect,
    x: int,
    y: int,
    d: Direction,
    half_cell: int,
    half_border: int,
) -> bool {
    let p = pitch(half_cell, half_border);
    let off = half_cell + half_border;
    let long = half_cell + 2 * half_border;
    &&& r.cx == x * p + off * dir_dx(d)
    &&& r.cy == y * p + off * dir_dy(d)
    &&& r.hw == (if d is East || d is West {
        half_border
    } else {
        long
    })
    &&& r.hh == (if d is East || d is West {
        long
    } else {
        half_border
    })
}

/// `r` is the wall of one of the closed passages of cell `c` at `(x, y)`.
pub open spec fn wall_of_cell(
    r: Rect,
    c: Cell,
    x: int,
    y: int,
    half_cell: int,
    half_border: int,
) -> bool {
    exists|d: Direction|
        !c.directions@.contains(d) && #[trigger] is_wall_rect(r, x, y, d, half_cell, half_border)
}

/// `r` is the wall of one of the closed passages of some cell of grid `g`.
pub open spec fn wall_of_grid(
    r: Rect,
    g: Seq<Vec<Cell>>,
    size: int,
    half_cell: int,
    half_border: int,
) -> bool {
    exists|x: int, y: int, d: Direction|
        in_bounds(size, x, y) && !open_at(g, x, y, d) && #[trigger] is_wall_rect(
            r,
            x,
            y,
            d,
            half_cell,
            half_border,
        )
}

/// The list `ws` holds the wall of the `d` face of cell `(x, y)`.
pub open spec fn holds_wall(
    ws: Seq<Rect>,
    x: int,
    y: int,
    d: Direction,
    half_cell: int,
    half_border: int,
) -> bool {
    exists|k: int|
        0 <= k < ws.len() && is_wall_rect(#[trigger] ws[k], x, y, d, half_cell, half_border)
}

/// Appending rectangles loses no wall the list already holds.
proof fn lemma_holds_wall_extend(
    ws1: Seq<Rect>,
    ws2: Seq<Rect>,
    x: int,
    y: int,
    d: Direction,
    hc: int,
    hb: int,
)
    requires
        holds_wall(ws1, x, y, d, hc, hb),
        ws2.len() >= ws1.len(),
        forall|k: int| 0 <= k < ws1.len() ==> ws2[k] == ws1[k],
    ensures
        holds_wall(ws2, x, y, d, hc, hb),
{
    let k = choose|k: int|
        0 <= k < ws1.len() && is_wall_rect(#[trigger] ws1[k], x, y, d, hc, hb);
    assert(ws2[k] == ws1[k]);
    assert(is_wall_rect(ws2[k], x, y, d, hc, hb));
}

/// The four directions in the order `push_cell_walls` scans them.
spec fn dir_at(j: int) -> Direction {
    if j == 0 {
        Direction::North
    } else if j == 1 {
        Direction::South
    } else if j == 2 {
        Direction::East
    } else {
        Direction::West
    }
}

/// How many of the first `j` scanned faces of `c` are closed.
spec fn closed_upto(c: Cell, j: int) -> int
    decreases j,
{
    if j <= 0 {
        0
    } else {
        closed_upto(c, j - 1) + (if c.directions@.contains(dir_at(j - 1)) {
            0int
        } else {
            1int
        })
    }
}

/// Scanning all four faces counts every closed one.
proof fn lemma_closed_upto_all(c: Cell)
    ensures
        closed_upto(c, 4) == crate::counts::closed_count(c),
{
    assert(closed_upto(c, 0) == 0);
    assert(closed_upto(c, 1) == closed_upto(c, 0) + (if c.directions@.contains(Direction::North) {
        0int
    } else {
        1int
    }));
    assert(closed_upto(c, 2) == closed_upto(c, 1) + (if c.directions@.contains(Direction::South) {
        0int
    } else {
        1int
    }));
    assert(closed_upto(c, 3) == closed_upto(c, 2) + (if c.directions@.contains(Direction::East) {
        0int
    } else {
        1int
    }));
    assert(closed_upto(c, 4) == closed_upto(c, 3) + (if c.directions@.contains(Direction::West) {
        0int
    } else {
        1int
    }));
}

/// The wall rectangle of the `d` face of cell `(x, y)`.
fn wall_rect(x: usize, y: usize, d: Direction, half_cell: i64, half_border: i64) -> (r: Rect)
    requires
        x <= GEOM_BOUND as int,
        y <= GEOM_BOUND as int,
        0 <= half_cell <= GEOM_BOUND as int,
        0 <= half_border <= GEOM_BOUND as int,
    ensures
        is_wall_rect(r, x as int, y as int, d, half_cell as int, half_border as int),
        rect_within(r, COORD_BOUND as int),
{
    let p = 2 * half_cell + 2 * half_border;
    let off = half_cell + half_border;
    let long = half_cell + 2 * half_border;
    proof {
        assert(0 <= (x as int) * (p as int) <= 0x10000 * 0x40000 && 0 <= (y as int) * (p as int)
            <= 0x10000 * 0x40000) by (nonlinear_arith)
            requires
                0 <= x as int <= 0x10000,
                0 <= y as int <= 0x10000,
                0 <= p as int <= 0x40000,
        ;
    }
    let base_x = x as i64 * p;
    let base_y = y as i64 * p;
    let cx = match d {
        Direction::East => base_x + off,
        Direction::West => base_x - off,
        _ => base_x,
    };
    let cy = match d {
        Direction::South => base_y + off,
        Direction::North => base_y - off,
        _ => base_y,
    };
    let (hw, hh): (i64, i64) = match d {
        Direction::East | Direction::West => (half_border, long),
        Direction::North | Direction::South => (long, half_border),
    };
    Rect { cx, cy, hw, hh }
}

/// Does the cell list this passage as open?
fn has_open(c: &Cell, d: Direction) -> (r: bool)
    ensures
        r == c.directions@.contains(d),
{
    let mut i: usize = 0;
    while i < c.directions.len()
        invariant
            i <= c.directions@.len(),
            forall|j: int| 0 <= j < i ==> c.directions@[j] != d,
        decreases c.directions@.len() - i,
    {
        if c.directions[i] == d {
            return true;
        }
        i += 1;
    }
    false
}

/// Append one wall per closed passage of cell `(x, y)` to `walls`.
fn push_cell_walls(
    walls: &mut Vec<Rect>,
    c: &Cell,
    x: usize,
    y: usize,
    half_cell: i64,
    half_border: i64,
)
    requires
        x <= GEOM_BOUND as int,
        y <= GEOM_BOUND as int,
        0 <= half_cell <= GEOM_BOUND as int,
        0 <= half_border <= GEOM_BOUND as int,
    ensures
        final(walls)@.len() == old(walls)@.len() + crate::counts::closed_count(*c),
        forall|k: int| 0 <= k < old(walls)@.len() ==> final(walls)@[k] == old(walls)@[k],
        forall|k: int|
            old(walls)@.len() <= k < final(walls)@.len() ==> rect_within(
                #[trigger] final(walls)@[k],
                COORD_BOUND as int,
            ) && wall_of_cell(
                final(walls)@[k],
                *c,
                x as int,
                y as int,
                half_cell as int,
                half_border as int,
            ),
        forall|d: Direction|
            !c.directions@.contains(d) ==> holds_wall(
                final(walls)@,
                x as int,
                y as int,
                d,
                half_cell as int,
                half_border as int,
            ),
{
    let ghost n0 = walls@.len() as int;
    let ghost w_init = walls@;
    let ghost hc = half_cell as int;
    let ghost hb = half_border as int;
    let mut j: usize = 0;
    while j < 4
        invariant
            x <= GEOM_BOUND as int,
            y <= GEOM_BOUND as int,
            0 <= half_cell <= GEOM_BOUND as int,
            0 <= half_border <= GEOM_BOUND as int,
            hc == half_cell as int,
            hb == half_border as int,
            j <= 4,
            0 <= n0 <= walls@.len(),
            walls@.len() == n0 + closed_upto(*c, j as int),
            n0 == w_init.len(),
            w_init == old(walls)@,
            forall|k: int| 0 <= k < n0 ==> walls@[k] == w_init[k],
            forall|k: int|
                n0 <= k < walls@.len() ==> rect_within(#[trigger] walls@[k], COORD_BOUND as int)
                    && wall_of_cell(walls@[k], *c, x as int, y as int, hc, hb),
            j >= 1 && !c.directions@.contains(Direction::North) ==> holds_wall(
                walls@,
                x as int,
                y as int,
                Direction::North,
                hc,
                hb,
            ),
            j >= 2 && !c.directions@.contains(Direction::South) ==> holds_wall(
                walls@,
                x as int,
                y as int,
                Direction::South,
                hc,
                hb,
            ),
            j >= 3 && !c.directions@.contains(Direction::East) ==> holds_wall(
                walls@,
                x as int,
                y as int,
                Direction::East,
                hc,
                hb,
            ),
            j >= 4 && !c.directions@.contains(Direction::West) ==> holds_wall(
                walls@,
                x as int,
                y as int,
                Direction::West,
                hc,
                hb,
            ),
        decreases 4 - j,
    {
        let d = if j == 0 {
            Direction::North
        } else if j == 1 {
            Direction::South
        } else if j == 2 {
            Direction::East
        } else {
            Direction::West
        };
        let ghost at_head = walls@;
        if !has_open(c, d) {
            let r = wall_rect(x, y, d, half_cell, half_border);
            let ghost before = walls@;
            walls.push(r);
            proof {
                assert(walls@ == before.push(r));
                assert forall|k: int| 0 <= k < before.len() implies #[trigger] walls@[k]
                    == before[k] by {
                    assert(walls@[k] == before.push(r)[k]);
                }
                assert(walls@[before.len() as int] == r);
                assert(wall_of_cell(r, *c, x as int, y as int, hc, hb));
                assert(holds_wall(walls@, x as int, y as int, d, hc, hb)) by {
                    assert(is_wall_rect(walls@[before.len() as int], x as int, y as int, d, hc,
                        hb));
                }
                assert forall|k: int| n0 <= k < walls@.len() implies rect_within(
                    #[trigger] walls@[k],
                    COORD_BOUND as int,
                ) && wall_of_cell(walls@[k], *c, x as int, y as int, hc, hb) by {
                    if k < before.len() {
                        assert(walls@[k] == before[k]);
                    } else {
                        assert(walls@[k] == r);
                    }
                }
                assert forall|e: Direction|
                    e != d && !c.directions@.contains(e) && holds_wall(
                        at_head,
                        x as int,
                        y as int,
                        e,
                        hc,
                        hb,
                    ) implies holds_wall(walls@, x as int, y as int, e, hc, hb) by {
                    lemma_holds_wall_extend(at_head, walls@, x as int, y as int, e, hc, hb);
                }
            }
        }
        j += 1;
    }
    proof {
        lemma_closed_upto_all(*c);
    }
}

/// The obstacle field of a maze: one wall rectangle for each closed passage
/// of each cell, exactly those and nothing else.
pub fn wall_rects(m: &Maze, size: usize, half_cell: i64, half_border: i64) -> (walls: Vec<Rect>)
    requires
        grid_wf(m.path@, size as int),
        size <= GEOM_BOUND as int,
        0 <= half_cell <= GEOM_BOUND as int,
        0 <= half_border <= GEOM_BOUND as int,
    ensures
        walls@.len() == crate::counts::grid_total(
            crate::counts::CountKind::Closed,
            m.path@,
            size as int,
        ),
        forall|k: int|
            0 <= k < walls@.len() ==> rect_within(#[trigger] walls@[k], COORD_BOUND as int)
                && wall_of_grid(
                walls@[k],
                m.path@,
                size as int,
                half_cell as int,
                half_border as int,
            ),
        forall|x: int, y: int, d: Direction|
            in_bounds(size as int, x, y) && !(#[trigger] open_at(m.path@, x, y, d)) ==> holds_wall(
                walls@,
                x,
                y,
                d,
                half_cell as int,
                half_border as int,
            ),
{
    let ghost sz = size as int;
    let ghost hc = half_cell as int;
    let ghost hb = half_border as int;
    let mut walls: Vec<Rect> = Vec::new();
    let mut y: usize = 0;
    while y < size
        invariant
            sz == size as int,
            hc == half_cell as int,
            hb == half_border as int,
            grid_wf(m.path@, sz),
            size <= GEOM_BOUND as int,
            0 <= half_cell <= GEOM_BOUND as int,
            0 <= half_border <= GEOM_BOUND as int,
            y <= size,
            walls@.len() == crate::counts::rows_total(
                crate::counts::CountKind::Closed,
                m.path@,
                sz,
                y as int,
            ),
            forall|k: int|
                0 <= k < walls@.len() ==> rect_within(#[trigger] walls@[k], COORD_BOUND as int)
                    && wall_of_grid(walls@[k], m.path@, sz, hc, hb),
            forall|x0: int, y0: int, d: Direction|
                0 <= y0 < y && 0 <= x0 < sz && !(#[trigger] open_at(m.path@, x0, y0, d))
                    ==> holds_wall(walls@, x0, y0, d, hc, hb),
        decreases size - y,
    {
        let mut x: usize = 0;
        while x < size
            invariant
                sz == size as int,
                hc == half_cell as int,
                hb == half_border as int,
                grid_wf(m.path@, sz),
                size <= GEOM_BOUND as int,
                0 <= half_cell <= GEOM_BOUND as int,
                0 <= half_border <= GEOM_BOUND as int,
                y < size,
                x <= size,
                walls@.len() == crate::counts::rows_total(
                    crate::counts::CountKind::Closed,
                    m.path@,
                    sz,
                    y as int,
                ) + crate::counts::row_total(
                    crate::counts::CountKind::Closed,
                    m.path@,
                    sz,
                    y as int,
                    x as int,
                ),
                forall|k: int|
                    0 <= k < walls@.len() ==> rect_within(#[trigger] walls@[k], COORD_BOUND as int)
                        && wall_of_grid(walls@[k], m.path@, sz, hc, hb),
                forall|x0: int, y0: int, d: Direction|
                    (0 <= y0 < y || (y0 == y && 0 <= x0 < x)) && 0 <= x0 < sz && !(
                    #[trigger] open_at(m.path@, x0, y0, d)) ==> holds_wall(
                        walls@,
                        x0,
                        y0,
                        d,
                        hc,
                        hb,
                    ),
            decreases size - x,
        {
            let ghost w0 = walls@;
            let row: &Vec<Cell> = &m.path[y];
            let c: &Cell = &row[x];
            push_cell_walls(&mut walls, c, x, y, half_cell, half_border);
            proof {
                assert(*c == cell_at(m.path@, x as int, y as int));
                let cl = crate::counts::CountKind::Closed;
                assert(crate::counts::row_total(cl, m.path@, sz, y as int, x as int + 1)
                    == crate::counts::row_total(cl, m.path@, sz, y as int, x as int)
                    + crate::counts::cw(cl, m.path@, sz, x as int, y as int));
                // New entries are walls of this in-bounds cell; old entries
                // have not moved.
                assert forall|k: int| 0 <= k < walls@.len() implies rect_within(
                    #[trigger] walls@[k],
                    COORD_BOUND as int,
                ) && wall_of_grid(walls@[k], m.path@, sz, hc, hb) by {
                    if k < w0.len() {
                        assert(walls@[k] == w0[k]);
                        assert(rect_within(w0[k], COORD_BOUND as int) && wall_of_grid(
                            w0[k],
                            m.path@,
                            sz,
                            hc,
                            hb,
                        ));
                    } else {
                        assert(wall_of_cell(walls@[k], *c, x as int, y as int, hc, hb));
                        let d = choose|d: Direction|
                            !c.directions@.contains(d) && #[trigger] is_wall_rect(
                                walls@[k],
                                x as int,
                                y as int,
                                d,
                                hc,
                                hb,
                            );
                        assert(in_bounds(sz, x as int, y as int) && !open_at(
                            m.path@,
                            x as int,
                            y as int,
                            d,
                        ) && is_wall_rect(walls@[k], x as int, y as int, d, hc, hb));
                    }
                }
                assert forall|x0: int, y0: int, d: Direction|
                    (0 <= y0 < y || (y0 == y && 0 <= x0 < x + 1)) && 0 <= x0 < sz && !(
                    #[trigger] open_at(m.path@, x0, y0, d)) implies holds_wall(
                    walls@,
                    x0,
                    y0,
                    d,
                    hc,
                    hb,
                ) by {
                    if y0 < y || x0 < x {
                        lemma_holds_wall_extend(w0, walls@, x0, y0, d, hc, hb);
                    } else {
                        assert(!c.directions@.contains(d));
                        assert(holds_wall(walls@, x0, y0, d, hc, hb));
                    }
                }
            }
            x += 1;
        }
        proof {
            let cl = crate::counts::CountKind::Closed;
            assert(crate::counts::rows_total(cl, m.path@, sz, y as int + 1)
                == crate::counts::rows_total(cl, m.path@, sz, y as int)
                + crate::counts::row_total(cl, m.path@, sz, y as int, sz));
        }
        y += 1;
    }
    walls
}

} // verus!
