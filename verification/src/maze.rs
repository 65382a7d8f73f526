//! Grid maze data model and the maze generator: cells, cardinal directions,
//! grid coordinates, and the randomized backtracking carver that produces a
//! perfect maze with an entrance, an exit, and coins at dead ends.

use crate::rng::gen_below;
use crate::rng::shuffle;
use vstd::prelude::*;

verus! {

/// One of the four cardinal passages out of a cell.
#[derive(Clone, Copy, Debug, PartialEq, Eq, Structural)]
pub enum Direction {
    North,
    South,
    East,
    West,
}

/// An integer grid coordinate. `x` grows eastward, `y` grows southward.
#[derive(Clone, Copy, Debug, PartialEq, Eq, Structural)]
pub struct Point {
    pub x: i128,
    pub y: i128,
}

/// One square of the grid: the set of carved (open) passages out of it,
/// and whether a collectible coin sits in it.
#[derive(Clone, Debug, PartialEq)]
pub struct Cell {
    pub directions: Vec<Direction>,
    pub coin: bool,
}

impl Cell {
    /// A fresh cell: no passage carved, no coin.
    pub fn new() -> (c: Cell)
        ensures
            c.directions@ == Seq::<Direction>::empty(),
            !c.coin,
    {
        Cell { directions: Vec::new(), coin: false }
    }

    /// Open the passage toward `direction`.
    pub fn carve(&mut self, direction: Direction)
        ensures
            final(self).directions@ == old(self).directions@.push(direction),
            final(self).coin == old(self).coin,
    {
        self.directions.push(direction);
    }

    /// True while no passage has been carved; the generator uses this as
    /// its "unvisited" marker.
    pub fn is_zero(&self) -> (r: bool)
        ensures
            r == (self.directions@.len() == 0),
    {
        self.directions.is_empty()
    }
}

impl Default for Cell {
    fn default() -> (c: Cell)
        ensures
            c.directions@ == Seq::<Direction>::empty(),
            !c.coin,
    {
        Cell::new()
    }
}

/// A generated maze: a square grid of cells, immutable once handed out.
/// `path[y][x]` is the cell in column `x` of row `y`.
#[derive(Clone, Debug, PartialEq)]
pub struct Maze {
    pub path: Vec<Vec<Cell>>,
}

/// At most this many coins are placed, whatever the budget asks: the
/// domain's policy cap.
pub const COIN_CAP: usize = 5;

/// The x offset of one step toward `d`.
pub open spec fn dir_dx(d: Direction) -> int {
    match d {
        Direction::East => 1,
        Direction::West => -1,
        _ => 0,
    }
}

/// The y offset of one step toward `d`.
pub open spec fn dir_dy(d: Direction) -> int {
    match d {
        Direction::North => -1,
        Direction::South => 1,
        _ => 0,
    }
}

/// The direction that leads back: the passage a neighbor must open so that
/// the two carves of one passage face each other.
pub open spec fn opp(d: Direction) -> Direction {
    match d {
        Direction::North => Direction::South,
        Direction::South => Direction::North,
        Direction::East => Direction::West,
        Direction::West => Direction::East,
    }
}

/// True when `(x, y)` is a coordinate of a `size` by `size` grid.
pub open spec fn in_bounds(size: int, x: int, y: int) -> bool {
    0 <= x < size && 0 <= y < size
}

/// The cell of grid `g` in column `x` of row `y`.
pub open spec fn cell_at(g: Seq<Vec<Cell>>, x: int, y: int) -> Cell {
    g[y]@[x]
}

/// The passage toward `d` out of cell `(x, y)` is carved.
pub open spec fn open_at(g: Seq<Vec<Cell>>, x: int, y: int, d: Direction) -> bool {
    cell_at(g, x, y).directions@.contains(d)
}

/// The generator has reached cell `(x, y)`: at least one passage is carved.
pub open spec fn marked(g: Seq<Vec<Cell>>, x: int, y: int) -> bool {
    cell_at(g, x, y).directions@.len() > 0
}

/// The grid is a `size` by `size` matrix of cells.
pub open spec fn grid_wf(g: Seq<Vec<Cell>>, size: int) -> bool {
    &&& g.len() == size
    &&& forall|y: int| 0 <= y < size ==> (#[trigger] g[y])@.len() == size
}

/// No cell of the grid has been reached yet.
pub open spec fn all_zero(g: Seq<Vec<Cell>>, size: int) -> bool {
    forall|x: int, y: int| in_bounds(size, x, y) ==> !(#[trigger] marked(g, x, y))
}

/// Every in-bounds neighbor of cell `(x, y)` has been reached.
pub open spec fn nbrs_marked(g: Seq<Vec<Cell>>, size: int, x: int, y: int) -> bool {
    &&& x + 1 < size ==> marked(g, x + 1, y)
    &&& x - 1 >= 0 ==> marked(g, x - 1, y)
    &&& y + 1 < size ==> marked(g, x, y + 1)
    &&& y - 1 >= 0 ==> marked(g, x, y - 1)
}

/// The unit offset of one step toward `dir`.
pub fn delta_dir(dir: Direction) -> (r: Point)
    ensures
        r.x == dir_dx(dir),
        r.y == dir_dy(dir),
{
    match dir {
        Direction::North => Point { x: 0, y: -1 },
        Direction::South => Point { x: 0, y: 1 },
        Direction::East => Point { x: 1, y: 0 },
        Direction::West => Point { x: -1, y: 0 },
    }
}

/// The direction opposite to `dir`.
pub fn opposite_dir(dir: Direction) -> (r: Direction)
    ensures
        r == opp(dir),
{
    match dir {
        Direction::North => Direction::South,
        Direction::South => Direction::North,
        Direction::East => Direction::West,
        Direction::West => Direction::East,
    }
}

/// The row holding the entrance and the exit.
pub open spec fn mid_row(size: int) -> int {
    size / 2
}

/// Every carved passage faces a carved passage of the adjacent cell: no
/// passage points off the grid and none is one-sided.
pub open spec fn interior_sym(g: Seq<Vec<Cell>>, size: int) -> bool {
    forall|x: int, y: int, d: Direction|
        in_bounds(size, x, y) && #[trigger] open_at(g, x, y, d) ==> in_bounds(
            size,
            x + dir_dx(d),
            y + dir_dy(d),
        ) && open_at(g, x + dir_dx(d), y + dir_dy(d), opp(d))
}

/// As `interior_sym`, except for the two boundary-facing gate carves:
/// the entrance at the west face of `(0, mid)` and the exit at the east
/// face of `(size - 1, mid)`.
pub open spec fn sym_except_gates(g: Seq<Vec<Cell>>, size: int) -> bool {
    forall|x: int, y: int, d: Direction|
        in_bounds(size, x, y) && #[trigger] open_at(g, x, y, d) ==> {
            ||| (in_bounds(size, x + dir_dx(d), y + dir_dy(d)) && open_at(
                g,
                x + dir_dx(d),
                y + dir_dy(d),
                opp(d),
            ))
            ||| (x == 0 && y == mid_row(size) && d == Direction::West)
            ||| (x == size - 1 && y == mid_row(size) && d == Direction::East)
        }
}

/// No cell lists the same carved passage twice, so the length of its
/// direction list is its number of open passages.
pub open spec fn no_dup_all(g: Seq<Vec<Cell>>, size: int) -> bool {
    forall|x: int, y: int|
        in_bounds(size, x, y) ==> (#[trigger] cell_at(g, x, y)).directions@.no_duplicates()
}

/// A `size` by `size` grid of fresh cells.
fn fresh_grid(size: usize) -> (path: Vec<Vec<Cell>>)
    ensures
        grid_wf(path@, size as int),
        forall|x: int, y: int|
            in_bounds(size as int, x, y) ==> (#[trigger] cell_at(path@, x, y)).directions@.len()
                == 0 && !cell_at(path@, x, y).coin,
{
    let mut path: Vec<Vec<Cell>> = Vec::new();
    let mut y: usize = 0;
    while y < size
        invariant
            path@.len() == y,
            y <= size,
            forall|j: int| 0 <= j < y ==> (#[trigger] path@[j])@.len() == size,
            forall|x: int, j: int|
                0 <= x < size && 0 <= j < y ==> (#[trigger] cell_at(
                    path@,
                    x,
                    j,
                )).directions@.len() == 0 && !cell_at(path@, x, j).coin,
        decreases size - y,
    {
        let mut row: Vec<Cell> = Vec::new();
        let mut x: usize = 0;
        while x < size
            invariant
                row@.len() == x,
                x <= size,
                forall|i: int|
                    0 <= i < x ==> (#[trigger] row@[i]).directions@.len() == 0 && !row@[i].coin,
            decreases size - x,
        {
            row.push(Cell::new());
            x += 1;
        }
        let ghost before = path@;
        path.push(row);
        proof {
            assert forall|x: int, j: int| 0 <= x < size && 0 <= j < y + 1 implies (
            #[trigger] cell_at(path@, x, j)).directions@.len() == 0 && !cell_at(
                path@,
                x,
                j,
            ).coin by {
                if j < y {
                    assert(path@[j] == before[j]);
                    assert(cell_at(before, x, j) == cell_at(path@, x, j));
                } else {
                    assert(path@[j] == row);
                }
            }
        }
        y += 1;
    }
    path
}

/// Open the passage toward `d` in cell `(x, y)` of the grid, touching no
/// other cell and nothing else of that cell.
fn carve_at(path: &mut Vec<Vec<Cell>>, size: usize, x: usize, y: usize, d: Direction)
    requires
        grid_wf(old(path)@, size as int),
        in_bounds(size as int, x as int, y as int),
    ensures
        grid_wf(final(path)@, size as int),
        cell_at(final(path)@, x as int, y as int).directions@ == cell_at(
            old(path)@,
            x as int,
            y as int,
        ).directions@.push(d),
        cell_at(final(path)@, x as int, y as int).coin == cell_at(
            old(path)@,
            x as int,
            y as int,
        ).coin,
        forall|i: int, j: int|
            in_bounds(size as int, i, j) && !(i == x as int && j == y as int)
                ==> #[trigger] cell_at(final(path)@, i, j) == cell_at(old(path)@, i, j),
{
    let row: &mut Vec<Cell> = &mut path[y];
    let c: &mut Cell = &mut row[x];
    c.carve(d);
}

/// Put a coin in cell `(x, y)`, touching no other cell and no passage.
fn set_coin_at(path: &mut Vec<Vec<Cell>>, size: usize, x: usize, y: usize)
    requires
        grid_wf(old(path)@, size as int),
        in_bounds(size as int, x as int, y as int),
    ensures
        grid_wf(final(path)@, size as int),
        cell_at(final(path)@, x as int, y as int).directions@ == cell_at(
            old(path)@,
            x as int,
            y as int,
        ).directions@,
        cell_at(final(path)@, x as int, y as int).coin,
        forall|i: int, j: int|
            in_bounds(size as int, i, j) && !(i == x as int && j == y as int)
                ==> #[trigger] cell_at(final(path)@, i, j) == cell_at(old(path)@, i, j),
{
    let row: &mut Vec<Cell> = &mut path[y];
    let c: &mut Cell = &mut row[x];
    c.coin = true;
}

/// Appending to a list adds exactly that element to what it holds.
proof fn lemma_push_contains<A>(s: Seq<A>, a: A, b: A)
    ensures
        s.push(a).contains(b) <==> (s.contains(b) || a == b),
{
    if s.contains(b) {
        let i = choose|i: int| 0 <= i < s.len() && s[i] == b;
        assert(s.push(a)[i] == b);
    }
    if a == b {
        assert(s.push(a)[s.len() as int] == b);
    }
    if s.push(a).contains(b) {
        let i = choose|i: int| 0 <= i < s.push(a).len() && s.push(a)[i] == b;
        if i < s.len() {
            assert(s[i] == b);
        }
    }
}

/// Appending an element a list does not hold keeps it free of repeats.
proof fn lemma_push_no_dup<A>(s: Seq<A>, a: A)
    requires
        s.no_duplicates(),
        !s.contains(a),
    ensures
        s.push(a).no_duplicates(),
{
    let q = s.push(a);
    assert forall|i: int, j: int| 0 <= i < q.len() && 0 <= j < q.len() && i != j implies q[i]
        != q[j] by {
        if i < s.len() && j < s.len() {
        } else if j == s.len() {
            assert(q[i] == s[i]);
        } else {
            assert(q[j] == s[j]);
        }
    }
}

/// Stepping from `(tx, ty)` toward `d` lands in bounds on a cell the
/// generator has not reached yet.
pub open spec fn step_target_ok(
    g: Seq<Vec<Cell>>,
    size: int,
    tx: int,
    ty: int,
    d: Direction,
) -> bool {
    &&& in_bounds(size, tx + dir_dx(d), ty + dir_dy(d))
    &&& !marked(g, tx + dir_dx(d), ty + dir_dy(d))
}

/// Scan `dirs` in order for the first direction whose neighbor is in bounds
/// and unreached.
fn pick_direction(
    path: &Vec<Vec<Cell>>,
    size: usize,
    top: Point,
    dirs: &Vec<Direction>,
) -> (r: Option<Direction>)
    requires
        grid_wf(path@, size as int),
        in_bounds(size as int, top.x as int, top.y as int),
    ensures
        match r {
            Some(d) => dirs@.contains(d) && step_target_ok(
                path@,
                size as int,
                top.x as int,
                top.y as int,
                d,
            ),
            None => forall|i: int|
                0 <= i < dirs@.len() ==> !step_target_ok(
                    path@,
                    size as int,
                    top.x as int,
                    top.y as int,
                    #[trigger] dirs@[i],
                ),
        },
{
    let mut k: usize = 0;
    while k < dirs.len()
        invariant
            grid_wf(path@, size as int),
            in_bounds(size as int, top.x as int, top.y as int),
            k <= dirs@.len(),
            forall|i: int|
                0 <= i < k ==> !step_target_ok(
                    path@,
                    size as int,
                    top.x as int,
                    top.y as int,
                    #[trigger] dirs@[i],
                ),
        decreases dirs@.len() - k,
    {
        let d = dirs[k];
        let delta = delta_dir(d);
        let nx = top.x + delta.x;
        let ny = top.y + delta.y;
        if nx >= 0 && ny >= 0 && nx < size as i128 && ny < size as i128 {
            if path[ny as usize][nx as usize].is_zero() {
                return Some(d);
            }
        }
        k += 1;
    }
    None
}

/// The four cardinal directions in a freshly randomized order.
fn shuffled_directions(rng: &mut rand::rngs::StdRng) -> (dirs: Vec<Direction>)
    ensures
        dirs@.len() == 4,
        dirs@.contains(Direction::North),
        dirs@.contains(Direction::South),
        dirs@.contains(Direction::East),
        dirs@.contains(Direction::West),
{
    let mut dirs: Vec<Direction> = Vec::new();
    dirs.push(Direction::North);
    dirs.push(Direction::South);
    dirs.push(Direction::East);
    dirs.push(Direction::West);
    let ghost before = dirs@;
    shuffle(rng, &mut dirs);
    proof {
        broadcast use vstd::seq_lib::group_to_multiset_ensures;

        assert(before.len() == 4);
        assert(before[0] == Direction::North && before[1] == Direction::South && before[2]
            == Direction::East && before[3] == Direction::West);
        assert(before.contains(Direction::North) && before.contains(Direction::South)
            && before.contains(Direction::East) && before.contains(Direction::West));
        assert(dirs@.to_multiset().len() == before.to_multiset().len());
        assert(dirs@.to_multiset().count(Direction::North) == before.to_multiset().count(
            Direction::North,
        ));
        assert(dirs@.to_multiset().count(Direction::South) == before.to_multiset().count(
            Direction::South,
        ));
        assert(dirs@.to_multiset().count(Direction::East) == before.to_multiset().count(
            Direction::East,
        ));
        assert(dirs@.to_multiset().count(Direction::West) == before.to_multiset().count(
            Direction::West,
        ));
    }
    dirs
}

/// The frontier stack holds coordinate `(x, y)`.
pub open spec fn on_stack(s: Seq<Point>, x: int, y: int) -> bool {
    exists|i: int| 0 <= i < s.len() && s[i].x == x && s[i].y == y
}

/// Grid `g2` is grid `g1` with one more passage carved in cell `(x, y)`.
spec fn carved(g1: Seq<Vec<Cell>>, g2: Seq<Vec<Cell>>, size: int, x: int, y: int, d: Direction) -> bool {
    &&& grid_wf(g2, size)
    &&& cell_at(g2, x, y).directions@ == cell_at(g1, x, y).directions@.push(d)
    &&& cell_at(g2, x, y).coin == cell_at(g1, x, y).coin
    &&& forall|i: int, j: int|
        in_bounds(size, i, j) && !(i == x && j == y) ==> #[trigger] cell_at(g2, i, j) == cell_at(
            g1,
            i,
            j,
        )
}

/// Stepping toward `opp(d)` undoes a step toward `d`.
proof fn lemma_opp_delta(d: Direction)
    ensures
        dir_dx(opp(d)) == -dir_dx(d),
        dir_dy(opp(d)) == -dir_dy(d),
        opp(opp(d)) == d,
{
}

/// What one carve of a passage-pair does to the grid's structure: the two
/// facing passages open, every other passage stands as it was, and the
/// symmetry and no-repeat invariants carry over.
proof fn lemma_carve_pair_structure(
    g0: Seq<Vec<Cell>>,
    g1: Seq<Vec<Cell>>,
    g2: Seq<Vec<Cell>>,
    size: int,
    tx: int,
    ty: int,
    d: Direction,
)
    requires
        grid_wf(g0, size),
        in_bounds(size, tx, ty),
        step_target_ok(g0, size, tx, ty, d),
        interior_sym(g0, size),
        no_dup_all(g0, size),
        carved(g0, g1, size, tx, ty, d),
        carved(g1, g2, size, tx + dir_dx(d), ty + dir_dy(d), opp(d)),
    ensures
        interior_sym(g2, size),
        no_dup_all(g2, size),
        forall|x: int, y: int, e: Direction|
            in_bounds(size, x, y) && #[trigger] open_at(g0, x, y, e) ==> open_at(g2, x, y, e),
        forall|x: int, y: int|
            in_bounds(size, x, y) && #[trigger] marked(g0, x, y) ==> marked(g2, x, y),
        forall|x: int, y: int|
            in_bounds(size, x, y) && #[trigger] marked(g2, x, y) ==> marked(g0, x, y) || (x == tx
                && y == ty) || (x == tx + dir_dx(d) && y == ty + dir_dy(d)),
        forall|x: int, y: int|
            in_bounds(size, x, y) ==> #[trigger] cell_at(g2, x, y).coin == cell_at(g0, x, y).coin,
        marked(g2, tx, ty),
        marked(g2, tx + dir_dx(d), ty + dir_dy(d)),
        crate::paths::step_open(g2, size, tx, ty, tx + dir_dx(d), ty + dir_dy(d)),
        !open_at(g0, tx, ty, d),
{
    let nx = tx + dir_dx(d);
    let ny = ty + dir_dy(d);
    lemma_opp_delta(d);
    assert(!(nx == tx && ny == ty));
    // The carved-into cell was unreached, so it had no passage at all.
    assert(cell_at(g0, nx, ny).directions@.len() == 0);
    assert(cell_at(g1, nx, ny) == cell_at(g0, nx, ny));
    // Were `d` already open out of `(tx, ty)`, its facing passage would be
    // open out of the unreached neighbor.
    assert(!open_at(g0, tx, ty, d)) by {
        if open_at(g0, tx, ty, d) {
            assert(open_at(g0, nx, ny, opp(d)));
            assert(cell_at(g0, nx, ny).directions@.contains(opp(d)));
        }
    }
    lemma_push_contains(cell_at(g0, tx, ty).directions@, d, d);
    lemma_push_contains(cell_at(g0, nx, ny).directions@, opp(d), opp(d));
    // The carves reach g2 cell by cell.
    assert(cell_at(g2, tx, ty) == cell_at(g1, tx, ty));
    assert(cell_at(g2, tx, ty).directions@ == cell_at(g0, tx, ty).directions@.push(d));
    assert(open_at(g2, tx, ty, d));
    assert(open_at(g2, nx, ny, opp(d)));
    // Exactly which passages are open in g2.
    assert forall|x: int, y: int, e: Direction|
        in_bounds(size, x, y) implies (#[trigger] open_at(g2, x, y, e) <==> (open_at(g0, x, y, e)
        || (x == tx && y == ty && e == d) || (x == nx && y == ny && e == opp(d)))) by {
        if x == tx && y == ty {
            lemma_push_contains(cell_at(g0, tx, ty).directions@, d, e);
        } else if x == nx && y == ny {
            lemma_push_contains(cell_at(g0, nx, ny).directions@, opp(d), e);
        } else {
            assert(cell_at(g1, x, y) == cell_at(g0, x, y));
            assert(cell_at(g2, x, y) == cell_at(g1, x, y));
        }
    }
    // Symmetry: the two new passages face each other; old ones kept their
    // facing passage.
    assert forall|x: int, y: int, e: Direction|
        in_bounds(size, x, y) && #[trigger] open_at(g2, x, y, e) implies in_bounds(
        size,
        x + dir_dx(e),
        y + dir_dy(e),
    ) && open_at(g2, x + dir_dx(e), y + dir_dy(e), opp(e)) by {
        if open_at(g0, x, y, e) {
            assert(open_at(g0, x + dir_dx(e), y + dir_dy(e), opp(e)));
        } else if x == tx && y == ty && e == d {
            assert(open_at(g2, nx, ny, opp(d)));
        } else {
            assert(x == nx && y == ny && e == opp(d));
            assert(open_at(g2, tx, ty, d));
        }
    }
    // No repeats: the carved cells gain a passage they did not hold.
    assert forall|x: int, y: int|
        in_bounds(size, x, y) implies (#[trigger] cell_at(g2, x, y)).directions@.no_duplicates() by {
        if x == tx && y == ty {
            lemma_push_no_dup(cell_at(g0, tx, ty).directions@, d);
        } else if x == nx && y == ny {
            lemma_push_no_dup(cell_at(g0, nx, ny).directions@, opp(d));
        } else {
            assert(cell_at(g2, x, y) == cell_at(g1, x, y));
            assert(cell_at(g1, x, y) == cell_at(g0, x, y));
        }
    }
    // Reached cells, coins: pointwise.
    assert forall|x: int, y: int|
        in_bounds(size, x, y) && !(x == tx && y == ty) && !(x == nx && y == ny) implies
        #[trigger] cell_at(g2, x, y) == cell_at(g0, x, y) by {
        assert(cell_at(g2, x, y) == cell_at(g1, x, y));
    }
    assert(marked(g2, tx, ty)) by {
        assert(cell_at(g2, tx, ty).directions@.len() == cell_at(g0, tx, ty).directions@.len() + 1);
    }
    assert(marked(g2, nx, ny));
    assert(crate::paths::step_open(g2, size, tx, ty, nx, ny));
}

/// What one carve of a passage-pair does to the counts: one more interior
/// passage-pair, and one or two more reached cells.
proof fn lemma_carve_pair_counts(
    g0: Seq<Vec<Cell>>,
    g1: Seq<Vec<Cell>>,
    g2: Seq<Vec<Cell>>,
    size: int,
    tx: int,
    ty: int,
    d: Direction,
)
    requires
        grid_wf(g0, size),
        in_bounds(size, tx, ty),
        step_target_ok(g0, size, tx, ty, d),
        interior_sym(g0, size),
        no_dup_all(g0, size),
        carved(g0, g1, size, tx, ty, d),
        carved(g1, g2, size, tx + dir_dx(d), ty + dir_dy(d), opp(d)),
    ensures
        crate::counts::grid_total(crate::counts::CountKind::Pairs, g2, size)
            == crate::counts::grid_total(crate::counts::CountKind::Pairs, g0, size) + 1,
        crate::counts::grid_total(crate::counts::CountKind::Marked, g2, size)
            == crate::counts::grid_total(crate::counts::CountKind::Marked, g0, size) + (
        if marked(g0, tx, ty) {
            1int
        } else {
            2int
        }),
{
    let nx = tx + dir_dx(d);
    let ny = ty + dir_dy(d);
    lemma_opp_delta(d);
    lemma_carve_pair_structure(g0, g1, g2, size, tx, ty, d);
    let pairs = crate::counts::CountKind::Pairs;
    let mk = crate::counts::CountKind::Marked;
    assert(cell_at(g1, nx, ny) == cell_at(g0, nx, ny));
    assert(cell_at(g2, tx, ty) == cell_at(g1, tx, ty));
    // What each carve does to the carved cell's own passages.
    assert forall|e: Direction| #[trigger]
        open_at(g1, tx, ty, e) <==> (open_at(g0, tx, ty, e) || e == d) by {
        lemma_push_contains(cell_at(g0, tx, ty).directions@, d, e);
    }
    assert forall|e: Direction| #[trigger]
        open_at(g2, nx, ny, e) <==> (open_at(g0, nx, ny, e) || e == opp(d)) by {
        lemma_push_contains(cell_at(g0, nx, ny).directions@, opp(d), e);
    }
    assert(cell_at(g0, nx, ny).directions@.len() == 0);
    // Weight changes at the two carved cells, for both counts.
    assert(crate::counts::cw(mk, g1, size, tx, ty) == 1);
    assert(crate::counts::cw(mk, g1, size, tx, ty) - crate::counts::cw(mk, g0, size, tx, ty) == (
    if marked(g0, tx, ty) {
        0int
    } else {
        1int
    }));
    assert(crate::counts::cw(mk, g2, size, nx, ny) == 1);
    assert(crate::counts::cw(mk, g0, size, nx, ny) == 0);
    // The pair is counted at its west or north cell: at `(tx, ty)` when `d`
    // leads east or south, at the neighbor when `d` leads west or north.
    assert(crate::counts::cw(pairs, g1, size, tx, ty) - crate::counts::cw(pairs, g0, size, tx, ty)
        == (if d == Direction::East || d == Direction::South {
        1int
    } else {
        0int
    })) by {
        assert(open_at(g1, tx, ty, d));
        assert(!open_at(g0, tx, ty, d));
        if d == Direction::East {
            assert(tx + 1 < size);
        } else if d == Direction::South {
            assert(ty + 1 < size);
        }
    }
    assert(crate::counts::cw(pairs, g2, size, nx, ny) - crate::counts::cw(pairs, g1, size, nx, ny)
        == (if d == Direction::West || d == Direction::North {
        1int
    } else {
        0int
    })) by {
        assert(cell_at(g1, nx, ny).directions@.len() == 0);
        assert(!open_at(g1, nx, ny, Direction::East) && !open_at(g1, nx, ny, Direction::South));
        if d == Direction::West {
            assert(opp(d) == Direction::East && nx + 1 == tx < size);
        } else if d == Direction::North {
            assert(opp(d) == Direction::South && ny + 1 == ty < size);
        }
    }
    // Away from the carved cells nothing changed.
    assert forall|k: crate::counts::CountKind, i: int, j: int|
        in_bounds(size, i, j) && !(i == tx && j == ty) implies #[trigger] crate::counts::cw(
        k,
        g1,
        size,
        i,
        j,
    ) == crate::counts::cw(k, g0, size, i, j) by {
        assert(cell_at(g1, i, j) == cell_at(g0, i, j));
    }
    assert forall|k: crate::counts::CountKind, i: int, j: int|
        in_bounds(size, i, j) && !(i == nx && j == ny) implies #[trigger] crate::counts::cw(
        k,
        g2,
        size,
        i,
        j,
    ) == crate::counts::cw(k, g1, size, i, j) by {
        assert(cell_at(g2, i, j) == cell_at(g1, i, j));
    }
    crate::counts::lemma_total_update(pairs, g0, g1, size, tx, ty);
    crate::counts::lemma_total_update(pairs, g1, g2, size, nx, ny);
    crate::counts::lemma_total_update(mk, g0, g1, size, tx, ty);
    crate::counts::lemma_total_update(mk, g1, g2, size, nx, ny);
}

/// After a carve, every pair of reached cells is still mutually reachable:
/// old pairs keep their walks, and the fresh cell hangs off the carving cell
/// by the new passage.
proof fn lemma_carve_pair_connected(
    g0: Seq<Vec<Cell>>,
    g2: Seq<Vec<Cell>>,
    size: int,
    tx: int,
    ty: int,
    nx: int,
    ny: int,
)
    requires
        in_bounds(size, tx, ty),
        in_bounds(size, nx, ny),
        forall|x: int, y: int, e: Direction|
            in_bounds(size, x, y) && #[trigger] open_at(g0, x, y, e) ==> open_at(g2, x, y, e),
        forall|x: int, y: int|
            in_bounds(size, x, y) && #[trigger] marked(g2, x, y) ==> marked(g0, x, y) || (x == tx
                && y == ty) || (x == nx && y == ny),
        crate::paths::step_open(g2, size, tx, ty, nx, ny),
        all_zero(g0, size) || (marked(g0, tx, ty) && forall|ax: int, ay: int, bx: int, by: int|
            in_bounds(size, ax, ay) && in_bounds(size, bx, by) && #[trigger] marked(g0, ax, ay)
                && #[trigger] marked(g0, bx, by) ==> crate::paths::connected(
                g0,
                size,
                ax,
                ay,
                bx,
                by,
            )),
    ensures
        forall|ax: int, ay: int, bx: int, by: int|
            in_bounds(size, ax, ay) && in_bounds(size, bx, by) && #[trigger] marked(g2, ax, ay)
                && #[trigger] marked(g2, bx, by) ==> crate::paths::connected(
                g2,
                size,
                ax,
                ay,
                bx,
                by,
            ),
{
    // Every reached cell of g2 can walk to `(tx, ty)`.
    assert forall|ax: int, ay: int|
        in_bounds(size, ax, ay) && #[trigger] marked(g2, ax, ay) implies crate::paths::connected(
        g2,
        size,
        ax,
        ay,
        tx,
        ty,
    ) by {
        if ax == tx && ay == ty {
            crate::paths::lemma_connected_refl(g2, size, tx, ty);
        } else if ax == nx && ay == ny {
            crate::paths::lemma_connected_refl(g2, size, nx, ny);
            crate::paths::lemma_step_sym(g2, size, tx, ty, nx, ny);
            crate::paths::lemma_connected_step(g2, size, nx, ny, nx, ny, tx, ty);
        } else {
            assert(marked(g0, ax, ay));
            assert(!all_zero(g0, size));
            assert(crate::paths::connected(g0, size, ax, ay, tx, ty));
            crate::paths::lemma_connected_mono(g0, g2, size, ax, ay, tx, ty);
        }
    }
    assert forall|ax: int, ay: int, bx: int, by: int|
        in_bounds(size, ax, ay) && in_bounds(size, bx, by) && #[trigger] marked(g2, ax, ay)
            && #[trigger] marked(g2, bx, by) implies crate::paths::connected(
        g2,
        size,
        ax,
        ay,
        bx,
        by,
    ) by {
        assert(crate::paths::connected(g2, size, ax, ay, tx, ty));
        assert(crate::paths::connected(g2, size, bx, by, tx, ty));
        crate::paths::lemma_connected_sym(g2, size, bx, by, tx, ty);
        crate::paths::lemma_connected_trans(g2, size, ax, ay, tx, ty, bx, by);
    }
}

/// Every two reached cells of the grid can reach each other through open
/// passages.
pub open spec fn marked_connected(g: Seq<Vec<Cell>>, size: int) -> bool {
    forall|ax: int, ay: int, bx: int, by: int|
        in_bounds(size, ax, ay) && in_bounds(size, bx, by) && #[trigger] marked(g, ax, ay)
            && #[trigger] marked(g, bx, by) ==> crate::paths::connected(g, size, ax, ay, bx, by)
}

/// Everything the carving loop maintains about the grid and its frontier
/// stack of coordinates.
spec fn gen_inv(g: Seq<Vec<Cell>>, s: Seq<Point>, size: int) -> bool {
    &&& size >= 1
    &&& grid_wf(g, size)
    &&& interior_sym(g, size)
    &&& no_dup_all(g, size)
    &&& forall|x: int, y: int| in_bounds(size, x, y) ==> !(#[trigger] cell_at(g, x, y)).coin
    &&& forall|i: int|
        0 <= i < s.len() ==> in_bounds(size, (#[trigger] s[i]).x as int, s[i].y as int)
    &&& (all_zero(g, size) ==> s.len() <= 1)
    &&& (size >= 2 && all_zero(g, size) ==> s.len() == 1)
    &&& (size == 1 ==> all_zero(g, size))
    &&& (!all_zero(g, size) ==> forall|i: int|
        0 <= i < s.len() ==> marked(g, (#[trigger] s[i]).x as int, s[i].y as int))
    &&& marked_connected(g, size)
    &&& forall|cx: int, cy: int|
        in_bounds(size, cx, cy) && #[trigger] marked(g, cx, cy) && !on_stack(s, cx, cy)
            ==> nbrs_marked(g, size, cx, cy)
    &&& (!all_zero(g, size) ==> crate::counts::grid_total(crate::counts::CountKind::Pairs, g, size)
        == crate::counts::grid_total(crate::counts::CountKind::Marked, g, size) - 1)
    &&& 0 <= crate::counts::grid_total(crate::counts::CountKind::Marked, g, size) <= size * size
}

/// One carving step of the loop keeps the invariant and reaches at least one
/// more cell.
proof fn lemma_step_carve(
    g0: Seq<Vec<Cell>>,
    g1: Seq<Vec<Cell>>,
    g2: Seq<Vec<Cell>>,
    s0: Seq<Point>,
    s2: Seq<Point>,
    size: int,
    top: Point,
    np: Point,
    d: Direction,
)
    requires
        gen_inv(g0, s0, size),
        s0.len() > 0,
        top == s0[s0.len() - 1],
        step_target_ok(g0, size, top.x as int, top.y as int, d),
        np.x as int == top.x as int + dir_dx(d),
        np.y as int == top.y as int + dir_dy(d),
        carved(g0, g1, size, top.x as int, top.y as int, d),
        carved(g1, g2, size, np.x as int, np.y as int, opp(d)),
        s2 == s0.push(np),
    ensures
        gen_inv(g2, s2, size),
        crate::counts::grid_total(crate::counts::CountKind::Marked, g2, size)
            >= crate::counts::grid_total(crate::counts::CountKind::Marked, g0, size) + 1,
        0 <= crate::counts::grid_total(crate::counts::CountKind::Marked, g2, size) <= size * size,
        size >= 2,
{
    let mk = crate::counts::CountKind::Marked;
    let pairs = crate::counts::CountKind::Pairs;
    let tx = top.x as int;
    let ty = top.y as int;
    let nx = tx + dir_dx(d);
    let ny = ty + dir_dy(d);
    if size == 1 {
        // A lone cell has no in-bounds neighbor to carve to.
        assert(in_bounds(size, nx, ny));
        assert(false);
    }
    lemma_carve_pair_structure(g0, g1, g2, size, tx, ty, d);
    lemma_carve_pair_counts(g0, g1, g2, size, tx, ty, d);
    if !all_zero(g0, size) {
        assert(marked(g0, (s0[s0.len() - 1]).x as int, s0[s0.len() - 1].y as int));
        assert(marked(g0, tx, ty));
    }
    lemma_carve_pair_connected(g0, g2, size, tx, ty, nx, ny);
    assert(!all_zero(g2, size)) by {
        assert(marked(g2, tx, ty));
    }
    // The pair and reached counts of a blank grid are zero.
    if all_zero(g0, size) {
        assert(!marked(g0, tx, ty));
        assert forall|i: int, j: int| in_bounds(size, i, j) implies #[trigger] crate::counts::cw(
            mk,
            g0,
            size,
            i,
            j,
        ) == 0 by {
            assert(!marked(g0, i, j));
        }
        crate::counts::lemma_total_constant(mk, g0, size, 0);
        assert forall|i: int, j: int| in_bounds(size, i, j) implies #[trigger] crate::counts::cw(
            pairs,
            g0,
            size,
            i,
            j,
        ) == 0 by {
            assert(!marked(g0, i, j));
            assert(cell_at(g0, i, j).directions@.len() == 0);
            assert(!open_at(g0, i, j, Direction::East));
            assert(!open_at(g0, i, j, Direction::South));
        }
        crate::counts::lemma_total_constant(pairs, g0, size, 0);
    }
    // The stack still names only reached, in-bounds cells.
    assert forall|i: int| 0 <= i < s2.len() implies in_bounds(
        size,
        (#[trigger] s2[i]).x as int,
        s2[i].y as int,
    ) && marked(g2, s2[i].x as int, s2[i].y as int) by {
        if i < s0.len() {
            assert(s2[i] == s0[i]);
            if all_zero(g0, size) {
                assert(s0.len() <= 1);
                assert(s0[i] == top);
                assert(marked(g2, tx, ty));
            } else {
                assert(marked(g0, s0[i].x as int, s0[i].y as int));
            }
        } else {
            assert(s2[i] == np);
            assert(marked(g2, nx, ny));
        }
    }
    // A reached cell off the stack still has reached neighbors.
    assert forall|cx: int, cy: int|
        in_bounds(size, cx, cy) && #[trigger] marked(g2, cx, cy) && !on_stack(
            s2,
            cx,
            cy,
        ) implies nbrs_marked(g2, size, cx, cy) by {
        if marked(g0, cx, cy) {
            if on_stack(s0, cx, cy) {
                let i = choose|i: int| 0 <= i < s0.len() && s0[i].x == cx && s0[i].y == cy;
                assert(s2[i] == s0[i]);
                assert(on_stack(s2, cx, cy));
            } else {
                assert(nbrs_marked(g0, size, cx, cy));
                assert(cx + 1 < size ==> marked(g0, cx + 1, cy) && in_bounds(size, cx + 1, cy));
                assert(cx - 1 >= 0 ==> marked(g0, cx - 1, cy) && in_bounds(size, cx - 1, cy));
                assert(cy + 1 < size ==> marked(g0, cx, cy + 1) && in_bounds(size, cx, cy + 1));
                assert(cy - 1 >= 0 ==> marked(g0, cx, cy - 1) && in_bounds(size, cx, cy - 1));
            }
        } else {
            if cx == tx && cy == ty {
                assert(s2[s0.len() - 1] == top);
                assert(on_stack(s2, cx, cy));
            } else {
                assert(cx == nx && cy == ny);
                assert(s2[s0.len() as int] == np);
                assert(on_stack(s2, cx, cy));
            }
        }
    }
    crate::counts::lemma_rows_bounds(mk, g2, size, size);
}

/// One backtracking step of the loop keeps the invariant: the abandoned cell
/// has no unreached neighbor left, having offered every direction.
proof fn lemma_step_pop(
    g0: Seq<Vec<Cell>>,
    s0: Seq<Point>,
    s2: Seq<Point>,
    size: int,
    top: Point,
    dirs: Seq<Direction>,
)
    requires
        gen_inv(g0, s0, size),
        s0.len() > 0,
        top == s0[s0.len() - 1],
        dirs.contains(Direction::North),
        dirs.contains(Direction::South),
        dirs.contains(Direction::East),
        dirs.contains(Direction::West),
        forall|i: int|
            0 <= i < dirs.len() ==> !step_target_ok(
                g0,
                size,
                top.x as int,
                top.y as int,
                #[trigger] dirs[i],
            ),
        s2 == s0.subrange(0, s0.len() - 1),
    ensures
        gen_inv(g0, s2, size),
        0 <= crate::counts::grid_total(crate::counts::CountKind::Marked, g0, size) <= size * size,
{
    let tx = top.x as int;
    let ty = top.y as int;
    // Every neighbor of the abandoned cell is reached: each direction was
    // tried and rejected.
    assert(nbrs_marked(g0, size, tx, ty)) by {
        let ie = choose|i: int| 0 <= i < dirs.len() && dirs[i] == Direction::East;
        assert(!step_target_ok(g0, size, tx, ty, dirs[ie]));
        let iw = choose|i: int| 0 <= i < dirs.len() && dirs[i] == Direction::West;
        assert(!step_target_ok(g0, size, tx, ty, dirs[iw]));
        let iso = choose|i: int| 0 <= i < dirs.len() && dirs[i] == Direction::South;
        assert(!step_target_ok(g0, size, tx, ty, dirs[iso]));
        let ino = choose|i: int| 0 <= i < dirs.len() && dirs[i] == Direction::North;
        assert(!step_target_ok(g0, size, tx, ty, dirs[ino]));
    }
    if all_zero(g0, size) && size >= 2 {
        // On a blank grid with room, the frontier cell always has an
        // unreached in-bounds neighbor.
        assert(tx + 1 < size ==> marked(g0, tx + 1, ty));
        assert(tx - 1 >= 0 ==> marked(g0, tx - 1, ty));
        assert(false);
    }
    assert forall|cx: int, cy: int|
        in_bounds(size, cx, cy) && #[trigger] marked(g0, cx, cy) && !on_stack(
            s2,
            cx,
            cy,
        ) implies nbrs_marked(g0, size, cx, cy) by {
        if on_stack(s0, cx, cy) {
            let i = choose|i: int| 0 <= i < s0.len() && s0[i].x == cx && s0[i].y == cy;
            if i < s0.len() - 1 {
                assert(s2[i] == s0[i]);
                assert(on_stack(s2, cx, cy));
            } else {
                assert(s0[i] == top);
            }
        }
    }
    assert forall|i: int| 0 <= i < s2.len() implies in_bounds(
        size,
        (#[trigger] s2[i]).x as int,
        s2[i].y as int,
    ) by {
        assert(s2[i] == s0[i]);
    }
    if !all_zero(g0, size) {
        assert forall|i: int| 0 <= i < s2.len() implies marked(
            g0,
            (#[trigger] s2[i]).x as int,
            s2[i].y as int,
        ) by {
            assert(s2[i] == s0[i]);
        }
    }
    crate::counts::lemma_rows_bounds(crate::counts::CountKind::Marked, g0, size, size);
}

/// When the frontier stack empties on a grid with room, every cell has been
/// reached: the carved passages connect the whole grid through exactly
/// `size * size - 1` interior passage-pairs.
proof fn lemma_carve_done(g: Seq<Vec<Cell>>, s: Seq<Point>, size: int)
    requires
        gen_inv(g, s, size),
        s.len() == 0,
        size >= 2,
    ensures
        forall|x: int, y: int| in_bounds(size, x, y) ==> #[trigger] marked(g, x, y),
        marked_connected(g, size),
        crate::counts::pair_total(g, size) == size * size - 1,
{
    assert(!all_zero(g, size));
    let (mx, my) = choose|mx: int, my: int| in_bounds(size, mx, my) && marked(g, mx, my);
    assert forall|cx: int, cy: int|
        in_bounds(size, cx, cy) && #[trigger] marked(g, cx, cy) implies nbrs_marked(
        g,
        size,
        cx,
        cy,
    ) by {
        assert(!on_stack(s, cx, cy));
    }
    assert forall|x: int, y: int| in_bounds(size, x, y) implies #[trigger] marked(g, x, y) by {
        crate::paths::lemma_span_marked(g, size, mx, my, x, y);
    }
    let mk = crate::counts::CountKind::Marked;
    assert forall|i: int, j: int| in_bounds(size, i, j) implies #[trigger] crate::counts::cw(
        mk,
        g,
        size,
        i,
        j,
    ) == 1 by {
        assert(marked(g, i, j));
    }
    crate::counts::lemma_total_constant(mk, g, size, 1);
    assert(1 * size * size == size * size) by (nonlinear_arith);
}

/// The randomized iterative backtracker: look at the top of the frontier
/// stack, carve toward a random unreached neighbor and push it, or backtrack
/// when every neighbor is reached. Each carve reaches a fresh cell, so the
/// carved passages form a spanning tree of the grid: every cell reaches
/// every other cell, through exactly `size * size - 1` interior
/// passage-pairs.
fn carve_tree(path: &mut Vec<Vec<Cell>>, size: usize, rng: &mut rand::rngs::StdRng)
    requires
        size >= 1,
        grid_wf(old(path)@, size as int),
        forall|x: int, y: int|
            in_bounds(size as int, x, y) ==> (#[trigger] cell_at(
                old(path)@,
                x,
                y,
            )).directions@.len() == 0 && !cell_at(old(path)@, x, y).coin,
    ensures
        grid_wf(final(path)@, size as int),
        interior_sym(final(path)@, size as int),
        no_dup_all(final(path)@, size as int),
        forall|x: int, y: int|
            in_bounds(size as int, x, y) ==> !(#[trigger] cell_at(final(path)@, x, y)).coin,
        size == 1 ==> all_zero(final(path)@, size as int),
        size >= 2 ==> forall|x: int, y: int|
            in_bounds(size as int, x, y) ==> #[trigger] marked(final(path)@, x, y),
        size >= 2 ==> marked_connected(final(path)@, size as int),
        size >= 2 ==> crate::counts::pair_total(final(path)@, size as int) == (size as int) * (
        size as int) - 1,
{
    let ghost sz = size as int;
    let sx = gen_below(rng, size);
    let sy = gen_below(rng, size);
    let mut stack: Vec<Point> = Vec::new();
    stack.push(Point { x: sx as i128, y: sy as i128 });
    proof {
        crate::counts::lemma_rows_bounds(crate::counts::CountKind::Marked, path@, sz, sz);
    }
    while stack.len() != 0
        invariant
            sz == size as int,
            gen_inv(path@, stack@, sz),
        decreases 2 * (sz * sz) - 2 * crate::counts::grid_total(
            crate::counts::CountKind::Marked,
            path@,
            sz,
        ) + stack@.len(),
    {
        let top = stack[stack.len() - 1];
        let dirs = shuffled_directions(rng);
        let choice = pick_direction(path, size, top, &dirs);
        match choice {
            Some(d) => {
                let delta = delta_dir(d);
                let nxi: i128 = top.x + delta.x;
                let nyi: i128 = top.y + delta.y;
                let np = Point { x: nxi, y: nyi };
                let ghost g0 = path@;
                let ghost stack0 = stack@;
                carve_at(path, size, top.x as usize, top.y as usize, d);
                let ghost g1 = path@;
                let od = opposite_dir(d);
                carve_at(path, size, nxi as usize, nyi as usize, od);
                stack.push(np);
                proof {
                    lemma_step_carve(g0, g1, path@, stack0, stack@, sz, top, np, d);
                }
            },
            None => {
                let ghost g0 = path@;
                let ghost stack0 = stack@;
                let _ = stack.pop();
                proof {
                    lemma_step_pop(g0, stack0, stack@, sz, top, dirs@);
                }
            },
        }
    }
    proof {
        if size >= 2 {
            lemma_carve_done(path@, stack@, sz);
        }
    }
}

/// Every cell of the grid can reach every other cell through open passages:
/// what a flood-fill from any cell reaches.
pub open spec fn all_connected(g: Seq<Vec<Cell>>, size: int) -> bool {
    forall|ax: int, ay: int, bx: int, by: int|
        in_bounds(size, ax, ay) && in_bounds(size, bx, by) ==> #[trigger] crate::paths::connected(
            g,
            size,
            ax,
            ay,
            bx,
            by,
        )
}

/// The smallest of three quantities.
pub open spec fn min3(a: int, b: int, c: int) -> int {
    if a <= b && a <= c {
        a
    } else if b <= c {
        b
    } else {
        c
    }
}

/// Everything `generate_maze` promises of the grid it hands out, with
/// `budget` the number of coins asked for:
/// - a well-formed `size` by `size` matrix whose cells list no passage twice;
/// - every passage faces a carved passage of its neighbor, except the two
///   gates: the entrance is open at the west face of `(0, size / 2)` and the
///   exit at the east face of `(size - 1, size / 2)`;
/// - on grids of at least two cells a side, a flood-fill from any cell
///   reaches every cell, through exactly `size * size - 1` interior
///   passage-pairs: the passages form a spanning tree of the grid — a
///   perfect maze, whose connectedness and edge count leave a single simple
///   route between any two cells, the entrance-to-exit route included;
/// - coins sit on exactly `min(budget, COIN_CAP, dead ends)` cells, each a
///   dead end: a cell with exactly one open passage.
pub open spec fn generated_maze(g: Seq<Vec<Cell>>, size: int, budget: int) -> bool {
    &&& grid_wf(g, size)
    &&& no_dup_all(g, size)
    &&& sym_except_gates(g, size)
    &&& (size >= 1 ==> open_at(g, 0, mid_row(size), Direction::West) && open_at(
        g,
        size - 1,
        mid_row(size),
        Direction::East,
    ))
    &&& (size >= 2 ==> all_connected(g, size))
    &&& (size >= 2 ==> crate::counts::pair_total(g, size) == size * size - 1)
    &&& crate::counts::coin_total(g, size) == min3(
        budget,
        COIN_CAP as int,
        crate::counts::dead_end_total(g, size),
    )
    &&& forall|x: int, y: int|
        in_bounds(size, x, y) && (#[trigger] cell_at(g, x, y)).coin ==> cell_at(
            g,
            x,
            y,
        ).directions@.len() == 1
}

/// Carve the two boundary-facing gates: the entrance at the west face of the
/// middle row's first cell, the exit at the east face of its last cell.
/// Neither face has an adjacent cell, so no interior passage-pair is added.
fn carve_gates(path: &mut Vec<Vec<Cell>>, size: usize)
    requires
        size >= 1,
        grid_wf(old(path)@, size as int),
        interior_sym(old(path)@, size as int),
        no_dup_all(old(path)@, size as int),
    ensures
        grid_wf(final(path)@, size as int),
        sym_except_gates(final(path)@, size as int),
        no_dup_all(final(path)@, size as int),
        open_at(final(path)@, 0, mid_row(size as int), Direction::West),
        open_at(final(path)@, size as int - 1, mid_row(size as int), Direction::East),
        crate::counts::pair_total(final(path)@, size as int) == crate::counts::pair_total(
            old(path)@,
            size as int,
        ),
        forall|x: int, y: int, d: Direction|
            in_bounds(size as int, x, y) && #[trigger] open_at(old(path)@, x, y, d) ==> open_at(
                final(path)@,
                x,
                y,
                d,
            ),
        forall|x: int, y: int|
            in_bounds(size as int, x, y) ==> (#[trigger] cell_at(final(path)@, x, y)).coin
                == cell_at(old(path)@, x, y).coin,
{
    let ghost sz = size as int;
    let ghost g0 = path@;
    let mid = size / 2;
    carve_at(path, size, 0, mid, Direction::West);
    let ghost g1 = path@;
    carve_at(path, size, size - 1, mid, Direction::East);
    let ghost g2 = path@;
    proof {
        let m = mid as int;
        let e = sz - 1;
        let pairs = crate::counts::CountKind::Pairs;
        // Neither gate passage was already carved: its facing cell would sit
        // off the grid.
        assert(!open_at(g0, 0, m, Direction::West)) by {
            if open_at(g0, 0, m, Direction::West) {
                assert(in_bounds(sz, -1, m));
            }
        }
        assert(!open_at(g1, e, m, Direction::East)) by {
            if open_at(g1, e, m, Direction::East) {
                if e == 0 {
                    lemma_push_contains(cell_at(g0, 0, m).directions@, Direction::West,
                        Direction::East);
                } else {
                    assert(cell_at(g1, e, m) == cell_at(g0, e, m));
                }
                assert(open_at(g0, e, m, Direction::East));
                assert(in_bounds(sz, e + dir_dx(Direction::East), m + dir_dy(Direction::East)));
                assert(false);
            }
        }
        // Exactly which passages each carve opened.
        assert forall|x: int, y: int, d: Direction| in_bounds(sz, x, y) implies (#[trigger]
        open_at(g1, x, y, d) <==> (open_at(g0, x, y, d) || (x == 0 && y == m && d
            == Direction::West))) by {
            if x == 0 && y == m {
                lemma_push_contains(cell_at(g0, 0, m).directions@, Direction::West, d);
            } else {
                assert(cell_at(g1, x, y) == cell_at(g0, x, y));
            }
        }
        assert forall|x: int, y: int, d: Direction| in_bounds(sz, x, y) implies (#[trigger]
        open_at(g2, x, y, d) <==> (open_at(g1, x, y, d) || (x == e && y == m && d
            == Direction::East))) by {
            if x == e && y == m {
                lemma_push_contains(cell_at(g1, e, m).directions@, Direction::East, d);
            } else {
                assert(cell_at(g2, x, y) == cell_at(g1, x, y));
            }
        }
        // Symmetry holds but for the two gates.
        assert forall|x: int, y: int, d: Direction|
            in_bounds(sz, x, y) && #[trigger] open_at(g2, x, y, d) implies {
            ||| (in_bounds(sz, x + dir_dx(d), y + dir_dy(d)) && open_at(
                g2,
                x + dir_dx(d),
                y + dir_dy(d),
                opp(d),
            ))
            ||| (x == 0 && y == mid_row(sz) && d == Direction::West)
            ||| (x == sz - 1 && y == mid_row(sz) && d == Direction::East)
        } by {
            if open_at(g0, x, y, d) {
                assert(open_at(g0, x + dir_dx(d), y + dir_dy(d), opp(d)));
            }
        }
        // No repeats: each gate cell gains a passage it did not hold.
        assert forall|x: int, y: int| in_bounds(sz, x, y) implies (#[trigger] cell_at(
            g2,
            x,
            y,
        )).directions@.no_duplicates() by {
            if x == 0 && y == m && x == e {
                lemma_push_no_dup(cell_at(g0, 0, m).directions@, Direction::West);
                lemma_push_no_dup(cell_at(g1, e, m).directions@, Direction::East);
            } else if x == 0 && y == m {
                lemma_push_no_dup(cell_at(g0, 0, m).directions@, Direction::West);
                assert(cell_at(g2, x, y) == cell_at(g1, x, y));
            } else if x == e && y == m {
                assert(cell_at(g1, x, y) == cell_at(g0, x, y));
                lemma_push_no_dup(cell_at(g1, e, m).directions@, Direction::East);
            } else {
                assert(cell_at(g2, x, y) == cell_at(g1, x, y));
                assert(cell_at(g1, x, y) == cell_at(g0, x, y));
            }
        }
        // Neither carve changes any cell's east or south passage toward an
        // in-bounds neighbor, so the pair count stands.
        assert forall|i: int, j: int| in_bounds(sz, i, j) implies #[trigger] crate::counts::cw(
            pairs,
            g1,
            sz,
            i,
            j,
        ) == crate::counts::cw(pairs, g0, sz, i, j) by {
            assert(open_at(g1, i, j, Direction::East) <==> open_at(g0, i, j, Direction::East));
            assert(open_at(g1, i, j, Direction::South) <==> open_at(g0, i, j, Direction::South));
        }
        crate::counts::lemma_total_congruent(pairs, g0, g1, sz);
        assert forall|i: int, j: int| in_bounds(sz, i, j) implies #[trigger] crate::counts::cw(
            pairs,
            g2,
            sz,
            i,
            j,
        ) == crate::counts::cw(pairs, g1, sz, i, j) by {
            assert(open_at(g2, i, j, Direction::East) <==> (open_at(g1, i, j, Direction::East) || (
            i == e && j == m)));
            if i == e && j == m {
                assert(!(i + 1 < sz));
            }
            assert(open_at(g2, i, j, Direction::South) <==> open_at(g1, i, j, Direction::South));
        }
        crate::counts::lemma_total_congruent(pairs, g1, g2, sz);
        // Coins untouched.
        assert forall|x: int, y: int| in_bounds(sz, x, y) implies (#[trigger] cell_at(
            g2,
            x,
            y,
        )).coin == cell_at(g0, x, y).coin by {
            if !(x == 0 && y == m) {
                assert(cell_at(g1, x, y) == cell_at(g0, x, y));
            }
            if !(x == e && y == m) {
                assert(cell_at(g2, x, y) == cell_at(g1, x, y));
            }
        }
    }
}

/// Scan every cell row by row and collect the coordinates of the dead ends:
/// cells with exactly one carved passage.
fn find_dead_ends(path: &Vec<Vec<Cell>>, size: usize) -> (coords: Vec<Point>)
    requires
        grid_wf(path@, size as int),
    ensures
        coords@.len() == crate::counts::dead_end_total(path@, size as int),
        forall|i: int|
            0 <= i < coords@.len() ==> in_bounds(
                size as int,
                (#[trigger] coords@[i]).x as int,
                coords@[i].y as int,
            ) && cell_at(path@, coords@[i].x as int, coords@[i].y as int).directions@.len() == 1,
        coords@.no_duplicates(),
{
    let ghost sz = size as int;
    let ghost de = crate::counts::CountKind::DeadEnds;
    let mut coords: Vec<Point> = Vec::new();
    let mut y: usize = 0;
    while y < size
        invariant
            sz == size as int,
            de == crate::counts::CountKind::DeadEnds,
            grid_wf(path@, sz),
            y <= size,
            coords@.len() == crate::counts::rows_total(de, path@, sz, y as int),
            forall|i: int|
                0 <= i < coords@.len() ==> in_bounds(
                    sz,
                    (#[trigger] coords@[i]).x as int,
                    coords@[i].y as int,
                ) && cell_at(path@, coords@[i].x as int, coords@[i].y as int).directions@.len()
                    == 1,
            coords@.no_duplicates(),
            forall|i: int| 0 <= i < coords@.len() ==> (#[trigger] coords@[i]).y < y,
        decreases size - y,
    {
        let mut x: usize = 0;
        while x < size
            invariant
                sz == size as int,
                de == crate::counts::CountKind::DeadEnds,
                grid_wf(path@, sz),
                y < size,
                x <= size,
                coords@.len() == crate::counts::rows_total(de, path@, sz, y as int)
                    + crate::counts::row_total(de, path@, sz, y as int, x as int),
                forall|i: int|
                    0 <= i < coords@.len() ==> in_bounds(
                        sz,
                        (#[trigger] coords@[i]).x as int,
                        coords@[i].y as int,
                    ) && cell_at(path@, coords@[i].x as int, coords@[i].y as int).directions@.len()
                        == 1,
                coords@.no_duplicates(),
                forall|i: int|
                    0 <= i < coords@.len() ==> (#[trigger] coords@[i]).y < y || (coords@[i].y == y
                        && coords@[i].x < x),
            decreases size - x,
        {
            if path[y][x].directions.len() == 1 {
                let np = Point { x: x as i128, y: y as i128 };
                let ghost c0 = coords@;
                coords.push(np);
                proof {
                    assert(!c0.contains(np)) by {
                        if c0.contains(np) {
                            let i = choose|i: int| 0 <= i < c0.len() && c0[i] == np;
                            assert(c0[i].y < y || (c0[i].y == y && c0[i].x < x));
                        }
                    }
                    lemma_push_no_dup(c0, np);
                }
            }
            proof {
                assert(crate::counts::row_total(de, path@, sz, y as int, x as int + 1)
                    == crate::counts::row_total(de, path@, sz, y as int, x as int)
                    + crate::counts::cw(de, path@, sz, x as int, y as int));
            }
            x += 1;
        }
        proof {
            assert(crate::counts::rows_total(de, path@, sz, y as int + 1)
                == crate::counts::rows_total(de, path@, sz, y as int) + crate::counts::row_total(
                de,
                path@,
                sz,
                y as int,
                sz,
            ));
        }
        y += 1;
    }
    coords
}

/// Put a coin in each of the first `limit` collected dead ends; every other
/// cell, and every passage, stands untouched.
fn place_coins(path: &mut Vec<Vec<Cell>>, size: usize, coords: &Vec<Point>, limit: usize)
    requires
        grid_wf(old(path)@, size as int),
        forall|i: int|
            0 <= i < coords@.len() ==> in_bounds(
                size as int,
                (#[trigger] coords@[i]).x as int,
                coords@[i].y as int,
            ) && cell_at(old(path)@, coords@[i].x as int, coords@[i].y as int).directions@.len()
                == 1,
        coords@.no_duplicates(),
        forall|x: int, y: int|
            in_bounds(size as int, x, y) ==> !(#[trigger] cell_at(old(path)@, x, y)).coin,
    ensures
        grid_wf(final(path)@, size as int),
        forall|x: int, y: int|
            in_bounds(size as int, x, y) ==> (#[trigger] cell_at(final(path)@, x, y)).directions@
                == cell_at(old(path)@, x, y).directions@,
        crate::counts::coin_total(final(path)@, size as int) == (if limit <= coords@.len() {
            limit as int
        } else {
            coords@.len() as int
        }),
        forall|x: int, y: int|
            in_bounds(size as int, x, y) && (#[trigger] cell_at(final(path)@, x, y)).coin
                ==> cell_at(final(path)@, x, y).directions@.len() == 1,
{
    let ghost sz = size as int;
    let ghost ck = crate::counts::CountKind::Coins;
    let ghost g0 = path@;
    let n = if limit < coords.len() {
        limit
    } else {
        coords.len()
    };
    proof {
        assert forall|i: int, j: int| in_bounds(sz, i, j) implies #[trigger] crate::counts::cw(
            ck,
            g0,
            sz,
            i,
            j,
        ) == 0 by {
            assert(!cell_at(g0, i, j).coin);
        }
        crate::counts::lemma_total_constant(ck, g0, sz, 0);
    }
    let mut i: usize = 0;
    while i < n
        invariant
            sz == size as int,
            ck == crate::counts::CountKind::Coins,
            n <= coords@.len(),
            n as int == (if limit <= coords@.len() {
                limit as int
            } else {
                coords@.len() as int
            }),
            i <= n,
            grid_wf(path@, sz),
            forall|k: int|
                0 <= k < coords@.len() ==> in_bounds(
                    sz,
                    (#[trigger] coords@[k]).x as int,
                    coords@[k].y as int,
                ) && cell_at(g0, coords@[k].x as int, coords@[k].y as int).directions@.len() == 1,
            coords@.no_duplicates(),
            forall|x: int, y: int|
                in_bounds(sz, x, y) ==> (#[trigger] cell_at(path@, x, y)).directions@ == cell_at(
                    g0,
                    x,
                    y,
                ).directions@,
            crate::counts::coin_total(path@, sz) == i,
            forall|x: int, y: int|
                in_bounds(sz, x, y) && (#[trigger] cell_at(path@, x, y)).coin ==> exists|j: int|
                    0 <= j < i && (#[trigger] coords@[j]).x == x && coords@[j].y == y,
        decreases n - i,
    {
        let p = coords[i];
        let ghost gp = path@;
        set_coin_at(path, size, p.x as usize, p.y as usize);
        proof {
            let px = p.x as int;
            let py = p.y as int;
            // The cell was not yet a coin cell: its coordinate sits only once
            // in the list.
            assert(!cell_at(gp, px, py).coin) by {
                if cell_at(gp, px, py).coin {
                    let j = choose|j: int|
                        0 <= j < i && (#[trigger] coords@[j]).x == px && coords@[j].y == py;
                    assert(coords@[j] == coords@[i as int]);
                }
            }
            assert forall|a: int, b: int|
                in_bounds(sz, a, b) && !(a == px && b == py) implies #[trigger] crate::counts::cw(
                ck,
                path@,
                sz,
                a,
                b,
            ) == crate::counts::cw(ck, gp, sz, a, b) by {
                assert(cell_at(path@, a, b) == cell_at(gp, a, b));
            }
            crate::counts::lemma_total_update(ck, gp, path@, sz, px, py);
            // Which cells hold coins now.
            assert forall|x: int, y: int|
                in_bounds(sz, x, y) && (#[trigger] cell_at(path@, x, y)).coin implies exists|j: int|
                0 <= j < i + 1 && (#[trigger] coords@[j]).x == x && coords@[j].y == y by {
                if x == px && y == py {
                    assert(0 <= (i as int) && (i as int) < i + 1 && coords@[i as int].x == x
                        && coords@[i as int].y == y);
                } else {
                    assert(cell_at(gp, x, y).coin);
                    let j = choose|j: int|
                        0 <= j < i && (#[trigger] coords@[j]).x == x && coords@[j].y == y;
                    assert(0 <= j < i + 1 && coords@[j].x == x && coords@[j].y == y);
                }
            }
            assert forall|x: int, y: int|
                in_bounds(sz, x, y) implies (#[trigger] cell_at(path@, x, y)).directions@
                == cell_at(g0, x, y).directions@ by {
                if !(x == px && y == py) {
                    assert(cell_at(path@, x, y) == cell_at(gp, x, y));
                }
            }
        }
        i += 1;
    }
    proof {
        assert forall|x: int, y: int|
            in_bounds(sz, x, y) && (#[trigger] cell_at(path@, x, y)).coin implies cell_at(
            path@,
            x,
            y,
        ).directions@.len() == 1 by {
            let j = choose|j: int|
                0 <= j < i && (#[trigger] coords@[j]).x == x && coords@[j].y == y;
            assert(cell_at(g0, x, y).directions@.len() == 1);
        }
    }
}

/// Generate a perfect maze of `size` by `size` cells with an injected random
/// source: carve a spanning tree of passages by randomized backtracking, open
/// the entrance and exit gates in the middle row, and drop coins on up to
/// `min(coin_budget, COIN_CAP)` randomly chosen dead ends. A `size` of zero
/// yields the empty grid.
pub fn generate_maze(size: usize, coin_budget: usize, rng: &mut rand::rngs::StdRng) -> (m: Maze)
    ensures
        generated_maze(m.path@, size as int, coin_budget as int),
{
    let ghost sz = size as int;
    let mut path = fresh_grid(size);
    if size == 0 {
        proof {
            assert(crate::counts::rows_total(crate::counts::CountKind::Coins, path@, 0, 0) == 0);
            assert(crate::counts::rows_total(crate::counts::CountKind::DeadEnds, path@, 0, 0)
                == 0);
        }
        return Maze { path };
    }
    carve_tree(&mut path, size, rng);
    let ghost g_tree = path@;
    carve_gates(&mut path, size);
    let ghost g_gate = path@;
    let mut coords = find_dead_ends(&path, size);
    let ghost coords0 = coords@;
    shuffle(rng, &mut coords);
    proof {
        broadcast use vstd::seq_lib::group_to_multiset_ensures;

        // The shuffle hands back the same dead-end coordinates in some order.
        coords0.lemma_multiset_has_no_duplicates();
        coords@.lemma_multiset_has_no_duplicates_conv();
        assert(coords@.to_multiset().len() == coords0.to_multiset().len());
        assert forall|i: int| 0 <= i < coords@.len() implies in_bounds(
            sz,
            (#[trigger] coords@[i]).x as int,
            coords@[i].y as int,
        ) && cell_at(g_gate, coords@[i].x as int, coords@[i].y as int).directions@.len() == 1 by {
            assert(coords@.contains(coords@[i]));
            assert(coords@.to_multiset().count(coords@[i]) > 0);
            assert(coords0.contains(coords@[i]));
            let j = choose|j: int| 0 <= j < coords0.len() && coords0[j] == coords@[i];
            assert(in_bounds(sz, coords0[j].x as int, coords0[j].y as int));
        }
    }
    let cap = if coin_budget < COIN_CAP {
        coin_budget
    } else {
        COIN_CAP
    };
    place_coins(&mut path, size, &coords, cap);
    let ghost g_fin = path@;
    proof {
        let pairs = crate::counts::CountKind::Pairs;
        let de = crate::counts::CountKind::DeadEnds;
        // Passages are exactly those of the gated grid.
        assert forall|x: int, y: int, d: Direction| in_bounds(sz, x, y) implies (#[trigger]
        open_at(g_fin, x, y, d) <==> open_at(g_gate, x, y, d)) by {
            assert(cell_at(g_fin, x, y).directions@ == cell_at(g_gate, x, y).directions@);
        }
        // So symmetry-but-for-the-entrance-and-exit, the pair count and the
        // dead-end count carry over unchanged.
        assert(sym_except_gates(g_fin, sz)) by {
            assert forall|x: int, y: int, d: Direction|
                in_bounds(sz, x, y) && #[trigger] open_at(g_fin, x, y, d) implies {
                ||| (in_bounds(sz, x + dir_dx(d), y + dir_dy(d)) && open_at(
                    g_fin,
                    x + dir_dx(d),
                    y + dir_dy(d),
                    opp(d),
                ))
                ||| (x == 0 && y == mid_row(sz) && d == Direction::West)
                ||| (x == sz - 1 && y == mid_row(sz) && d == Direction::East)
            } by {
                assert(open_at(g_gate, x, y, d));
            }
        }
        assert(no_dup_all(g_fin, sz)) by {
            assert forall|x: int, y: int| in_bounds(sz, x, y) implies (#[trigger] cell_at(
                g_fin,
                x,
                y,
            )).directions@.no_duplicates() by {
                assert(cell_at(g_fin, x, y).directions@ == cell_at(g_gate, x, y).directions@);
            }
        }
        assert forall|k: crate::counts::CountKind, i: int, j: int|
            in_bounds(sz, i, j) && !(k is Coins) implies #[trigger] crate::counts::cw(
            k,
            g_fin,
            sz,
            i,
            j,
        ) == crate::counts::cw(k, g_gate, sz, i, j) by {
            assert(cell_at(g_fin, i, j).directions@ == cell_at(g_gate, i, j).directions@);
        }
        crate::counts::lemma_total_congruent(pairs, g_gate, g_fin, sz);
        crate::counts::lemma_total_congruent(de, g_gate, g_fin, sz);
        // On a grid with room, the spanning tree connects everything, and
        // neither the gates nor the coins close a passage.
        if size >= 2 {
            assert forall|ax: int, ay: int, bx: int, by: int|
                in_bounds(sz, ax, ay) && in_bounds(sz, bx, by) implies #[trigger]
            crate::paths::connected(g_fin, sz, ax, ay, bx, by) by {
                assert(marked(g_tree, ax, ay) && marked(g_tree, bx, by));
                assert(crate::paths::connected(g_tree, sz, ax, ay, bx, by));
                crate::paths::lemma_connected_mono(g_tree, g_gate, sz, ax, ay, bx, by);
                assert forall|x: int, y: int, d: Direction|
                    in_bounds(sz, x, y) && #[trigger] open_at(g_gate, x, y, d) implies open_at(
                    g_fin,
                    x,
                    y,
                    d,
                ) by {}
                crate::paths::lemma_connected_mono(g_gate, g_fin, sz, ax, ay, bx, by);
            }
        }
    }
    Maze { path }
}

impl Maze {
    /// Generate a perfect maze seeded from fresh operating-system entropy:
    /// repeated calls with the same size produce different mazes.
    pub fn new(size: usize, coin_budget: usize) -> (m: Maze)
        ensures
            generated_maze(m.path@, size as int, coin_budget as int),
    {
        let mut rng = crate::rng::rng_from_entropy();
        generate_maze(size, coin_budget, &mut rng)
    }
}

} // verus!
