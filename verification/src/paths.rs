//! Reachability through carved passages: paths over the grid and the lemmas
//! the generator needs to show that every cell of a finished maze can be
//! reached from every other cell.

use crate::maze::{in_bounds, marked, nbrs_marked, open_at, Cell, Direction};
use vstd::prelude::*;

verus! {

/// Cells `(ax, ay)` and `(bx, by)` are adjacent and the passage between them
/// is carved from both sides.
pub open spec fn step_open(
    g: Seq<Vec<Cell>>,
    size: int,
    ax: int,
    ay: int,
    bx: int,
    by: int,
) -> bool {
    &&& in_bounds(size, ax, ay)
    &&& in_bounds(size, bx, by)
    &&& {
        ||| (bx == ax + 1 && by == ay && open_at(g, ax, ay, Direction::East) && open_at(
            g,
            bx,
            by,
            Direction::West,
        ))
        ||| (bx == ax - 1 && by == ay && open_at(g, ax, ay, Direction::West) && open_at(
            g,
            bx,
            by,
            Direction::East,
        ))
        ||| (bx == ax && by == ay + 1 && open_at(g, ax, ay, Direction::South) && open_at(
            g,
            bx,
            by,
            Direction::North,
        ))
        ||| (bx == ax && by == ay - 1 && open_at(g, ax, ay, Direction::North) && open_at(
            g,
            bx,
            by,
            Direction::South,
        ))
    }
}

/// `p` walks through the grid: every stop is in bounds and every two
/// consecutive stops share an open passage.
pub open spec fn is_path(g: Seq<Vec<Cell>>, size: int, p: Seq<(int, int)>) -> bool {
    &&& p.len() >= 1
    &&& forall|i: int| #![trigger p[i]] 0 <= i < p.len() ==> in_bounds(size, p[i].0, p[i].1)
    &&& forall|i: int|
        #![trigger p[i]]
        0 <= i < p.len() - 1 ==> step_open(g, size, p[i].0, p[i].1, p[i + 1].0, p[i + 1].1)
}

/// Some walk through open passages leads from `(ax, ay)` to `(bx, by)`:
/// what a flood-fill over the open directions reaches.
pub open spec fn connected(
    g: Seq<Vec<Cell>>,
    size: int,
    ax: int,
    ay: int,
    bx: int,
    by: int,
) -> bool {
    exists|p: Seq<(int, int)>|
        #[trigger] is_path(g, size, p) && p[0] == (ax, ay) && p[p.len() - 1] == (bx, by)
}

/// Every cell reaches itself.
pub proof fn lemma_connected_refl(g: Seq<Vec<Cell>>, size: int, x: int, y: int)
    requires
        in_bounds(size, x, y),
    ensures
        connected(g, size, x, y, x, y),
{
    let p = seq![(x, y)];
    assert(is_path(g, size, p));
    assert(p[0] == (x, y) && p[p.len() - 1] == (x, y));
}

/// A walk extends by one open passage.
pub proof fn lemma_connected_step(
    g: Seq<Vec<Cell>>,
    size: int,
    ax: int,
    ay: int,
    bx: int,
    by: int,
    cx: int,
    cy: int,
)
    requires
        connected(g, size, ax, ay, bx, by),
        step_open(g, size, bx, by, cx, cy),
    ensures
        connected(g, size, ax, ay, cx, cy),
{
    let p = choose|p: Seq<(int, int)>|
        #[trigger] is_path(g, size, p) && p[0] == (ax, ay) && p[p.len() - 1] == (bx, by);
    let q = p.push((cx, cy));
    assert forall|i: int| #![trigger q[i]] 0 <= i < q.len() - 1 implies step_open(
        g,
        size,
        q[i].0,
        q[i].1,
        q[i + 1].0,
        q[i + 1].1,
    ) by {
        if i < p.len() - 1 {
            assert(q[i] == p[i] && q[i + 1] == p[i + 1]);
        } else {
            assert(q[i] == p[p.len() - 1] && q[i + 1] == (cx, cy));
        }
    }
    assert(is_path(g, size, q));
    assert(q[0] == (ax, ay) && q[q.len() - 1] == (cx, cy));
}

/// Open passages work both ways.
pub proof fn lemma_step_sym(
    g: Seq<Vec<Cell>>,
    size: int,
    ax: int,
    ay: int,
    bx: int,
    by: int,
)
    requires
        step_open(g, size, ax, ay, bx, by),
    ensures
        step_open(g, size, bx, by, ax, ay),
{
}

/// Reachability works both ways.
pub proof fn lemma_connected_sym(
    g: Seq<Vec<Cell>>,
    size: int,
    ax: int,
    ay: int,
    bx: int,
    by: int,
)
    requires
        connected(g, size, ax, ay, bx, by),
    ensures
        connected(g, size, bx, by, ax, ay),
{
    let p = choose|p: Seq<(int, int)>|
        #[trigger] is_path(g, size, p) && p[0] == (ax, ay) && p[p.len() - 1] == (bx, by);
    let n = p.len() as int;
    let q = Seq::<(int, int)>::new(p.len(), |i: int| p[n - 1 - i]);
    assert forall|i: int| #![trigger q[i]] 0 <= i < q.len() - 1 implies step_open(
        g,
        size,
        q[i].0,
        q[i].1,
        q[i + 1].0,
        q[i + 1].1,
    ) by {
        assert(q[i] == p[n - 1 - i] && q[i + 1] == p[n - 2 - i]);
        assert(step_open(g, size, p[n - 2 - i].0, p[n - 2 - i].1, p[n - 1 - i].0, p[n - 1 - i].1));
    }
    assert(is_path(g, size, q));
    assert(q[0] == (bx, by) && q[q.len() - 1] == (ax, ay));
}

/// Reachability chains.
pub proof fn lemma_connected_trans(
    g: Seq<Vec<Cell>>,
    size: int,
    ax: int,
    ay: int,
    bx: int,
    by: int,
    cx: int,
    cy: int,
)
    requires
        connected(g, size, ax, ay, bx, by),
        connected(g, size, bx, by, cx, cy),
    ensures
        connected(g, size, ax, ay, cx, cy),
{
    let p1 = choose|p: Seq<(int, int)>|
        #[trigger] is_path(g, size, p) && p[0] == (ax, ay) && p[p.len() - 1] == (bx, by);
    let p2 = choose|p: Seq<(int, int)>|
        #[trigger] is_path(g, size, p) && p[0] == (bx, by) && p[p.len() - 1] == (cx, cy);
    let q = p1 + p2.subrange(1, p2.len() as int);
    let n1 = p1.len() as int;
    assert forall|i: int| #![trigger q[i]] 0 <= i < q.len() implies in_bounds(
        size,
        q[i].0,
        q[i].1,
    ) by {
        if i < n1 {
            assert(q[i] == p1[i]);
        } else {
            assert(q[i] == p2[i - n1 + 1]);
        }
    }
    assert forall|i: int| #![trigger q[i]] 0 <= i < q.len() - 1 implies step_open(
        g,
        size,
        q[i].0,
        q[i].1,
        q[i + 1].0,
        q[i + 1].1,
    ) by {
        if i < n1 - 1 {
            assert(q[i] == p1[i] && q[i + 1] == p1[i + 1]);
        } else if i == n1 - 1 {
            assert(q[i] == p1[n1 - 1] && p1[n1 - 1] == (bx, by) && p2[0] == (bx, by));
            if i + 1 < q.len() {
                assert(q[i + 1] == p2[1]);
                assert(step_open(g, size, p2[0].0, p2[0].1, p2[1].0, p2[1].1));
            }
        } else {
            assert(q[i] == p2[i - n1 + 1] && q[i + 1] == p2[i - n1 + 2]);
            assert(step_open(
                g,
                size,
                p2[i - n1 + 1].0,
                p2[i - n1 + 1].1,
                p2[i - n1 + 2].0,
                p2[i - n1 + 2].1,
            ));
        }
    }
    assert(is_path(g, size, q));
    if p2.len() == 1 {
        assert(q[q.len() - 1] == p1[n1 - 1]);
        assert((bx, by) == (cx, cy));
    } else {
        assert(q[q.len() - 1] == p2[p2.len() - 1]);
    }
    assert(q[0] == (ax, ay) && q[q.len() - 1] == (cx, cy));
}

/// Carving only ever opens passages, so a walk that exists keeps existing.
pub proof fn lemma_connected_mono(
    g1: Seq<Vec<Cell>>,
    g2: Seq<Vec<Cell>>,
    size: int,
    ax: int,
    ay: int,
    bx: int,
    by: int,
)
    requires
        connected(g1, size, ax, ay, bx, by),
        forall|x: int, y: int, d: Direction|
            in_bounds(size, x, y) && #[trigger] open_at(g1, x, y, d) ==> open_at(g2, x, y, d),
    ensures
        connected(g2, size, ax, ay, bx, by),
{
    let p = choose|p: Seq<(int, int)>|
        #[trigger] is_path(g1, size, p) && p[0] == (ax, ay) && p[p.len() - 1] == (bx, by);
    assert forall|i: int| #![trigger p[i]] 0 <= i < p.len() - 1 implies step_open(
        g2,
        size,
        p[i].0,
        p[i].1,
        p[i + 1].0,
        p[i + 1].1,
    ) by {
        assert(step_open(g1, size, p[i].0, p[i].1, p[i + 1].0, p[i + 1].1));
    }
    assert(is_path(g2, size, p));
}

/// Once no reached cell has an unreached neighbor, the reached region has
/// swallowed the whole grid: walking from a reached cell one grid step at a
/// time never leaves the reached region.
pub proof fn lemma_span_marked(g: Seq<Vec<Cell>>, size: int, mx: int, my: int, x: int, y: int)
    requires
        in_bounds(size, mx, my),
        in_bounds(size, x, y),
        marked(g, mx, my),
        forall|cx: int, cy: int|
            in_bounds(size, cx, cy) && marked(g, cx, cy) ==> #[trigger] nbrs_marked(
                g,
                size,
                cx,
                cy,
            ),
    ensures
        marked(g, x, y),
    decreases (if x >= mx { x - mx } else { mx - x }) + (if y >= my { y - my } else { my - y }),
{
    if mx == x && my == y {
    } else if mx < x {
        assert(nbrs_marked(g, size, mx, my));
        lemma_span_marked(g, size, mx + 1, my, x, y);
    } else if mx > x {
        assert(nbrs_marked(g, size, mx, my));
        lemma_span_marked(g, size, mx - 1, my, x, y);
    } else if my < y {
        assert(nbrs_marked(g, size, mx, my));
        lemma_span_marked(g, size, mx, my + 1, x, y);
    } else {
        assert(nbrs_marked(g, size, mx, my));
        lemma_span_marked(g, size, mx, my - 1, x, y);
    }
}

} // verus!
