//! The discrete-time, axis-separated collision resolver: move a rectangular
//! agent by a desired displacement through a field of static axis-aligned
//! obstacles. Each axis is tested and corrected independently, so the agent
//! slides along walls instead of sticking to them, and each axis is tested
//! over the whole stretch it would travel this tick, so no displacement,
//! however large, tunnels through a wall. Coordinates are integer
//! fixed-point units.

use vstd::prelude::*;

verus! {

/// A two-dimensional integer vector: a position, a half-extent or a
/// displacement.
#[derive(Clone, Copy, Debug, PartialEq, Eq, Structural)]
pub struct Vec2i {
    pub x: i64,
    pub y: i64,
}

/// An axis-aligned rectangle given by its center and half-extents.
#[derive(Clone, Copy, Debug, PartialEq, Eq, Structural)]
pub struct Rect {
    pub cx: i64,
    pub cy: i64,
    pub hw: i64,
    pub hh: i64,
}

/// Which side of the moving rectangle the tested rectangle sits on when the
/// two overlap: `Left` means the tested rectangle hangs out on the left of
/// the moving one, and so on; `Inside` means neither axis shows a clean face.
#[derive(Clone, Copy, Debug, PartialEq, Eq, Structural)]
pub enum Collision {
    Left,
    Right,
    Top,
    Bottom,
    Inside,
}

/// The agent's new position and the displacement still to apply after the
/// corrections of one tick.
#[derive(Clone, Copy, Debug, PartialEq, Eq, Structural)]
pub struct Moved {
    pub pos: Vec2i,
    pub delta: Vec2i,
}

/// Every coordinate the resolver takes stays within this bound, so that no
/// sum of a position, a displacement and two half-extents can overflow.
pub const COORD_BOUND: i64 = 0x100_0000_0000;

/// The fields of `r` are bounded by `m` (half-extents are non-negative).
pub open spec fn rect_within(r: Rect, m: int) -> bool {
    &&& -m <= r.cx <= m
    &&& -m <= r.cy <= m
    &&& 0 <= r.hw <= m
    &&& 0 <= r.hh <= m
}

/// The fields of `v` are bounded by `m`.
pub open spec fn vec_within(v: Vec2i, m: int) -> bool {
    -m <= v.x <= m && -m <= v.y <= m
}

/// The magnitude of `v`.
pub open spec fn iabs(v: int) -> int {
    if v >= 0 {
        v
    } else {
        -v
    }
}

/// Rectangle `a` and the rectangle of center `(bcx, bcy)` and half-extents
/// `(bhw, bhh)` overlap with positive area.
pub open spec fn overlaps(a: Rect, bcx: int, bcy: int, bhw: int, bhh: int) -> bool {
    &&& a.cx - a.hw < bcx + bhw
    &&& a.cx + a.hw > bcx - bhw
    &&& a.cy - a.hh < bcy + bhh
    &&& a.cy + a.hh > bcy - bhh
}

/// The side of the x-axis test: `Left` when `a` hangs out past the moving
/// rectangle's left face, `Right` past its right face, nothing when `a`
/// spans it or sits inside it on this axis.
pub open spec fn x_side(a: Rect, bcx: int, bhw: int) -> Option<Collision> {
    if a.cx - a.hw < bcx - bhw && a.cx + a.hw > bcx - bhw && a.cx + a.hw < bcx + bhw {
        Some(Collision::Left)
    } else if a.cx - a.hw > bcx - bhw && a.cx - a.hw < bcx + bhw && a.cx + a.hw > bcx + bhw {
        Some(Collision::Right)
    } else {
        None
    }
}

/// Penetration depth of the x-axis test, negative toward the interior.
pub open spec fn x_depth(a: Rect, bcx: int, bhw: int) -> int {
    match x_side(a, bcx, bhw) {
        Some(Collision::Left) => (bcx - bhw) - (a.cx + a.hw),
        Some(Collision::Right) => (a.cx - a.hw) - (bcx + bhw),
        _ => 0,
    }
}

/// The side of the y-axis test: `Bottom` when `a` hangs out below the moving
/// rectangle, `Top` above it.
pub open spec fn y_side(a: Rect, bcy: int, bhh: int) -> Option<Collision> {
    if a.cy - a.hh < bcy - bhh && a.cy + a.hh > bcy - bhh && a.cy + a.hh < bcy + bhh {
        Some(Collision::Bottom)
    } else if a.cy - a.hh > bcy - bhh && a.cy - a.hh < bcy + bhh && a.cy + a.hh > bcy + bhh {
        Some(Collision::Top)
    } else {
        None
    }
}

/// Penetration depth of the y-axis test, negative toward the interior.
pub open spec fn y_depth(a: Rect, bcy: int, bhh: int) -> int {
    match y_side(a, bcy, bhh) {
        Some(Collision::Bottom) => (bcy - bhh) - (a.cy + a.hh),
        Some(Collision::Top) => (a.cy - a.hh) - (bcy + bhh),
        _ => 0,
    }
}

/// The AABB side test: when the rectangles overlap, report the face of the
/// moving rectangle that `a` approaches, picking between the two axes by the
/// smaller penetration depth; `Inside` when neither axis shows a face.
pub open spec fn spec_collide(a: Rect, bcx: int, bcy: int, bhw: int, bhh: int) -> Option<
    Collision,
> {
    if overlaps(a, bcx, bcy, bhw, bhh) {
        match (x_side(a, bcx, bhw), y_side(a, bcy, bhh)) {
            (Some(xc), Some(yc)) => if iabs(y_depth(a, bcy, bhh)) < iabs(x_depth(a, bcx, bhw)) {
                Some(yc)
            } else {
                Some(xc)
            },
            (Some(xc), None) => Some(xc),
            (None, Some(yc)) => Some(yc),
            (None, None) => Some(Collision::Inside),
        }
    } else {
        None
    }
}

/// Check whether rectangle `a` overlaps rectangle `b`, and on which side of
/// `b` it sits.
pub fn collide(a: &Rect, b: &Rect) -> (r: Option<Collision>)
    requires
        rect_within(*a, 16 * COORD_BOUND as int),
        rect_within(*b, 16 * COORD_BOUND as int),
    ensures
        r == spec_collide(*a, b.cx as int, b.cy as int, b.hw as int, b.hh as int),
{
    let a_min_x = a.cx - a.hw;
    let a_max_x = a.cx + a.hw;
    let a_min_y = a.cy - a.hh;
    let a_max_y = a.cy + a.hh;
    let b_min_x = b.cx - b.hw;
    let b_max_x = b.cx + b.hw;
    let b_min_y = b.cy - b.hh;
    let b_max_y = b.cy + b.hh;
    if a_min_x < b_max_x && a_max_x > b_min_x && a_min_y < b_max_y && a_max_y > b_min_y {
        let x_hit: Option<Collision> = if a_min_x < b_min_x && a_max_x > b_min_x && a_max_x
            < b_max_x {
            Some(Collision::Left)
        } else if a_min_x > b_min_x && a_min_x < b_max_x && a_max_x > b_max_x {
            Some(Collision::Right)
        } else {
            None
        };
        let y_hit: Option<Collision> = if a_min_y < b_min_y && a_max_y > b_min_y && a_max_y
            < b_max_y {
            Some(Collision::Bottom)
        } else if a_min_y > b_min_y && a_min_y < b_max_y && a_max_y > b_max_y {
            Some(Collision::Top)
        } else {
            None
        };
        match (x_hit, y_hit) {
            (Some(xc), Some(yc)) => {
                let xd: i64 = if xc == Collision::Left {
                    b_min_x - a_max_x
                } else {
                    a_min_x - b_max_x
                };
                let yd: i64 = if yc == Collision::Bottom {
                    b_min_y - a_max_y
                } else {
                    a_min_y - b_max_y
                };
                let xda: i64 = if xd >= 0 {
                    xd
                } else {
                    -xd
                };
                let yda: i64 = if yd >= 0 {
                    yd
                } else {
                    -yd
                };
                if yda < xda {
                    Some(yc)
                } else {
                    Some(xc)
                }
            },
            (Some(xc), None) => Some(xc),
            (None, Some(yc)) => Some(yc),
            (None, None) => Some(Collision::Inside),
        }
    } else {
        None
    }
}

/// The x spans of obstacle `o` and of an agent centered at `px` overlap.
pub open spec fn x_span_overlap(o: Rect, px: int, hx: int) -> bool {
    o.cx - o.hw < px + hx && o.cx + o.hw > px - hx
}

/// The y spans of obstacle `o` and of an agent centered at `py` overlap.
pub open spec fn y_span_overlap(o: Rect, py: int, hy: int) -> bool {
    o.cy - o.hh < py + hy && o.cy + o.hh > py - hy
}

/// One obstacle's test-and-correct, on the agent state
/// `(pos x, pos y, delta x, delta y)`: each axis is tested alone over the
/// stretch it would travel this tick, with the other axis held at its
/// current position. When the obstacle overlaps the agent on the held axis
/// and the face the agent moves toward lies within the traveled stretch,
/// that axis is zeroed and the agent snaps exactly flush against the face,
/// so no displacement, however large, carries the agent through.
pub open spec fn step_state(
    px: int,
    py: int,
    dx: int,
    dy: int,
    hx: int,
    hy: int,
    o: Rect,
) -> (int, int, int, int) {
    let xpart: (int, int) = if dx > 0 && y_span_overlap(o, py, hy) && px + hx <= o.cx - o.hw
        && o.cx - o.hw <= px + dx + hx {
        (o.cx - o.hw - hx, 0)
    } else if dx < 0 && y_span_overlap(o, py, hy) && px - hx >= o.cx + o.hw && o.cx + o.hw >= px
        + dx - hx {
        (o.cx + o.hw + hx, 0)
    } else {
        (px, dx)
    };
    let ypart: (int, int) = if dy > 0 && x_span_overlap(o, px, hx) && py + hy <= o.cy - o.hh
        && o.cy - o.hh <= py + dy + hy {
        (o.cy - o.hh - hy, 0)
    } else if dy < 0 && x_span_overlap(o, px, hx) && py - hy >= o.cy + o.hh && o.cy + o.hh >= py
        + dy - hy {
        (o.cy + o.hh + hy, 0)
    } else {
        (py, dy)
    };
    (xpart.0, ypart.0, xpart.1, ypart.1)
}

/// The agent state after the obstacles from index `i` on have each tested
/// and corrected the tick, in order. A correction zeroes its axis, and a
/// zero displacement triggers no further correction, so the first obstacle
/// to clamp an axis is the one whose snap sticks, whatever comes after it.
pub open spec fn resolve_from(
    px: int,
    py: int,
    dx: int,
    dy: int,
    hx: int,
    hy: int,
    obs: Seq<Rect>,
    i: int,
) -> (int, int, int, int)
    decreases obs.len() - i,
{
    if i < 0 || i >= obs.len() {
        (px, py, dx, dy)
    } else {
        let s = step_state(px, py, dx, dy, hx, hy, obs[i]);
        resolve_from(s.0, s.1, s.2, s.3, hx, hy, obs, i + 1)
    }
}

/// The agent state after every obstacle has tested and corrected the tick.
pub open spec fn spec_resolve(
    px: int,
    py: int,
    dx: int,
    dy: int,
    hx: int,
    hy: int,
    obs: Seq<Rect>,
) -> (int, int, int, int) {
    resolve_from(px, py, dx, dy, hx, hy, obs, 0)
}

/// Resolve one tick of movement: starting from center `pos` with half-extents
/// `half`, test the displacement `delta` axis by axis against every obstacle,
/// over the whole stretch that axis would travel, zeroing a blocked axis and
/// snapping the agent flush against the blocking face. Hands back the
/// (possibly snapped) position and the corrected displacement; the caller
/// applies `pos + delta`.
pub fn resolve_movement(pos: Vec2i, half: Vec2i, delta: Vec2i, obstacles: &Vec<Rect>) -> (r: Moved)
    requires
        vec_within(pos, COORD_BOUND as int),
        vec_within(half, COORD_BOUND as int),
        0 <= half.x && 0 <= half.y,
        vec_within(delta, COORD_BOUND as int),
        forall|i: int|
            0 <= i < obstacles@.len() ==> rect_within(
                #[trigger] obstacles@[i],
                COORD_BOUND as int,
            ),
    ensures
        (r.pos.x as int, r.pos.y as int, r.delta.x as int, r.delta.y as int) == spec_resolve(
            pos.x as int,
            pos.y as int,
            delta.x as int,
            delta.y as int,
            half.x as int,
            half.y as int,
            obstacles@,
        ),
{
    let ghost bound = COORD_BOUND as int;
    let mut px = pos.x;
    let mut py = pos.y;
    let mut dx = delta.x;
    let mut dy = delta.y;
    let mut i: usize = 0;
    while i < obstacles.len()
        invariant
            bound == COORD_BOUND as int,
            i <= obstacles@.len(),
            -3 * bound <= px <= 3 * bound,
            -3 * bound <= py <= 3 * bound,
            -bound <= dx <= bound,
            -bound <= dy <= bound,
            0 <= half.x <= bound,
            0 <= half.y <= bound,
            forall|j: int|
                0 <= j < obstacles@.len() ==> rect_within(#[trigger] obstacles@[j], bound),
            spec_resolve(
                pos.x as int,
                pos.y as int,
                delta.x as int,
                delta.y as int,
                half.x as int,
                half.y as int,
                obstacles@,
            ) == resolve_from(
                px as int,
                py as int,
                dx as int,
                dy as int,
                half.x as int,
                half.y as int,
                obstacles@,
                i as int,
            ),
        decreases obstacles@.len() - i,
    {
        let o = obstacles[i];
        let ghost st = (px as int, py as int, dx as int, dy as int);
        let y_olap = o.cy - o.hh < py + half.y && o.cy + o.hh > py - half.y;
        let x_olap = o.cx - o.hw < px + half.x && o.cx + o.hw > px - half.x;
        let px0 = px;
        let py0 = py;
        if dx > 0 && y_olap && px0 + half.x <= o.cx - o.hw && o.cx - o.hw <= px0 + dx + half.x {
            px = o.cx - o.hw - half.x;
            dx = 0;
        } else if dx < 0 && y_olap && px0 - half.x >= o.cx + o.hw && o.cx + o.hw >= px0 + dx
            - half.x {
            px = o.cx + o.hw + half.x;
            dx = 0;
        }
        if dy > 0 && x_olap && py0 + half.y <= o.cy - o.hh && o.cy - o.hh <= py0 + dy + half.y {
            py = o.cy - o.hh - half.y;
            dy = 0;
        } else if dy < 0 && x_olap && py0 - half.y >= o.cy + o.hh && o.cy + o.hh >= py0 + dy
            - half.y {
            py = o.cy + o.hh + half.y;
            dy = 0;
        }
        proof {
            let oi = obstacles@[i as int];
            assert(step_state(st.0, st.1, st.2, st.3, half.x as int, half.y as int, oi) == (
            px as int,
            py as int,
            dx as int,
            dy as int,
            ));
        }
        i += 1;
    }
    Moved { pos: Vec2i { x: px, y: py }, delta: Vec2i { x: dx, y: dy } }
}

/// A zero desired displacement is a no-op against any obstacle set: nothing
/// is corrected and the agent stands where it stood.
pub proof fn lemma_zero_delta_noop(px: int, py: int, hx: int, hy: int, obs: Seq<Rect>)
    ensures
        spec_resolve(px, py, 0, 0, hx, hy, obs) == (px, py, 0int, 0int),
{
    lemma_zero_delta_from(px, py, hx, hy, obs, 0);
}

/// Collision non-penetration eastward: an agent standing clear on the west
/// side of an obstacle whose y span overlaps its own, pushed east far enough
/// to reach the obstacle's west face, comes out with the x axis zeroed and
/// its east edge exactly flush against that face: zero overlap and zero gap,
/// however large the push.
pub proof fn lemma_blocked_flush_east(px: int, py: int, dx: int, hx: int, hy: int, o: Rect)
    requires
        dx > 0,
        px + hx <= o.cx - o.hw,
        o.cx - o.hw <= px + dx + hx,
        y_span_overlap(o, py, hy),
    ensures
        spec_resolve(px, py, dx, 0, hx, hy, seq![o]) == (o.cx - o.hw - hx, py, 0int, 0int),
{
    let obs = seq![o];
    assert(step_state(px, py, dx, 0, hx, hy, o) == (o.cx - o.hw - hx, py, 0int, 0int));
    assert(resolve_from(px, py, dx, 0, hx, hy, obs, 0) == resolve_from(
        o.cx - o.hw - hx,
        py,
        0,
        0,
        hx,
        hy,
        obs,
        1,
    ));
}

/// As `lemma_blocked_flush_east`, for an agent moving west against an
/// obstacle on its west side.
pub proof fn lemma_blocked_flush_west(px: int, py: int, dx: int, hx: int, hy: int, o: Rect)
    requires
        dx < 0,
        px - hx >= o.cx + o.hw,
        o.cx + o.hw >= px + dx - hx,
        y_span_overlap(o, py, hy),
    ensures
        spec_resolve(px, py, dx, 0, hx, hy, seq![o]) == (o.cx + o.hw + hx, py, 0int, 0int),
{
    let obs = seq![o];
    assert(step_state(px, py, dx, 0, hx, hy, o) == (o.cx + o.hw + hx, py, 0int, 0int));
    assert(resolve_from(px, py, dx, 0, hx, hy, obs, 0) == resolve_from(
        o.cx + o.hw + hx,
        py,
        0,
        0,
        hx,
        hy,
        obs,
        1,
    ));
}

/// As `lemma_blocked_flush_east`, for an agent moving up against an obstacle
/// above it.
pub proof fn lemma_blocked_flush_up(px: int, py: int, dy: int, hx: int, hy: int, o: Rect)
    requires
        dy > 0,
        py + hy <= o.cy - o.hh,
        o.cy - o.hh <= py + dy + hy,
        x_span_overlap(o, px, hx),
    ensures
        spec_resolve(px, py, 0, dy, hx, hy, seq![o]) == (px, o.cy - o.hh - hy, 0int, 0int),
{
    let obs = seq![o];
    assert(step_state(px, py, 0, dy, hx, hy, o) == (px, o.cy - o.hh - hy, 0int, 0int));
    assert(resolve_from(px, py, 0, dy, hx, hy, obs, 0) == resolve_from(
        px,
        o.cy - o.hh - hy,
        0,
        0,
        hx,
        hy,
        obs,
        1,
    ));
}

/// As `lemma_blocked_flush_east`, for an agent moving down against an
/// obstacle below it.
pub proof fn lemma_blocked_flush_down(px: int, py: int, dy: int, hx: int, hy: int, o: Rect)
    requires
        dy < 0,
        py - hy >= o.cy + o.hh,
        o.cy + o.hh >= py + dy - hy,
        x_span_overlap(o, px, hx),
    ensures
        spec_resolve(px, py, 0, dy, hx, hy, seq![o]) == (px, o.cy + o.hh + hy, 0int, 0int),
{
    let obs = seq![o];
    assert(step_state(px, py, 0, dy, hx, hy, o) == (px, o.cy + o.hh + hy, 0int, 0int));
    assert(resolve_from(px, py, 0, dy, hx, hy, obs, 0) == resolve_from(
        px,
        o.cy + o.hh + hy,
        0,
        0,
        hx,
        hy,
        obs,
        1,
    ));
}

/// As `lemma_zero_delta_noop`, from any starting index.
proof fn lemma_zero_delta_from(px: int, py: int, hx: int, hy: int, obs: Seq<Rect>, i: int)
    ensures
        resolve_from(px, py, 0, 0, hx, hy, obs, i) == (px, py, 0int, 0int),
    decreases obs.len() - i,
{
    if 0 <= i < obs.len() {
        assert(step_state(px, py, 0, 0, hx, hy, obs[i]) == (px, py, 0int, 0int));
        lemma_zero_delta_from(px, py, hx, hy, obs, i + 1);
    }
}

} // verus!
