//! Tests of the axis-separated collision resolver: side classification,
//! flush blocking without tunneling, wall sliding at corners, no-op
//! displacements, and the documented first-clamp-sticks ordering.

use maze_core::collision::{collide, resolve_movement, Collision, Moved, Rect, Vec2i};

fn rect(cx: i64, cy: i64, hw: i64, hh: i64) -> Rect {
    Rect { cx, cy, hw, hh }
}

fn v(x: i64, y: i64) -> Vec2i {
    Vec2i { x, y }
}

#[test]
fn collide_reports_each_side() {
    let agent = rect(0, 0, 10, 10);
    // The obstacle hangs out to the left of the agent.
    assert_eq!(collide(&rect(-15, 0, 10, 10), &agent), Some(Collision::Left));
    assert_eq!(
        collide(&rect(15, 0, 10, 10), &agent),
        Some(Collision::Right)
    );
    assert_eq!(
        collide(&rect(0, -15, 10, 10), &agent),
        Some(Collision::Bottom)
    );
    assert_eq!(collide(&rect(0, 15, 10, 10), &agent), Some(Collision::Top));
    // A rectangle buried in the agent shows no clean face.
    assert_eq!(collide(&rect(0, 0, 2, 2), &agent), Some(Collision::Inside));
    // Separated rectangles do not collide; touching edges do not either.
    assert_eq!(collide(&rect(40, 0, 10, 10), &agent), None);
    assert_eq!(collide(&rect(20, 0, 10, 10), &agent), None);
}

#[test]
fn collide_picks_the_shallower_axis() {
    let agent = rect(0, 0, 10, 10);
    // Deep on x, shallow on y: the y side wins.
    let o = rect(5, 18, 10, 10);
    assert_eq!(collide(&o, &agent), Some(Collision::Top));
}

#[test]
fn blocked_agent_ends_flush_against_the_wall() {
    // A square agent adjacent to an equal square obstacle, pushed into it:
    // the x axis is zeroed and the agent's east edge stays exactly on the
    // obstacle's west edge.
    let half = v(10, 10);
    let wall = rect(20, 0, 10, 10);
    let r = resolve_movement(v(0, 0), half, v(10, 0), &vec![wall]);
    assert_eq!(r, Moved { pos: v(0, 0), delta: v(0, 0) });
    assert_eq!(r.pos.x + half.x, wall.cx - wall.hw);

    // Starting short of the wall, the snap still lands flush.
    let r2 = resolve_movement(v(-3, 0), half, v(9, 0), &vec![wall]);
    assert_eq!(r2, Moved { pos: v(0, 0), delta: v(0, 0) });

    // And symmetrically when moving west into a wall on the west side.
    let west_wall = rect(-20, 0, 10, 10);
    let r3 = resolve_movement(v(0, 0), half, v(-10, 0), &vec![west_wall]);
    assert_eq!(r3, Moved { pos: v(0, 0), delta: v(0, 0) });
    assert_eq!(r3.pos.x - half.x, west_wall.cx + west_wall.hw);
}

#[test]
fn a_large_displacement_cannot_tunnel() {
    // Each axis is tested over the whole stretch it travels, so a
    // displacement of ten times the obstacle's size still stops flush
    // instead of jumping past.
    let half = v(10, 10);
    let wall = rect(20, 0, 10, 10);
    let r = resolve_movement(v(0, 0), half, v(200, 0), &vec![wall]);
    assert_eq!(r, Moved { pos: v(0, 0), delta: v(0, 0) });
    assert_eq!(r.pos.x + half.x, wall.cx - wall.hw);

    // The same in the smallest units: a unit-square agent adjacent to a
    // unit-square obstacle, pushed by ten times its size.
    let unit_half = v(1, 1);
    let unit_wall = rect(2, 0, 1, 1);
    let r2 = resolve_movement(v(0, 0), unit_half, v(20, 0), &vec![unit_wall]);
    assert_eq!(r2, Moved { pos: v(0, 0), delta: v(0, 0) });
    assert_eq!(r2.pos.x + unit_half.x, unit_wall.cx - unit_wall.hw);
}

#[test]
fn corner_blocks_one_axis_and_lets_the_other_slide() {
    // An obstacle to the east, open space to the north: the diagonal intent
    // keeps its y component and loses its x component.
    let half = v(10, 10);
    let wall = rect(20, 0, 10, 10);
    let r = resolve_movement(v(0, 0), half, v(5, 5), &vec![wall]);
    assert_eq!(r, Moved { pos: v(0, 0), delta: v(0, 5) });

    // The same at a unit-square corner, with a displacement that overshoots
    // the obstacle: x still blocks, y still passes.
    let unit_half = v(1, 1);
    let unit_wall = rect(2, 0, 1, 1);
    let r2 = resolve_movement(v(0, 0), unit_half, v(10, 10), &vec![unit_wall]);
    assert_eq!(r2, Moved { pos: v(0, 0), delta: v(0, 10) });
}

#[test]
fn zero_delta_is_a_no_op() {
    let half = v(10, 10);
    let sets: Vec<Vec<Rect>> = vec![
        vec![],
        vec![rect(20, 0, 10, 10)],
        vec![rect(0, 0, 2, 2), rect(-15, 0, 10, 10), rect(0, 15, 10, 10)],
    ];
    for obstacles in sets {
        let r = resolve_movement(v(3, -4), half, v(0, 0), &obstacles);
        assert_eq!(r, Moved { pos: v(3, -4), delta: v(0, 0) });
    }
}

#[test]
fn first_wall_to_clamp_an_axis_sticks() {
    // Two overlapping walls can both clamp the same tick. A correction
    // zeroes the axis, and a zero displacement triggers no further
    // correction, so the snap of the wall processed first sticks and the
    // result depends on iteration order.
    let half = v(10, 10);
    let near = rect(20, 0, 10, 10);
    let far = rect(24, 0, 10, 10);
    let towards = v(5, 0);
    let a = resolve_movement(v(0, 0), half, towards, &vec![near, far]);
    let b = resolve_movement(v(0, 0), half, towards, &vec![far, near]);
    // The near wall first leaves the agent flush with the near face; the far
    // wall first snaps the agent to its own face instead.
    assert_eq!(a.pos, v(0, 0));
    assert_eq!(b.pos, v(4, 0));
    assert_eq!(a.delta, v(0, 0));
    assert_eq!(b.delta, v(0, 0));
}

#[test]
fn vertical_movement_snaps_too() {
    let half = v(5, 5);
    let floor = rect(0, -20, 30, 10);
    // Moving down (negative y) onto a floor below: flush on top of it.
    let r = resolve_movement(v(0, 0), half, v(0, -9), &vec![floor]);
    assert_eq!(r, Moved { pos: v(0, -5), delta: v(0, 0) });
    assert_eq!(r.pos.y - half.y, floor.cy + floor.hh);
    let ceiling = rect(0, 20, 30, 10);
    let r2 = resolve_movement(v(0, 0), half, v(0, 9), &vec![ceiling]);
    assert_eq!(r2, Moved { pos: v(0, 5), delta: v(0, 0) });
}
