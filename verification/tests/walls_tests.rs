//! Tests of the wall derivation: one rectangle per closed passage, placed so
//! that the resolver blocks movement through closed faces and allows it
//! through open ones.

use maze_core::collision::{resolve_movement, Moved, Rect, Vec2i};
use maze_core::maze::{generate_maze, Direction, Maze};
use maze_core::walls::wall_rects;
use rand::SeedableRng;

fn closed_direction_count(m: &Maze) -> usize {
    let mut closed = 0;
    for row in &m.path {
        for cell in row {
            for d in [
                Direction::North,
                Direction::South,
                Direction::East,
                Direction::West,
            ] {
                if !cell.directions.contains(&d) {
                    closed += 1;
                }
            }
        }
    }
    closed
}

#[test]
fn one_wall_per_closed_passage() {
    for (size, seed) in [(2usize, 7u64), (5, 8), (11, 9)] {
        let mut rng = rand::rngs::StdRng::seed_from_u64(seed);
        let m = generate_maze(size, 3, &mut rng);
        let walls = wall_rects(&m, size, 10, 2);
        assert_eq!(walls.len(), closed_direction_count(&m));
        // A spanning tree opens 2 * (size^2 - 1) interior passages and the
        // two gates, leaving exactly 2 * size^2 closed faces.
        assert_eq!(walls.len(), 2 * size * size);
    }
}

#[test]
fn wall_geometry_of_a_single_cell() {
    let mut rng = rand::rngs::StdRng::seed_from_u64(3);
    let m = generate_maze(1, 0, &mut rng);
    // The lone cell has its gates open to the west and east; its north and
    // south faces are walled.
    let walls = wall_rects(&m, 1, 10, 2);
    assert_eq!(walls.len(), 2);
    assert!(walls.contains(&Rect { cx: 0, cy: -12, hw: 14, hh: 2 }));
    assert!(walls.contains(&Rect { cx: 0, cy: 12, hw: 14, hh: 2 }));
}

#[test]
fn agent_blocked_by_a_maze_wall_ends_flush() {
    let mut rng = rand::rngs::StdRng::seed_from_u64(5);
    let size = 5usize;
    let m = generate_maze(size, 0, &mut rng);
    let walls = wall_rects(&m, size, 10, 2);
    // The top-left cell's north face borders the outside, so it is walled.
    // Pushing north from its center gets stopped flush under that wall.
    let r = resolve_movement(
        Vec2i { x: 0, y: 0 },
        Vec2i { x: 8, y: 8 },
        Vec2i { x: 0, y: -5 },
        &walls,
    );
    assert_eq!(r, Moved { pos: Vec2i { x: 0, y: -2 }, delta: Vec2i { x: 0, y: 0 } });
}

#[test]
fn agent_walks_out_through_the_entrance() {
    let mut rng = rand::rngs::StdRng::seed_from_u64(6);
    let size = 5usize;
    let m = generate_maze(size, 0, &mut rng);
    let walls = wall_rects(&m, size, 10, 2);
    // The entrance cell's west face is open: no wall stops a small westward
    // step from its center.
    let mid = (size / 2) as i64;
    let start = Vec2i { x: 0, y: mid * 24 };
    let r = resolve_movement(start, Vec2i { x: 8, y: 8 }, Vec2i { x: -4, y: 0 }, &walls);
    assert_eq!(r, Moved { pos: start, delta: Vec2i { x: -4, y: 0 } });
}
