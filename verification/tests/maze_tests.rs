//! Tests of the maze generator: structure, connectivity, gates, coins, and
//! determinism under a fixed seed.

use maze_core::maze::{delta_dir, generate_maze, opposite_dir, Cell, Direction, Maze, Point};
use rand::SeedableRng;

fn seeded(seed: u64) -> rand::rngs::StdRng {
    rand::rngs::StdRng::seed_from_u64(seed)
}

fn has_dir(cell: &Cell, d: Direction) -> bool {
    cell.directions.contains(&d)
}

fn dir_offset(d: Direction) -> (isize, isize) {
    match d {
        Direction::North => (0, -1),
        Direction::South => (0, 1),
        Direction::East => (1, 0),
        Direction::West => (-1, 0),
    }
}

/// Flood-fill over the open directions from `(sx, sy)`; returns how many
/// cells are reached. A passage counts only when both sides are carved.
fn flood_count(m: &Maze, size: usize, sx: usize, sy: usize) -> usize {
    let mut seen = vec![vec![false; size]; size];
    let mut queue = vec![(sx, sy)];
    seen[sy][sx] = true;
    let mut reached = 0;
    while let Some((x, y)) = queue.pop() {
        reached += 1;
        for d in [
            Direction::North,
            Direction::South,
            Direction::East,
            Direction::West,
        ] {
            let (dx, dy) = dir_offset(d);
            let nx = x as isize + dx;
            let ny = y as isize + dy;
            if nx < 0 || ny < 0 || nx >= size as isize || ny >= size as isize {
                continue;
            }
            let (nx, ny) = (nx as usize, ny as usize);
            if seen[ny][nx] {
                continue;
            }
            if has_dir(&m.path[y][x], d) && has_dir(&m.path[ny][nx], opposite_dir(d)) {
                seen[ny][nx] = true;
                queue.push((nx, ny));
            }
        }
    }
    reached
}

/// Interior passage-pairs, each counted at its west or north cell.
fn pair_count(m: &Maze, size: usize) -> usize {
    let mut pairs = 0;
    for y in 0..size {
        for x in 0..size {
            if x + 1 < size && has_dir(&m.path[y][x], Direction::East) {
                pairs += 1;
            }
            if y + 1 < size && has_dir(&m.path[y][x], Direction::South) {
                pairs += 1;
            }
        }
    }
    pairs
}

fn dead_end_count(m: &Maze, size: usize) -> usize {
    let mut n = 0;
    for row in &m.path {
        for cell in row {
            if cell.directions.len() == 1 {
                n += 1;
            }
        }
    }
    let _ = size;
    n
}

fn coin_count(m: &Maze) -> usize {
    m.path
        .iter()
        .flat_map(|row| row.iter())
        .filter(|c| c.coin)
        .count()
}

#[test]
fn connectivity_flood_fill_reaches_everything() {
    for (size, seed) in [(2usize, 1u64), (3, 2), (5, 3), (11, 4), (12, 5)] {
        let mut rng = seeded(seed);
        let m = generate_maze(size, 0, &mut rng);
        for (sx, sy) in [(0usize, 0usize), (size - 1, size - 1), (size / 2, 0)] {
            assert_eq!(flood_count(&m, size, sx, sy), size * size);
        }
    }
}

#[test]
fn spanning_tree_edge_count() {
    for (size, seed) in [(2usize, 10u64), (3, 11), (7, 12), (11, 13)] {
        let mut rng = seeded(seed);
        let m = generate_maze(size, 3, &mut rng);
        assert_eq!(pair_count(&m, size), size * size - 1);
    }
}

#[test]
fn entrance_and_exit_are_open() {
    for size in 1usize..=13 {
        let mut rng = seeded(size as u64);
        let m = generate_maze(size, 2, &mut rng);
        let mid = size / 2;
        assert!(has_dir(&m.path[mid][0], Direction::West));
        assert!(has_dir(&m.path[mid][size - 1], Direction::East));
    }
}

#[test]
fn every_passage_is_two_sided_except_gates() {
    let size = 9usize;
    let mut rng = seeded(77);
    let m = generate_maze(size, 5, &mut rng);
    let mid = size / 2;
    for y in 0..size {
        for x in 0..size {
            for &d in &m.path[y][x].directions {
                let (dx, dy) = dir_offset(d);
                let nx = x as isize + dx;
                let ny = y as isize + dy;
                let interior = nx >= 0 && ny >= 0 && (nx as usize) < size && (ny as usize) < size;
                if interior {
                    assert!(has_dir(
                        &m.path[ny as usize][nx as usize],
                        opposite_dir(d)
                    ));
                } else {
                    let entrance = x == 0 && y == mid && d == Direction::West;
                    let exit = x == size - 1 && y == mid && d == Direction::East;
                    assert!(entrance || exit);
                }
            }
        }
    }
}

#[test]
fn coin_bound_is_min_of_budget_cap_and_dead_ends() {
    for (size, budget, seed) in [
        (11usize, 0usize, 21u64),
        (11, 1, 22),
        (11, 3, 23),
        (11, 5, 24),
        (11, 100, 25),
        (2, 100, 26),
        (3, 2, 27),
    ] {
        let mut rng = seeded(seed);
        let m = generate_maze(size, budget, &mut rng);
        let dead_ends = dead_end_count(&m, size);
        let expected = budget.min(5).min(dead_ends);
        assert_eq!(coin_count(&m), expected);
    }
}

#[test]
fn coins_sit_on_dead_ends_only() {
    let mut rng = seeded(31);
    let m = generate_maze(11, 5, &mut rng);
    for row in &m.path {
        for cell in row {
            if cell.coin {
                assert_eq!(cell.directions.len(), 1);
            }
        }
    }
}

#[test]
fn deterministic_under_fixed_seed() {
    for size in [2usize, 5, 11] {
        let mut rng_a = seeded(42);
        let mut rng_b = seeded(42);
        let a = generate_maze(size, 5, &mut rng_a);
        let b = generate_maze(size, 5, &mut rng_b);
        assert_eq!(a, b);
    }
}

#[test]
fn size_zero_yields_empty_grid() {
    let mut rng = seeded(1);
    let m = generate_maze(0, 5, &mut rng);
    assert!(m.path.is_empty());
}

#[test]
fn size_one_has_gates_and_no_coins() {
    let mut rng = seeded(2);
    let m = generate_maze(1, 5, &mut rng);
    assert_eq!(m.path.len(), 1);
    assert_eq!(m.path[0].len(), 1);
    assert!(has_dir(&m.path[0][0], Direction::West));
    assert!(has_dir(&m.path[0][0], Direction::East));
    assert_eq!(coin_count(&m), 0);
}

#[test]
fn entropy_seeded_maze_is_well_formed() {
    let size = 11usize;
    let m = Maze::new(size, 5);
    assert_eq!(m.path.len(), size);
    assert_eq!(flood_count(&m, size, 0, 0), size * size);
    assert_eq!(pair_count(&m, size), size * size - 1);
}

#[test]
fn end_to_end_walk_from_entrance_to_exit() {
    let size = 11usize;
    let mut rng = seeded(99);
    let m = generate_maze(size, 5, &mut rng);
    let dead_ends = dead_end_count(&m, size);
    assert_eq!(coin_count(&m), 5.min(dead_ends));
    assert_eq!(flood_count(&m, size, 0, 0), size * size);

    // Breadth-first search for the unique path from the entrance cell to the
    // exit cell.
    let start = (0usize, size / 2);
    let goal = (size - 1, size / 2);
    let mut prev = vec![vec![None; size]; size];
    let mut seen = vec![vec![false; size]; size];
    let mut frontier = vec![start];
    seen[start.1][start.0] = true;
    while !frontier.is_empty() {
        let mut next = Vec::new();
        for (x, y) in frontier {
            for d in [
                Direction::North,
                Direction::South,
                Direction::East,
                Direction::West,
            ] {
                let (dx, dy) = dir_offset(d);
                let nx = x as isize + dx;
                let ny = y as isize + dy;
                if nx < 0 || ny < 0 || nx >= size as isize || ny >= size as isize {
                    continue;
                }
                let (nx, ny) = (nx as usize, ny as usize);
                if seen[ny][nx]
                    || !has_dir(&m.path[y][x], d)
                    || !has_dir(&m.path[ny][nx], opposite_dir(d))
                {
                    continue;
                }
                seen[ny][nx] = true;
                prev[ny][nx] = Some((x, y));
                next.push((nx, ny));
            }
        }
        frontier = next;
    }
    assert!(seen[goal.1][goal.0]);
    // Walk the path back and count the coins it crosses.
    let mut coins_on_path = 0;
    let mut cur = goal;
    let mut steps = 0;
    while cur != start {
        if m.path[cur.1][cur.0].coin {
            coins_on_path += 1;
        }
        cur = prev[cur.1][cur.0].unwrap();
        steps += 1;
        assert!(steps <= size * size);
    }
    assert!(coins_on_path <= coin_count(&m));
}

#[test]
fn cell_starts_fresh_and_carves() {
    let mut c = Cell::new();
    assert!(c.is_zero());
    assert!(!c.coin);
    c.carve(Direction::North);
    assert!(!c.is_zero());
    assert_eq!(c.directions, vec![Direction::North]);
    let d: Cell = Default::default();
    assert!(d.is_zero());
}

#[test]
fn direction_helpers() {
    assert_eq!(opposite_dir(Direction::North), Direction::South);
    assert_eq!(opposite_dir(Direction::South), Direction::North);
    assert_eq!(opposite_dir(Direction::East), Direction::West);
    assert_eq!(opposite_dir(Direction::West), Direction::East);
    assert_eq!(delta_dir(Direction::North), Point { x: 0, y: -1 });
    assert_eq!(delta_dir(Direction::South), Point { x: 0, y: 1 });
    assert_eq!(delta_dir(Direction::East), Point { x: 1, y: 0 });
    assert_eq!(delta_dir(Direction::West), Point { x: -1, y: 0 });
}
