use maze_war::level::{START_X, START_Y};
use maze_war::maze::{Cell, Maze};
use maze_war::protocol::maze_to_protocol;

fn reachable_from_start(m: &Maze) -> Vec<Vec<bool>> {
    let mut seen = vec![vec![false; m.width]; m.height];
    let mut stack = vec![(START_X, START_Y)];
    if !m.is_walkable(START_X, START_Y) {
        return seen;
    }
    seen[START_Y][START_X] = true;
    while let Some((x, y)) = stack.pop() {
        let mut next = Vec::new();
        if x > 0 {
            next.push((x - 1, y));
        }
        if y > 0 {
            next.push((x, y - 1));
        }
        next.push((x + 1, y));
        next.push((x, y + 1));
        for (nx, ny) in next {
            if m.is_walkable(nx, ny) && !seen[ny][nx] {
                seen[ny][nx] = true;
                stack.push((nx, ny));
            }
        }
    }
    seen
}

#[test]
fn every_level_has_expected_shape() {
    let expected = [
        (1u8, 1u32, 20usize, 20usize, 8u8),
        (2, 2, 25, 25, 10),
        (3, 3, 20, 20, 12),
        (4, 4, 28, 28, 10),
        (5, 5, 25, 25, 15),
    ];
    for (id, level_id, w, h, max) in expected {
        let m = Maze::load_level(id);
        assert_eq!(m.level_id, level_id);
        assert_eq!(m.width, w);
        assert_eq!(m.height, h);
        assert_eq!(m.max_players, max);
        assert_eq!(m.grid.len(), h);
        assert!(m.grid.iter().all(|row| row.len() == w));
    }
    assert_eq!(Maze::load_level(1).name, "The Arena");
    assert_eq!(Maze::load_level(5).name, "The Brutal Death Maze");
}

#[test]
fn every_spawn_point_is_reachable_from_start() {
    for id in 1..=5u8 {
        let m = Maze::load_level(id);
        let seen = reachable_from_start(&m);
        let mut spawns = 0;
        for y in 0..m.height {
            for x in 0..m.width {
                if m.is_spawn_point(x, y) {
                    spawns += 1;
                    assert!(seen[y][x], "level {} spawn ({}, {}) unreachable", id, x, y);
                }
            }
        }
        assert!(spawns > 0);
    }
}

#[test]
fn unknown_level_id_gives_level_one() {
    let one = Maze::load_level(1);
    for id in [0u8, 6, 99, 255] {
        let other = Maze::load_level(id);
        assert_eq!(other.grid, one.grid);
        assert_eq!(other.level_id, 1);
        assert_eq!(other.name, one.name);
    }
}

#[test]
fn generation_is_deterministic() {
    for id in 1..=5u8 {
        assert_eq!(Maze::load_level(id).grid, Maze::load_level(id).grid);
    }
}

#[test]
fn arena_layout() {
    let m = Maze::load_level(1);
    assert!(m.is_spawn_point(2, 2));
    assert!(m.is_spawn_point(17, 10));
    assert!(m.is_cover(8, 8));
    assert!(m.is_cover(11, 11));
    assert!(!m.is_cover(9, 9));
    assert!(m.is_walkable(9, 9));
    assert!(!m.is_walkable(0, 0));
    assert!(!m.is_walkable(20, 5));
    assert!(m.is_walkable(START_X, START_Y));
    assert_eq!(m.spawn_points(3), vec![(2, 2), (10, 2), (17, 2)]);
}

#[test]
fn labyrinth_has_ten_spawns_and_open_centre() {
    let m = Maze::load_level(4);
    let spawns = (0..m.height)
        .flat_map(|y| (0..m.width).map(move |x| (x, y)))
        .filter(|&(x, y)| m.is_spawn_point(x, y))
        .count();
    assert_eq!(spawns, 10);
    for y in 8..20 {
        for x in 8..20 {
            assert!(m.is_walkable(x, y));
        }
    }
    for i in 0..28 {
        assert_eq!(m.grid[0][i], Cell::Wall);
        assert_eq!(m.grid[27][i], Cell::Wall);
    }
}

#[test]
fn set_cell_outside_grid_changes_nothing() {
    let mut m = Maze::new(3, 2, 9, "t".to_string(), "d".to_string(), 2);
    assert!(m.grid.iter().all(|r| r.iter().all(|c| *c == Cell::Wall)));
    m.set_path(3, 0);
    m.set_cover(0, 2);
    m.set_spawn_point(usize::MAX, 1);
    assert!(m.grid.iter().all(|r| r.iter().all(|c| *c == Cell::Wall)));
    m.set_path(2, 1);
    assert_eq!(m.grid[1][2], Cell::Path);
    assert!(m.is_walkable(2, 1));
    assert!(!m.is_spawn_point(2, 1));
}

#[test]
fn spawn_points_fill_with_walkable_cells() {
    let mut m = Maze::new(4, 3, 1, "t".to_string(), "d".to_string(), 2);
    m.set_path(0, 0);
    m.set_cover(3, 0);
    m.set_spawn_point(2, 1);
    m.set_path(1, 2);
    assert_eq!(m.spawn_points(0), vec![]);
    assert_eq!(m.spawn_points(1), vec![(2, 1)]);
    assert_eq!(m.spawn_points(3), vec![(2, 1), (0, 0), (3, 0)]);
    assert_eq!(m.spawn_points(10), vec![(2, 1), (0, 0), (3, 0), (1, 2)]);
}

#[test]
fn walkable_counts() {
    let mut m = Maze::new(4, 3, 1, "t".to_string(), "d".to_string(), 2);
    assert_eq!(m.total_walkable_cells(), 0);
    assert!(!m.has_enough_spawns(0));
    m.set_path(0, 0);
    m.set_cover(3, 0);
    m.set_spawn_point(2, 1);
    assert_eq!(m.total_walkable_cells(), 3);
    assert!(m.has_enough_spawns(0));
    assert!(m.has_enough_spawns(3));
    assert!(!m.has_enough_spawns(4));
    assert_eq!(Maze::load_level(1).total_walkable_cells(), 
        Maze::load_level(1).spawn_points(10_000).len());
}

#[test]
fn wire_level_marks_walls() {
    let mut m = Maze::new(3, 2, 7, "name".to_string(), "desc".to_string(), 4);
    m.set_path(1, 0);
    m.set_spawn_point(2, 1);
    let wire = maze_to_protocol(42, &m);
    assert_eq!(wire.level_id, 42);
    assert_eq!((wire.width, wire.height), (3, 2));
    assert_eq!(wire.cells.len(), 6);
    let walls: Vec<bool> = wire.cells.iter().map(|c| c.wall_north).collect();
    assert_eq!(walls, vec![true, false, true, true, true, false]);
    assert!(wire.cells.iter().all(|c| c.wall_north == c.wall_south
        && c.wall_south == c.wall_east
        && c.wall_east == c.wall_west));
    assert_eq!(wire.name, "name");
    assert_eq!(wire.description, "desc");
}

#[test]
fn connecting_carves_a_route_to_each_spawn() {
    let mut m = Maze::new(6, 5, 1, "t".to_string(), "d".to_string(), 2);
    m.set_spawn_point(4, 3);
    m.set_spawn_point(0, 4);
    m.set_cover(2, 2);
    m.connect_spawns();
    let seen = reachable_from_start(&m);
    assert!(seen[3][4]);
    assert!(seen[4][0]);
    assert!(m.is_spawn_point(4, 3) && m.is_spawn_point(0, 4));
    assert!(m.is_cover(2, 2));
    assert_eq!(m.grid[1][1], Cell::Path);
    assert_eq!(m.grid[2][4], Cell::Path);
    assert_eq!(m.grid[1][0], Cell::Path);
    assert_eq!(m.grid[0][5], Cell::Wall);
}

#[test]
fn level_spawn_points_are_as_laid_out() {
    assert_eq!(
        Maze::load_level(1).spawn_points(8),
        vec![(2, 2), (10, 2), (17, 2), (2, 10), (17, 10), (2, 17), (10, 17), (17, 17)]
    );
    assert_eq!(
        Maze::load_level(3).spawn_points(9),
        vec![(10, 2), (17, 2), (5, 5), (14, 5), (2, 10), (5, 14), (14, 14), (10, 17), (17, 17)]
    );
    let m3 = Maze::load_level(3);
    assert!(!m3.is_spawn_point(2, 2) && !m3.is_spawn_point(17, 10));
    let m5 = Maze::load_level(5);
    assert_eq!(m5.spawn_points(15), (0..15).map(|x| (x, 0)).collect::<Vec<_>>());
    assert!(!m5.is_spawn_point(15, 0));
    let m4 = Maze::load_level(4);
    for i in 0..28 {
        assert!(!m4.is_walkable(i, 0) && !m4.is_walkable(0, i));
        assert!(!m4.is_walkable(i, 27) && !m4.is_walkable(27, i));
    }
}

#[test]
fn labyrinth_opens_every_odd_cell() {
    let m = Maze::load_level(4);
    for y in (1..27).step_by(2) {
        for x in (1..27).step_by(2) {
            assert!(m.is_walkable(x, y), "({}, {}) closed", x, y);
        }
    }
    assert_eq!(m.description, "Complex multi-layer maze");
    assert_eq!(Maze::load_level(200).description, "Close-quarters combat arena");
}
