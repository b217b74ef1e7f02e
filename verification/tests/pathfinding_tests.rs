use keycrafter::pathfinding::{Grid, Position};

#[test]
fn manhattan_distance_basic() {
    let a = Position::new(10, 10);
    let b = Position::new(12, 10);
    assert_eq!(a.manhattan_distance(&b), 2);
    assert_eq!(b.manhattan_distance(&a), 2);
    let c = Position::new(7, 14);
    assert_eq!(a.manhattan_distance(&c), 7);
    assert_eq!(a.manhattan_distance(&a), 0);
}

#[test]
fn neighbors_inside_grid() {
    let p = Position::new(5, 5);
    let ns = p.neighbors();
    assert_eq!(ns.len(), 4);
    assert!(ns.contains(&Position::new(6, 5)));
    assert!(ns.contains(&Position::new(4, 5)));
    assert!(ns.contains(&Position::new(5, 6)));
    assert!(ns.contains(&Position::new(5, 4)));
}

#[test]
fn neighbors_come_in_fixed_order() {
    // Right, left, down, up — the order the search expands in.
    let ns = Position::new(5, 5).neighbors();
    assert_eq!(
        ns,
        vec![
            Position::new(6, 5),
            Position::new(4, 5),
            Position::new(5, 6),
            Position::new(5, 4),
        ]
    );
}

#[test]
fn shortest_route_is_returned() {
    let mut grid = Grid::new();
    // A short wall forces a detour; the returned route is still as short as
    // the detour allows.
    for y in 8..13 {
        grid.add_obstacle(Position::new(11, y));
    }
    let path = grid
        .find_path(Position::new(10, 10), Position::new(12, 10))
        .expect("the goal is reachable around the wall");
    // Manhattan distance is 2; rounding the five-cell wall costs six extra.
    assert_eq!(path.len(), 8);
}

#[test]
fn neighbors_clipped_at_corner() {
    let p = Position::new(0, 0);
    let ns = p.neighbors();
    assert_eq!(ns.len(), 2);
    assert!(ns.contains(&Position::new(1, 0)));
    assert!(ns.contains(&Position::new(0, 1)));
    for n in &ns {
        assert!(n.x >= 0 && n.x < 80 && n.y >= 0 && n.y < 80);
    }
}

#[test]
fn obstacles_block_and_clear() {
    let mut grid = Grid::new();
    let p = Position::new(3, 4);
    assert!(grid.is_walkable(&p));
    grid.add_obstacle(Position::new(3, 4));
    assert!(!grid.is_walkable(&p));
    assert!(grid.is_walkable(&Position::new(4, 3)));
    grid.clear_obstacles();
    assert!(grid.is_walkable(&p));
}

#[test]
fn straight_path_excludes_start_includes_goal() {
    let grid = Grid::new();
    let path = grid
        .find_path(Position::new(10, 10), Position::new(12, 10))
        .expect("straight path on an empty grid");
    assert_eq!(path.len(), 2);
    assert_eq!(path[0], Position::new(11, 10));
    assert_eq!(path[1], Position::new(12, 10));
}

#[test]
fn path_to_own_cell_is_empty() {
    let grid = Grid::new();
    let path = grid
        .find_path(Position::new(7, 7), Position::new(7, 7))
        .expect("already standing on the goal");
    assert!(path.is_empty());
}

#[test]
fn enclosed_goal_is_unreachable() {
    let mut grid = Grid::new();
    grid.add_obstacle(Position::new(41, 40));
    grid.add_obstacle(Position::new(39, 40));
    grid.add_obstacle(Position::new(40, 41));
    grid.add_obstacle(Position::new(40, 39));
    let r = grid.find_path(Position::new(10, 10), Position::new(40, 40));
    assert!(r.is_none());
}

#[test]
fn path_detours_around_wall() {
    let mut grid = Grid::new();
    // A vertical wall between start and goal with a gap at y == 20.
    for y in 0..20 {
        grid.add_obstacle(Position::new(15, y));
    }
    for y in 21..80 {
        grid.add_obstacle(Position::new(15, y));
    }
    let start = Position::new(10, 10);
    let goal = Position::new(20, 10);
    let path = grid.find_path(start, goal).expect("the gap keeps the goal reachable");
    assert_eq!(*path.last().unwrap(), goal);
    let mut prev = start;
    for step in &path {
        assert_eq!(prev.manhattan_distance(step), 1);
        assert!(grid.is_walkable(step));
        prev = *step;
    }
    assert!(path.iter().any(|p| p.y == 20));
}
