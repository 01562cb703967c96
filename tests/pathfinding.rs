use robot_vacuum_cleaner::grid::CellGrid;
use robot_vacuum_cleaner::pathfinding::AStarPlanner;
use robot_vacuum_cleaner::{CellType, Environment};

fn is_step(a: (usize, usize), b: (usize, usize), diagonal: bool) -> bool {
    let dx = a.0.abs_diff(b.0);
    let dy = a.1.abs_diff(b.1);
    dx + dy == 1 || (diagonal && dx == 1 && dy == 1)
}

#[test]
fn test_astar_straight_line() {
    let env = Environment::create_empty_room(30, 30);
    let planner = AStarPlanner::new(&env);

    let path = planner.find_path((5, 5), (10, 5), false);

    assert!(path.is_some());
    let path = path.unwrap();
    assert!(!path.is_empty());
    assert_eq!(path[0], (5, 5));
    assert_eq!(path[path.len() - 1], (10, 5));
}

#[test]
fn test_astar_diagonal() {
    let env = Environment::create_empty_room(30, 30);
    let planner = AStarPlanner::new(&env);

    let path_diagonal = planner.find_path((5, 5), (10, 10), true);
    let path_straight = planner.find_path((5, 5), (10, 10), false);

    assert!(path_diagonal.is_some());
    assert!(path_straight.is_some());

    assert!(path_diagonal.unwrap().len() < path_straight.unwrap().len());
}

#[test]
fn test_heuristic() {
    let env = Environment::new(10, 10);
    let planner = AStarPlanner::new(&env);

    let dist = planner.heuristic((0, 0), (3, 4));
    assert_eq!(dist, 7);
}

#[test]
fn cardinal_path_in_open_room_has_manhattan_length() {
    let env = Environment::create_empty_room(30, 30);
    let planner = AStarPlanner::new(&env);
    for &(start, goal) in &[((5, 5), (10, 5)), ((3, 20), (25, 4)), ((7, 7), (7, 7)), ((1, 1), (28, 28))] {
        let path = planner.find_path(start, goal, false).unwrap();
        let manhattan = start.0.abs_diff(goal.0) + start.1.abs_diff(goal.1);
        assert_eq!(path.len(), 1 + manhattan);
        assert_eq!(path[0], start);
        assert_eq!(*path.last().unwrap(), goal);
        for k in 0..path.len() - 1 {
            assert!(is_step(path[k], path[k + 1], false));
        }
    }
}

#[test]
fn diagonal_path_not_longer_than_cardinal() {
    let env = Environment::create_empty_room(30, 30);
    let planner = AStarPlanner::new(&env);
    for d in 1..10 {
        let goal = (4 + d, 4 + d);
        let diag = planner.find_path((4, 4), goal, true).unwrap();
        let card = planner.find_path((4, 4), goal, false).unwrap();
        assert!(diag.len() <= card.len());
        for k in 0..diag.len() - 1 {
            assert!(is_step(diag[k], diag[k + 1], true));
        }
    }
}

#[test]
fn no_path_from_or_to_obstacle() {
    let env = Environment::create_empty_room(10, 10);
    let planner = AStarPlanner::new(&env);
    assert!(planner.find_path((0, 0), (5, 5), false).is_none());
    assert!(planner.find_path((5, 5), (9, 5), true).is_none());
    assert!(planner.find_path((5, 5), (50, 50), false).is_none());
}

#[test]
fn path_goes_around_a_wall() {
    // A wall at x = 3 from y = 0 to y = 3 leaves a gap at y = 4.
    let mut grid = CellGrid::new(7, 5);
    for y in 0..4 {
        grid.set(3, y, CellType::Obstacle.code());
    }
    let env = Environment::from_grid(grid);
    let planner = AStarPlanner::new(&env);
    let path = planner.find_path((0, 0), (6, 0), false).unwrap();
    assert_eq!(path[0], (0, 0));
    assert_eq!(*path.last().unwrap(), (6, 0));
    assert!(path.contains(&(3, 4)));
    for &(x, y) in &path {
        assert!(env.is_valid_position(x, y));
    }
    for k in 0..path.len() - 1 {
        assert!(is_step(path[k], path[k + 1], false));
    }
    assert_eq!(path.len(), 15);
}

#[test]
fn no_path_across_a_full_wall() {
    let mut grid = CellGrid::new(5, 5);
    for y in 0..5 {
        grid.set(2, y, CellType::Cliff.code());
    }
    let env = Environment::from_grid(grid);
    let planner = AStarPlanner::new(&env);
    assert!(planner.find_path((0, 2), (4, 2), true).is_none());
    assert!(planner.find_path((0, 2), (1, 4), true).is_some());
}

#[test]
fn path_to_self_is_single_cell() {
    let env = Environment::new(3, 3);
    let planner = AStarPlanner::new(&env);
    assert_eq!(planner.find_path((1, 1), (1, 1), true), Some(vec![(1, 1)]));
}

#[test]
fn neighbors_in_a_corner() {
    let env = Environment::new(3, 3);
    let planner = AStarPlanner::new(&env);
    assert_eq!(planner.get_neighbors((0, 0), false), vec![(0, 1), (1, 0)]);
    assert_eq!(planner.get_neighbors((0, 0), true), vec![(0, 1), (1, 0), (1, 1)]);
    assert_eq!(
        planner.get_neighbors((1, 1), true),
        vec![(1, 2), (2, 1), (1, 0), (0, 1), (2, 2), (2, 0), (0, 2), (0, 0)]
    );
    assert_eq!(planner.get_neighbors((1, 1), false), vec![(1, 2), (2, 1), (1, 0), (0, 1)]);
}

#[test]
fn neighbors_skip_blocked_cells_in_order() {
    let mut grid = CellGrid::new(3, 3);
    grid.set(2, 1, CellType::Obstacle.code());
    grid.set(0, 0, CellType::Cliff.code());
    let env = Environment::from_grid(grid);
    let planner = AStarPlanner::new(&env);
    assert_eq!(
        planner.get_neighbors((1, 1), true),
        vec![(1, 2), (1, 0), (0, 1), (2, 2), (2, 0), (0, 2)]
    );
}

#[test]
fn returned_routes_repeat_no_cell() {
    let mut grid = CellGrid::new(9, 9);
    for y in 1..8 {
        grid.set(4, y, CellType::Obstacle.code());
    }
    let env = Environment::from_grid(grid);
    let planner = AStarPlanner::new(&env);
    for &diagonal in &[false, true] {
        let path = planner.find_path((0, 4), (8, 4), diagonal).unwrap();
        for a in 0..path.len() {
            for b in a + 1..path.len() {
                assert_ne!(path[a], path[b]);
            }
        }
    }
}
