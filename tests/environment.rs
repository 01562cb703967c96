use robot_vacuum_cleaner::grid::CellGrid;
use robot_vacuum_cleaner::{CellType, Coverage, Environment};

#[test]
fn test_environment_creation() {
    let env = Environment::new(50, 40);
    assert_eq!(env.width, 50);
    assert_eq!(env.height, 40);
    assert_eq!(env.sim_time, 0);
}

#[test]
fn test_create_empty_room() {
    let env = Environment::create_empty_room(30, 30);
    assert_eq!(env.grid.get(15, 0), Some(CellType::Obstacle.code())); // Top wall
    assert_eq!(env.grid.get(15, 29), Some(CellType::Obstacle.code())); // Bottom wall
    assert_eq!(env.grid.get(0, 15), Some(CellType::Obstacle.code())); // Left wall
    assert_eq!(env.grid.get(29, 15), Some(CellType::Obstacle.code())); // Right wall
    assert_eq!(env.grid.get(15, 15), Some(CellType::Free.code())); // Center
}

#[test]
fn test_is_valid_position() {
    let env = Environment::create_empty_room(30, 30);
    assert!(env.is_valid_position(15, 15));
    assert!(!env.is_valid_position(0, 0));
    assert!(!env.is_valid_position(100, 100));
}

#[test]
fn test_clean_cell() {
    let mut env = Environment::create_empty_room(30, 30);
    assert!(env.is_dirty(15, 15));

    env.clean_cell(15, 15);
    assert!(!env.is_dirty(15, 15));
}

#[test]
fn test_cleaning_percentage() {
    let mut env = Environment::create_empty_room(30, 30);
    let initial_pct = env.get_cleaning_percentage();
    assert!(initial_pct.hundredths() < 100); // below 1 percent

    for x in 10..20 {
        for y in 10..20 {
            if env.is_valid_position(x, y) {
                env.clean_cell(x, y);
            }
        }
    }

    let final_pct = env.get_cleaning_percentage();
    assert!(initial_pct.is_below(&final_pct));
}

#[test]
fn test_environment_step() {
    let mut env = Environment::new(30, 30);
    env.step(100);
    assert_eq!(env.sim_time, 100);
}

#[test]
fn test_environment_reset() {
    let mut env = Environment::create_empty_room(30, 30);
    env.clean_cell(15, 15);
    env.sim_time = 100_000;

    env.reset();

    assert!(env.is_dirty(15, 15));
    assert_eq!(env.sim_time, 0);
}

#[test]
fn test_cell_type_conversion() {
    assert_eq!(CellType::from(0), CellType::Free);
    assert_eq!(CellType::from(1), CellType::Obstacle);
    assert_eq!(CellType::from(2), CellType::Cliff);
    assert_eq!(CellType::from(3), CellType::Dock);
    assert_eq!(CellType::from(99), CellType::Free); // Unknown defaults to Free
}

#[test]
fn walled_room_border_and_interior() {
    let (w, h) = (7usize, 5usize);
    let env = Environment::create_empty_room(w, h);
    for y in 0..h {
        for x in 0..w {
            let border = x == 0 || y == 0 || x == w - 1 || y == h - 1;
            let kind = CellType::from(env.grid.get(x, y).unwrap());
            if border {
                assert_eq!(kind, CellType::Obstacle);
            } else {
                assert_eq!(kind, CellType::Free);
            }
        }
    }
    assert_eq!(env.dock_position, None);
}

#[test]
fn smallest_walled_room_is_all_wall() {
    let env = Environment::create_empty_room(3, 3);
    assert!(env.is_valid_position(1, 1));
    assert!(!env.is_valid_position(0, 1));
    assert!(!env.is_valid_position(2, 2));
}

#[test]
fn validity_by_cell_kind() {
    let mut grid = CellGrid::new(5, 1);
    assert!(grid.set(0, 0, CellType::Free.code()));
    assert!(grid.set(1, 0, CellType::Obstacle.code()));
    assert!(grid.set(2, 0, CellType::Cliff.code()));
    assert!(grid.set(3, 0, CellType::Dock.code()));
    assert!(grid.set(4, 0, 99));
    assert!(!grid.set(5, 0, 1));
    let env = Environment::from_grid(grid);
    assert!(env.is_valid_position(0, 0));
    assert!(!env.is_valid_position(1, 0));
    assert!(!env.is_valid_position(2, 0));
    assert!(env.is_valid_position(3, 0));
    assert!(env.is_valid_position(4, 0)); // unknown code reads as Free
    assert!(!env.is_valid_position(5, 0));
    assert!(!env.is_valid_position(0, 1));
    assert!(!env.is_valid_position(usize::MAX, usize::MAX));
}

#[test]
fn first_dock_in_row_major_order_is_cached() {
    let mut grid = CellGrid::new(4, 3);
    grid.set(3, 0, CellType::Dock.code());
    grid.set(1, 2, CellType::Dock.code());
    let env = Environment::from_grid(grid);
    assert_eq!(env.dock_position, Some((3, 0)));

    let mut grid = CellGrid::new(4, 3);
    grid.set(2, 1, CellType::Dock.code());
    grid.set(0, 2, CellType::Dock.code());
    let env = Environment::from_grid(grid);
    assert_eq!(env.dock_position, Some((2, 1)));
}

#[test]
fn no_dock_without_dock_cell() {
    let env = Environment::from_grid(CellGrid::new(3, 3));
    assert_eq!(env.dock_position, None);
    assert_eq!(env.width, 3);
    assert_eq!(env.height, 3);
}

#[test]
fn out_of_bounds_cells_are_clean_and_ignored() {
    let mut env = Environment::new(4, 4);
    assert!(!env.is_dirty(4, 0));
    assert!(!env.is_dirty(0, 4));
    env.clean_cell(10, 10);
    assert_eq!(env.get_cleaning_percentage(), Coverage { cleaned: 0, free: 16 });
}

#[test]
fn coverage_fresh_room_is_zero() {
    let env = Environment::create_empty_room(10, 10);
    assert_eq!(env.get_cleaning_percentage(), Coverage { cleaned: 0, free: 64 });
    assert_eq!(env.get_cleaning_percentage().hundredths(), 0);
}

#[test]
fn coverage_after_cleaning_every_free_cell_is_full() {
    let mut env = Environment::create_empty_room(10, 10);
    for y in 0..10 {
        for x in 0..10 {
            if env.is_valid_position(x, y) {
                env.clean_cell(x, y);
            }
        }
    }
    assert_eq!(env.get_cleaning_percentage(), Coverage { cleaned: 64, free: 64 });
    assert_eq!(env.get_cleaning_percentage().hundredths(), 10000);
}

#[test]
fn coverage_without_free_cells_is_full() {
    let env = Environment::create_empty_room(2, 2);
    assert_eq!(env.get_cleaning_percentage(), Coverage { cleaned: 0, free: 0 });
    assert_eq!(env.get_cleaning_percentage().hundredths(), 10000);
    let empty = Environment::new(0, 0);
    assert_eq!(empty.get_cleaning_percentage().hundredths(), 10000);
}

#[test]
fn coverage_exact_value() {
    // 5 x 5 walled room: 9 free cells; cleaning 3 gives 3/9 = 33.33 %.
    let mut env = Environment::create_empty_room(5, 5);
    env.clean_cell(1, 1);
    env.clean_cell(2, 1);
    env.clean_cell(3, 1);
    env.clean_cell(0, 0); // a wall: does not count
    assert_eq!(env.get_cleaning_percentage(), Coverage { cleaned: 3, free: 9 });
    assert_eq!(env.get_cleaning_percentage().hundredths(), 3333);
}

#[test]
fn coverage_counts_only_free_cells() {
    let mut grid = CellGrid::new(2, 1);
    grid.set(1, 0, CellType::Dock.code());
    let mut env = Environment::from_grid(grid);
    env.clean_cell(1, 0);
    assert_eq!(env.get_cleaning_percentage(), Coverage { cleaned: 0, free: 1 });
    env.clean_cell(0, 0);
    assert_eq!(env.get_cleaning_percentage(), Coverage { cleaned: 1, free: 1 });
}

#[test]
fn step_accumulates_and_saturates() {
    let mut env = Environment::new(2, 2);
    env.step(100);
    env.step(250);
    assert_eq!(env.sim_time, 350);
    env.step(u64::MAX);
    assert_eq!(env.sim_time, u64::MAX);
}

#[test]
fn reset_keeps_layout_and_dock() {
    let mut grid = CellGrid::new(3, 3);
    grid.set(1, 1, CellType::Dock.code());
    let mut env = Environment::from_grid(grid);
    env.clean_cell(0, 0);
    env.step(500);
    env.reset();
    assert!(env.is_dirty(0, 0));
    assert_eq!(env.sim_time, 0);
    assert_eq!(env.dock_position, Some((1, 1)));
    assert_eq!(env.grid.get(1, 1), Some(3));
}

#[test]
fn cell_grid_bounds() {
    let grid = CellGrid::new(3, 2);
    assert_eq!(grid.width(), 3);
    assert_eq!(grid.height(), 2);
    assert_eq!(grid.get(2, 1), Some(0));
    assert_eq!(grid.get(3, 0), None);
    assert_eq!(grid.get(0, 2), None);
}

#[test]
fn cleaning_counts_are_exact() {
    let mut env = Environment::create_empty_room(5, 5);
    assert_eq!(env.get_cleaning_percentage(), Coverage { cleaned: 0, free: 9 });
    env.clean_cell(2, 2);
    assert_eq!(env.get_cleaning_percentage(), Coverage { cleaned: 1, free: 9 });
    env.clean_cell(2, 2);
    env.clean_cell(0, 0);
    env.clean_cell(7, 7);
    assert_eq!(env.get_cleaning_percentage(), Coverage { cleaned: 1, free: 9 });
}

#[test]
fn cleaning_a_free_cell_in_a_large_room_is_counted() {
    // 103 x 103 walled room: 10201 free cells, so one cell is below 0.01 %.
    let mut env = Environment::create_empty_room(103, 103);
    let before = env.get_cleaning_percentage();
    env.clean_cell(50, 50);
    let after = env.get_cleaning_percentage();
    assert_eq!(after, Coverage { cleaned: 1, free: 10201 });
    assert!(before.is_below(&after));
    assert!(!after.is_below(&before));
    env.clean_cell(50, 50);
    assert!(!after.is_below(&env.get_cleaning_percentage()));
}

#[test]
fn new_room_codes_are_zero() {
    let env = Environment::new(4, 3);
    for y in 0..3 {
        for x in 0..4 {
            assert_eq!(env.grid.get(x, y), Some(0));
            assert!(env.is_dirty(x, y));
        }
    }
}

#[test]
fn coverage_comparison_is_exact() {
    let a = Coverage { cleaned: 1, free: 3 };
    let b = Coverage { cleaned: 2, free: 6 };
    let c = Coverage { cleaned: 3, free: 8 };
    assert!(!a.is_below(&b));
    assert!(!b.is_below(&a));
    assert!(a.is_below(&c));
    assert!(c.is_below(&Coverage { cleaned: 0, free: 0 }));
}
