use robot_vacuum_cleaner::robot::{DEFAULT_BATTERY_CAPACITY, LOW_BATTERY_THRESHOLD};
use robot_vacuum_cleaner::{Position, Robot, RobotState};

#[test]
fn test_robot_creation() {
    let robot = Robot::new(Position::new(10_000, 10_000));
    assert_eq!(robot.position, Position::new(10_000, 10_000));
    assert_eq!(robot.battery_level, 100_000_000);
    assert_eq!(robot.state, RobotState::Idle);
}

#[test]
fn test_robot_with_params() {
    let robot = Robot::with_params(Position::new(5_000, 5_000), 200_000_000, 500, 300, 3_000);
    assert_eq!(robot.battery_capacity, 200_000_000);
    assert_eq!(robot.cleaning_width, 500);
    assert_eq!(robot.speed, 300);
    assert_eq!(robot.sensor_range, 3_000);
    assert_eq!(robot.heading, 0);
    assert!(robot.cleaned_cells.is_empty());
}

#[test]
fn test_robot_movement() {
    let mut robot = Robot::new(Position::new(10_000, 10_000));
    let initial_battery = robot.battery_level;

    let success = robot.move_by(1_000, 0);

    assert!(success);
    assert_eq!(robot.position, Position::new(11_000, 10_000));
    assert!(robot.battery_level < initial_battery);
    assert_eq!(robot.path_history.len(), 2);
}

#[test]
fn test_robot_movement_with_depleted_battery() {
    let mut robot = Robot::new(Position::new(10_000, 10_000));
    robot.battery_level = 0;

    let success = robot.move_by(1_000, 1_000);

    assert!(!success);
    assert_eq!(robot.state, RobotState::Error);
}

#[test]
fn test_should_return_to_dock_low_battery() {
    let mut robot = Robot::new(Position::new(10_000, 10_000));
    robot.battery_level = 15_000_000;
    assert!(robot.should_return_to_dock());
}

#[test]
fn test_should_return_to_dock_sufficient_battery() {
    let robot = Robot::new(Position::new(10_000, 10_000));
    assert!(!robot.should_return_to_dock());
}

#[test]
fn test_charging() {
    let mut robot = Robot::new(Position::new(10_000, 10_000));
    robot.battery_level = 50_000_000;
    robot.state = RobotState::Charging;

    let fully_charged = robot.charge(10_000_000);

    assert!(!fully_charged);
    assert_eq!(robot.battery_level, 60_000_000);

    for _ in 0..5 {
        robot.charge(10_000_000);
    }

    assert_eq!(robot.battery_level, 100_000_000);
}

#[test]
fn test_dock_position() {
    let mut robot = Robot::new(Position::new(10_000, 10_000));
    robot.set_dock_position(Position::new(5_000, 5_000));

    assert_eq!(robot.dock_position, Some(Position::new(5_000, 5_000)));
}

#[test]
fn test_stats_tracking() {
    let mut robot = Robot::new(Position::new(10_000, 10_000));

    robot.move_by(5_000, 0);
    robot.move_by(0, 5_000);

    assert!(robot.stats.total_distance > 0);
    assert!(!robot.cleaned_cells.is_empty());
    assert!(!robot.visited_cells.is_empty());
}

#[test]
fn test_reset_stats() {
    let mut robot = Robot::new(Position::new(10_000, 10_000));

    robot.move_by(5_000, 5_000);
    robot.reset_stats();

    assert_eq!(robot.stats.total_distance, 0);
    assert_eq!(robot.stats.area_cleaned, 0);
    assert!(robot.cleaned_cells.is_empty());
    assert!(robot.visited_cells.is_empty());
}

#[test]
fn test_get_status() {
    let robot = Robot::new(Position::new(10_000, 10_000));
    let status = robot.get_status();

    assert_eq!(status.position, robot.position);
    assert_eq!(status.battery_level, robot.battery_level);
    assert_eq!(status.state, robot.state);
}

#[test]
fn move_with_empty_battery_changes_nothing_else() {
    let mut robot = Robot::new(Position::new(2_000, 3_000));
    robot.battery_level = 0;
    assert!(!robot.move_by(1_000, 0));
    assert_eq!(robot.state, RobotState::Error);
    assert_eq!(robot.position, Position::new(2_000, 3_000));
    assert_eq!(robot.path_history.len(), 1);
    assert_eq!(robot.stats.total_distance, 0);
}

#[test]
fn move_drains_battery_by_distance() {
    let mut robot = Robot::new(Position::new(0, 0));
    // 3-4-5 triangle: 5000 mm at 100 millionths per mm.
    assert!(robot.move_by(3_000, 4_000));
    assert_eq!(robot.stats.total_distance, 5_000);
    assert_eq!(robot.battery_level, 100_000_000 - 500_000);
    // A diagonal of one cell is 1414 mm, rounded down.
    assert!(robot.move_by(1_000, 1_000));
    assert_eq!(robot.stats.total_distance, 6_414);
    assert_eq!(robot.battery_level, 100_000_000 - 500_000 - 141_400);
    assert_eq!(robot.position, Position::new(4_000, 5_000));
    assert_eq!(robot.path_history.len(), 3);
}

#[test]
fn tiny_move_still_drains() {
    let mut robot = Robot::new(Position::new(500, 500));
    let before = robot.battery_level;
    assert!(robot.move_by(1, 0));
    assert!(robot.battery_level < before);
    assert_eq!(robot.path_history.len(), 2);
}

#[test]
fn battery_never_goes_below_zero() {
    let mut robot = Robot::new(Position::new(0, 0));
    robot.battery_level = 50;
    assert!(robot.move_by(1_000, 0));
    assert_eq!(robot.battery_level, 0);
    assert!(!robot.move_by(1_000, 0));
    assert_eq!(robot.state, RobotState::Error);
}

#[test]
fn cells_are_a_set() {
    let mut robot = Robot::new(Position::new(1_500, 1_500));
    robot.move_by(100, 0);
    robot.move_by(100, 0);
    assert_eq!(robot.cleaned_cells, vec![(1, 1)]);
    assert_eq!(robot.visited_cells, vec![(1, 1)]);
    assert_eq!(robot.stats.area_cleaned, 1);
    robot.move_by(1_000, 0);
    assert_eq!(robot.cleaned_cells, vec![(1, 1), (2, 1)]);
    assert_eq!(robot.stats.area_cleaned, 2);
}

#[test]
fn negative_positions_map_to_cell_zero() {
    let mut robot = Robot::new(Position::new(0, 0));
    robot.move_by(-2_500, 1_200);
    assert_eq!(robot.cleaned_cells, vec![(0, 1)]);
}

#[test]
fn low_battery_returns_with_or_without_dock() {
    let mut robot = Robot::new(Position::new(0, 0));
    robot.battery_level = LOW_BATTERY_THRESHOLD - 1;
    assert!(robot.should_return_to_dock());
    robot.set_dock_position(Position::new(0, 0));
    assert!(robot.should_return_to_dock());
    robot.battery_level = LOW_BATTERY_THRESHOLD;
    assert!(!robot.should_return_to_dock());
}

#[test]
fn far_dock_triggers_return() {
    // Needed: 0.15 per unit of distance plus 10. At 400 units away that is 70.
    let mut robot = Robot::new(Position::new(0, 0));
    robot.set_dock_position(Position::new(400_000, 0));
    robot.battery_level = 69_000_000;
    assert!(robot.should_return_to_dock());
    robot.battery_level = 70_000_000;
    assert!(!robot.should_return_to_dock());
    robot.battery_level = DEFAULT_BATTERY_CAPACITY;
    assert!(!robot.should_return_to_dock());
}

#[test]
fn charge_reports_full_exactly_once() {
    let mut robot = Robot::new(Position::new(0, 0));
    robot.battery_level = 55_000_000;
    let mut trues = 0;
    let mut calls = 0;
    while robot.battery_level < robot.battery_capacity {
        if robot.charge(10_000_000) {
            trues += 1;
        }
        calls += 1;
    }
    assert_eq!(calls, 5);
    assert_eq!(trues, 1);
    assert_eq!(robot.stats.battery_cycles, 1);
    assert_eq!(robot.state, RobotState::Charging);
    assert_eq!(robot.battery_level, 100_000_000);
}

#[test]
fn each_full_charge_counts_a_cycle() {
    let mut robot = Robot::new(Position::new(0, 0));
    robot.battery_level = 90_000_000;
    assert!(robot.charge(20_000_000));
    assert_eq!(robot.stats.battery_cycles, 1);
    robot.battery_level = 10_000_000;
    assert!(!robot.charge(20_000_000));
    assert_eq!(robot.stats.battery_cycles, 1);
    assert!(robot.charge(70_000_000));
    assert_eq!(robot.stats.battery_cycles, 2);
}

#[test]
fn reset_keeps_position_as_only_history_entry() {
    let mut robot = Robot::new(Position::new(0, 0));
    robot.move_by(2_000, 0);
    robot.move_by(0, 2_000);
    robot.reset_stats();
    assert_eq!(robot.path_history, vec![Position::new(2_000, 2_000)]);
    assert_eq!(robot.position, Position::new(2_000, 2_000));
}
