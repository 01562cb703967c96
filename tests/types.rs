use robot_vacuum_cleaner::types::{sqrt_floor, RobotStats, SensorData};
use robot_vacuum_cleaner::Position;

#[test]
fn test_position_distance() {
    let p1 = Position::new(0, 0);
    let p2 = Position::new(3_000, 4_000);
    assert_eq!(p1.distance_to(&p2), 5_000);
}

#[test]
fn test_position_add() {
    let p1 = Position::new(1_000, 2_000);
    let p2 = Position::new(3_000, 4_000);
    let result = p1.add(p2);
    assert_eq!(result, Position::new(4_000, 6_000));
}

#[test]
fn test_position_sub() {
    let p1 = Position::new(5_000, 7_000);
    let p2 = Position::new(2_000, 3_000);
    let result = p1.sub(p2);
    assert_eq!(result, Position::new(3_000, 4_000));
}

#[test]
fn test_position_to_grid() {
    let p = Position::new(5_700, 10_300);
    assert_eq!(p.to_grid(), (5, 10));
}

#[test]
fn test_position_manhattan() {
    let p1 = Position::new(0, 0);
    let p2 = Position::new(3_000, 4_000);
    assert_eq!(p1.manhattan_distance(&p2), 7_000);
}

#[test]
fn test_sensor_data_default() {
    let sensor = SensorData::default();
    assert!(!sensor.obstacle_front);
    assert!(!sensor.cliff_detected);
    assert!(sensor.distance_front.is_none());
}

#[test]
fn test_robot_stats_default() {
    let stats = RobotStats::default();
    assert_eq!(stats.total_distance, 0);
    assert_eq!(stats.area_cleaned, 0);
}

#[test]
fn distance_rounds_down() {
    assert_eq!(Position::new(0, 0).distance_to(&Position::new(1_000, 1_000)), 1_414);
    assert_eq!(Position::new(-3, 0).distance_to(&Position::new(0, 4)), 5);
    assert_eq!(
        Position::new(0, 0).distance_squared_to(&Position::new(1_000, 1_000)),
        2_000_000
    );
}

#[test]
fn square_root_rounds_down() {
    assert_eq!(sqrt_floor(0), 0);
    assert_eq!(sqrt_floor(15), 3);
    assert_eq!(sqrt_floor(16), 4);
    assert_eq!(sqrt_floor(u128::MAX), u64::MAX as u128);
}

#[test]
fn negative_coordinates_clamp_to_cell_zero() {
    assert_eq!(Position::new(-1, -5_000).to_grid(), (0, 0));
    assert_eq!(Position::new(999, 1_000).to_grid(), (0, 1));
}

#[test]
fn manhattan_with_negative_offsets() {
    assert_eq!(Position::new(-2_000, 1_000).manhattan_distance(&Position::new(1_000, -1_000)), 5_000);
}
