use robot_vacuum_cleaner::simulator::SimulationConfig;
use robot_vacuum_cleaner::{Environment, Position, Robot, RobotState, Simulator};

#[test]
fn test_simulator_creation() {
    let robot = Robot::new(Position::new(15_000, 15_000));
    let env = Environment::create_empty_room(30, 30);
    let config = SimulationConfig::default();

    let sim = Simulator::new(robot, env, config);

    assert_eq!(sim.steps, 0);
}

#[test]
fn test_simulator_step() {
    let robot = Robot::new(Position::new(15_000, 15_000));
    let env = Environment::create_empty_room(30, 30);
    let config = SimulationConfig::default();

    let mut sim = Simulator::new(robot, env, config);

    let should_continue = sim.step();

    assert!(should_continue);
    assert_eq!(sim.steps, 1);
}

#[test]
fn end_to_end_fifty_ticks() {
    let robot = Robot::new(Position::new(15_000, 15_000));
    let env = Environment::create_empty_room(30, 30);
    let config = SimulationConfig { max_steps: 50, enable_slam: false, tick_rate: 100 };
    let mut sim = Simulator::new(robot, env, config);
    let results = sim.run();
    assert_eq!(results.steps, 50);
    assert!(results.success);
    assert!(results.cleaning_coverage.cleaned <= results.cleaning_coverage.free);
    assert!(results.cleaning_coverage.hundredths() <= 10000);
    assert_eq!(results.cleaning_coverage.free, 28 * 28);
    assert_eq!(results.total_distance, 0);
    assert_eq!(results.battery_cycles, 0);
    assert_eq!(sim.environment.sim_time, 5_000);
    assert_eq!(sim.robot.state, RobotState::Cleaning);
}

#[test]
fn idle_robot_starts_cleaning() {
    let robot = Robot::new(Position::new(1_000, 1_000));
    let mut sim = Simulator::new(robot, Environment::new(3, 3), SimulationConfig::default());
    sim.step();
    assert_eq!(sim.robot.state, RobotState::Cleaning);
    assert_eq!(sim.environment.sim_time, 100);
}

#[test]
fn low_battery_sends_robot_home_and_it_stays() {
    let mut robot = Robot::new(Position::new(1_000, 1_000));
    robot.state = RobotState::Cleaning;
    robot.battery_level = 10_000_000;
    let mut sim = Simulator::new(robot, Environment::new(3, 3), SimulationConfig::default());
    sim.step();
    assert_eq!(sim.robot.state, RobotState::ReturningToDock);
    sim.step();
    assert_eq!(sim.robot.state, RobotState::ReturningToDock);
}

#[test]
fn charging_resumes_cleaning_when_full() {
    let mut robot = Robot::new(Position::new(1_000, 1_000));
    robot.state = RobotState::Charging;
    robot.battery_level = 75_000_000;
    let mut sim = Simulator::new(robot, Environment::new(3, 3), SimulationConfig::default());
    sim.step();
    assert_eq!(sim.robot.state, RobotState::Charging);
    assert_eq!(sim.robot.battery_level, 85_000_000);
    sim.step();
    sim.step();
    assert_eq!(sim.robot.state, RobotState::Cleaning);
    assert_eq!(sim.robot.battery_level, 100_000_000);
    assert_eq!(sim.robot.stats.battery_cycles, 1);
}

#[test]
fn error_state_is_sticky_and_reported() {
    let mut robot = Robot::new(Position::new(1_000, 1_000));
    robot.state = RobotState::Error;
    let config = SimulationConfig { max_steps: 5, enable_slam: false, tick_rate: 100 };
    let mut sim = Simulator::new(robot, Environment::new(3, 3), config);
    let results = sim.run();
    assert_eq!(results.steps, 5);
    assert!(!results.success);
    assert_eq!(sim.robot.state, RobotState::Error);
}

#[test]
fn run_takes_at_least_one_step() {
    let robot = Robot::new(Position::new(1_000, 1_000));
    let config = SimulationConfig { max_steps: 0, enable_slam: false, tick_rate: 100 };
    let mut sim = Simulator::new(robot, Environment::new(3, 3), config);
    let results = sim.run();
    assert_eq!(results.steps, 1);
}

#[test]
fn default_config_values() {
    let config = SimulationConfig::default();
    assert_eq!(config.max_steps, 10000);
    assert!(!config.enable_slam);
    assert_eq!(config.tick_rate, 100);
}

#[test]
fn run_keeps_config_and_advances_clock() {
    let robot = Robot::new(Position::new(1_000, 1_000));
    let config = SimulationConfig { max_steps: 7, enable_slam: true, tick_rate: 250 };
    let mut sim = Simulator::new(robot, Environment::new(3, 3), config);
    let results = sim.run();
    assert_eq!(results.steps, 7);
    assert_eq!(sim.config.max_steps, 7);
    assert!(sim.config.enable_slam);
    assert_eq!(sim.config.tick_rate, 250);
    assert_eq!(sim.environment.sim_time, 1_750);
    assert_eq!(sim.robot.path_history.len(), 1);
}
