//! The tick loop: advances the room's clock and drives the robot's operating
//! state until the configured number of steps has run.
use vstd::prelude::*;
use crate::environment::{Coverage, Environment};
use crate::robot::{charged, saturating_increment, Robot, RobotState};

verus! {

/// Charge added per tick while the robot is charging: 10 units.
pub const CHARGE_RATE: u32 = 10_000_000;

/// Settings of a run. `tick_rate` is the simulated time per step, in
/// milliseconds.
pub struct SimulationConfig {
    pub max_steps: usize,
    pub enable_slam: bool,
    pub tick_rate: u64,
}

impl Default for SimulationConfig {
    /// 10000 steps of 100 ms, localization off.
    fn default() -> (c: SimulationConfig)
        ensures
            c.max_steps == 10000,
            !c.enable_slam,
            c.tick_rate == 100,
    {
        SimulationConfig { max_steps: 10000, enable_slam: false, tick_rate: 100 }
    }
}

/// The outcome of a run: exact coverage, distance in millimetres.
#[derive(Debug, Clone)]
pub struct SimulationResults {
    pub steps: usize,
    pub cleaning_coverage: Coverage,
    pub total_distance: u64,
    pub battery_cycles: usize,
    pub success: bool,
}

/// The robot's operating state after one tick: an idle robot starts
/// cleaning; a cleaning robot heads for the dock when its policy says so; a
/// charging robot resumes cleaning once full; any other state stays.
pub open spec fn next_state(robot: Robot) -> RobotState {
    match robot.state {
        RobotState::Idle => RobotState::Cleaning,
        RobotState::Cleaning => if robot.return_needed() {
            RobotState::ReturningToDock
        } else {
            RobotState::Cleaning
        },
        RobotState::Charging => if robot.battery_level + CHARGE_RATE >= robot.battery_capacity {
            RobotState::Cleaning
        } else {
            RobotState::Charging
        },
        other => other,
    }
}

/// The clock after `ticks` ticks of `tick_rate` ms from `start`, saturating
/// at `u64::MAX`.
pub open spec fn clock_after(start: u64, tick_rate: u64, ticks: nat) -> u64 {
    if start + tick_rate * ticks > u64::MAX {
        u64::MAX
    } else {
        (start + tick_rate * ticks) as u64
    }
}

/// One more tick on a saturating clock.
proof fn lemma_clock_step(start: u64, tick_rate: u64, ticks: nat)
    ensures
        clock_after(clock_after(start, tick_rate, ticks), tick_rate, 1) == clock_after(
            start,
            tick_rate,
            ticks + 1,
        ),
{
    assert(tick_rate * (ticks + 1) == tick_rate * ticks + tick_rate) by (nonlinear_arith);
    assert(tick_rate * ticks >= 0) by (nonlinear_arith);
}

/// No tick moves a robot into `Error`, and none moves it out.
pub proof fn lemma_next_state_error(robot: Robot)
    ensures
        (next_state(robot) == RobotState::Error) == (robot.state == RobotState::Error),
{
}

/// A simulation: one robot in one room.
pub struct Simulator {
    pub robot: Robot,
    pub environment: Environment,
    pub config: SimulationConfig,
    pub steps: usize,
}

impl Simulator {
    pub fn new(robot: Robot, environment: Environment, config: SimulationConfig) -> (s: Simulator)
        ensures
            s.robot == robot,
            s.environment == environment,
            s.config == config,
            s.steps == 0,
    {
        Simulator { robot, environment, config, steps: 0 }
    }

    /// One tick: counts the step, advances the room's clock by `tick_rate`
    /// (saturating), and moves the robot's state on. Returns whether the run
    /// goes on, that is whether fewer than `max_steps` steps have run.
    pub fn step(&mut self) -> (r: bool)
        requires
            old(self).robot.wf(),
            old(self).steps < usize::MAX,
        ensures
            final(self).robot.wf(),
            final(self).steps == old(self).steps + 1,
            r == (final(self).steps < old(self).config.max_steps),
            final(self).config == old(self).config,
            final(self).environment.sim_time == clock_after(
                old(self).environment.sim_time,
                old(self).config.tick_rate,
                1,
            ),
            final(self).environment.grid == old(self).environment.grid,
            final(self).environment.dirty_map == old(self).environment.dirty_map,
            final(self).environment.width == old(self).environment.width,
            final(self).environment.height == old(self).environment.height,
            final(self).robot.state == next_state(old(self).robot),
            old(self).robot.state == RobotState::Charging ==> final(self).robot.battery_level == charged(
                old(self).robot.battery_level,
                CHARGE_RATE,
                old(self).robot.battery_capacity,
            ),
            old(self).robot.state != RobotState::Charging ==> final(self).robot.battery_level
                == old(self).robot.battery_level,
            old(self).robot.state == RobotState::Charging && old(self).robot.battery_level
                + CHARGE_RATE >= old(self).robot.battery_capacity ==> final(self).robot.stats.battery_cycles
                == saturating_increment(old(self).robot.stats.battery_cycles),
            !(old(self).robot.state == RobotState::Charging && old(self).robot.battery_level
                + CHARGE_RATE >= old(self).robot.battery_capacity) ==> final(self).robot.stats.battery_cycles
                == old(self).robot.stats.battery_cycles,
            final(self).environment.dock_position == old(self).environment.dock_position,
            final(self).robot.position == old(self).robot.position,
            final(self).robot.battery_capacity == old(self).robot.battery_capacity,
            final(self).robot.dock_position == old(self).robot.dock_position,
            final(self).robot.stats.total_distance == old(self).robot.stats.total_distance,
            final(self).robot.stats.area_cleaned == old(self).robot.stats.area_cleaned,
            final(self).robot.stats.cleaning_time == old(self).robot.stats.cleaning_time,
            final(self).robot.stats.errors_encountered == old(self).robot.stats.errors_encountered,
            final(self).robot.stats.stuck_count == old(self).robot.stats.stuck_count,
            final(self).robot.path_history@ == old(self).robot.path_history@,
            final(self).robot.cleaned_cells@ == old(self).robot.cleaned_cells@,
            final(self).robot.visited_cells@ == old(self).robot.visited_cells@,
            final(self).robot.mode == old(self).robot.mode,
            final(self).robot.heading == old(self).robot.heading,
            final(self).robot.sensor_data == old(self).robot.sensor_data,
            final(self).robot.cleaning_width == old(self).robot.cleaning_width,
            final(self).robot.speed == old(self).robot.speed,
            final(self).robot.sensor_range == old(self).robot.sensor_range,
    {
        self.steps = self.steps + 1;
        self.environment.step(self.config.tick_rate);
        match self.robot.state {
            RobotState::Idle => {
                self.robot.state = RobotState::Cleaning;
            },
            RobotState::Cleaning => {
                if self.robot.should_return_to_dock() {
                    self.robot.state = RobotState::ReturningToDock;
                }
            },
            RobotState::Charging => {
                if self.robot.charge(CHARGE_RATE) {
                    self.robot.state = RobotState::Cleaning;
                }
            },
            _ => {},
        }
        self.steps < self.config.max_steps
    }

    /// Steps until `max_steps` steps have run (at least one step), then
    /// reports steps, coverage, distance, battery cycles, and success: the
    /// robot did not end in `Error`.
    pub fn run(&mut self) -> (res: SimulationResults)
        requires
            old(self).robot.wf(),
            old(self).environment.wf(),
            old(self).steps < usize::MAX,
        ensures
            final(self).robot.wf(),
            final(self).environment.wf(),
            final(self).steps == if old(self).steps + 1 >= old(self).config.max_steps {
                old(self).steps + 1
            } else {
                old(self).config.max_steps as int
            },
            res.steps == final(self).steps,
            res.cleaning_coverage == final(self).environment.coverage(),
            res.total_distance == final(self).robot.stats.total_distance,
            res.battery_cycles == final(self).robot.stats.battery_cycles,
            res.success == (final(self).robot.state != RobotState::Error),
            res.success == (old(self).robot.state != RobotState::Error),
            final(self).config == old(self).config,
            final(self).environment.sim_time == clock_after(
                old(self).environment.sim_time,
                old(self).config.tick_rate,
                (final(self).steps - old(self).steps) as nat,
            ),
            final(self).robot.stats.total_distance == old(self).robot.stats.total_distance,
            final(self).robot.position == old(self).robot.position,
            final(self).robot.path_history@ == old(self).robot.path_history@,
            final(self).robot.cleaned_cells@ == old(self).robot.cleaned_cells@,
            final(self).robot.visited_cells@ == old(self).robot.visited_cells@,
            final(self).robot.dock_position == old(self).robot.dock_position,
            final(self).environment.grid == old(self).environment.grid,
            final(self).environment.dirty_map == old(self).environment.dirty_map,
            final(self).environment.dock_position == old(self).environment.dock_position,
    {
        let ghost start = self.steps;
        let ghost start_time = self.environment.sim_time;
        let ghost was_error = self.robot.state == RobotState::Error;
        proof {
            lemma_next_state_error(self.robot);
            lemma_clock_step(start_time, self.config.tick_rate, 0);
        }
        let mut more = self.step();
        while more
            invariant
                self.robot.wf(),
                self.environment.wf(),
                self.config == old(self).config,
                self.steps > start,
                more ==> self.steps < self.config.max_steps,
                !more ==> self.steps == if start + 1 >= self.config.max_steps {
                    start + 1
                } else {
                    self.config.max_steps as int
                },
                more ==> start + 1 < self.config.max_steps,
                self.robot.position == old(self).robot.position,
                self.robot.stats.total_distance == old(self).robot.stats.total_distance,
                self.robot.path_history@ == old(self).robot.path_history@,
                self.robot.cleaned_cells@ == old(self).robot.cleaned_cells@,
                self.robot.visited_cells@ == old(self).robot.visited_cells@,
                self.robot.dock_position == old(self).robot.dock_position,
                (self.robot.state == RobotState::Error) == was_error,
                was_error == (old(self).robot.state == RobotState::Error),
                start == old(self).steps,
                start_time == old(self).environment.sim_time,
                self.environment.sim_time == clock_after(
                    start_time,
                    self.config.tick_rate,
                    (self.steps - start) as nat,
                ),
                self.environment.dock_position == old(self).environment.dock_position,
                self.environment.grid == old(self).environment.grid,
                self.environment.dirty_map == old(self).environment.dirty_map,
                self.environment.width == old(self).environment.width,
                self.environment.height == old(self).environment.height,
            decreases self.config.max_steps - self.steps + if more { 1int } else { 0int },
        {
            proof {
                lemma_next_state_error(self.robot);
                lemma_clock_step(start_time, self.config.tick_rate, (self.steps - start) as nat);
            }
            more = self.step();
        }
        SimulationResults {
            steps: self.steps,
            cleaning_coverage: self.environment.get_cleaning_percentage(),
            total_distance: self.robot.stats.total_distance,
            battery_cycles: self.robot.stats.battery_cycles,
            success: self.robot.state != RobotState::Error,
        }
    }
}

} // verus!
