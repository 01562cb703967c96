//! The robot: pose, battery, operating state and what it has covered.
//!
//! Lengths are in millimetres and charge in millionths of a battery unit, so
//! the default battery of 100 units holds 100_000_000. Moving one cell (1000
//! mm) uses 0.1 unit, that is 100 millionths per millimetre.
use vstd::prelude::*;
use crate::types::{floor_sqrt, grid_coord, sqrt_floor, Position, RobotStats, SensorData};

verus! {

/// Millionths of a battery unit in one unit.
pub const CHARGE_PER_UNIT: u32 = 1_000_000;

/// Capacity of a robot built with defaults: 100 units.
pub const DEFAULT_BATTERY_CAPACITY: u32 = 100_000_000;

/// Below this level (20 units) the robot heads for its dock.
pub const LOW_BATTERY_THRESHOLD: u32 = 20_000_000;

/// Charge kept in reserve for the way to the dock: 10 units.
pub const DOCK_RESERVE: u32 = 10_000_000;

/// Charge used per millimetre travelled (0.1 unit per cell).
pub const CHARGE_PER_MM: u64 = 100;

/// Operating states of the robot.
#[derive(Debug, Clone, Copy, PartialEq, Eq, Structural)]
pub enum RobotState {
    Idle,
    Cleaning,
    ReturningToDock,
    Charging,
    Error,
    Stuck,
}

/// Traversal strategies; stored, not interpreted by the core model.
#[derive(Debug, Clone, Copy, PartialEq, Eq, Structural)]
pub enum CleaningMode {
    Auto,
    Spot,
    Edge,
    Spiral,
    Zigzag,
    WallFollow,
    Random,
}

/// Charge left after travelling `distance` millimetres from `level`, never
/// below zero.
pub open spec fn drained(level: u32, distance: nat) -> u32 {
    if CHARGE_PER_MM * distance >= level {
        0
    } else {
        (level - CHARGE_PER_MM * distance) as u32
    }
}

/// Length of the straight move (`dx`, `dy`), in millimetres rounded down.
pub open spec fn step_length(dx: i32, dy: i32) -> nat {
    floor_sqrt((dx * dx + dy * dy) as nat)
}

/// `a + b`, or `u64::MAX` when the sum does not fit.
pub open spec fn saturating_sum(a: u64, b: nat) -> u64 {
    if a + b > u64::MAX {
        u64::MAX
    } else {
        (a + b) as u64
    }
}

/// Whether `level` falls short of the charge needed to reach a dock at
/// squared distance `dist_sq` (mm²) with a 50 % margin plus the reserve:
/// `level < 1.5 * 0.1 * distance + 10` in units, which in millionths and
/// millimetres reads `level < 150 * sqrt(dist_sq) + DOCK_RESERVE`.
pub open spec fn short_of_dock(level: u32, dist_sq: int) -> bool {
    level < DOCK_RESERVE || (level - DOCK_RESERVE) * (level - DOCK_RESERVE) < 22500 * dist_sq
}

/// Charge after adding `rate` to `level`, capped at `capacity`.
pub open spec fn charged(level: u32, rate: u32, capacity: u32) -> u32 {
    if level + rate >= capacity {
        capacity
    } else {
        (level + rate) as u32
    }
}

/// `n + 1`, or `usize::MAX` when that does not fit.
pub open spec fn saturating_increment(n: usize) -> usize {
    if n < usize::MAX {
        (n + 1) as usize
    } else {
        n
    }
}

/// The cells in `cells` with `c` added once.
pub open spec fn with_cell(cells: Seq<(usize, usize)>, c: (usize, usize)) -> Seq<(usize, usize)> {
    if cells.contains(c) {
        cells
    } else {
        cells.push(c)
    }
}

/// Adds `c` to `cells` unless it is there already.
fn insert_cell(cells: &mut Vec<(usize, usize)>, c: (usize, usize))
    requires
        old(cells)@.no_duplicates(),
    ensures
        final(cells)@ == with_cell(old(cells)@, c),
        final(cells)@.no_duplicates(),
{
    let mut i: usize = 0;
    while i < cells.len()
        invariant
            cells@ == old(cells)@,
            cells@.no_duplicates(),
            i <= cells.len(),
            forall|k: int| 0 <= k < i ==> cells@[k] != c,
        decreases cells.len() - i,
    {
        let here = cells[i];
        if here.0 == c.0 && here.1 == c.1 {
            assert(cells@.contains(c)) by {
                assert(cells@[i as int] == c);
            }
            return;
        }
        i = i + 1;
    }
    assert(!cells@.contains(c));
    let ghost before = cells@;
    cells.push(c);
    assert forall|a: int, b: int|
        0 <= a < cells@.len() && 0 <= b < cells@.len() && a != b implies cells@[a] != cells@[b] by {
        if a < before.len() && b < before.len() {
            assert(before[a] != before[b]);
        } else if a < before.len() {
            assert(before[a] != c);
        } else if b < before.len() {
            assert(before[b] != c);
        }
    }
}

/// A robot vacuum cleaner.
#[derive(Debug, Clone)]
pub struct Robot {
    pub position: Position,
    pub battery_capacity: u32,
    pub battery_level: u32,
    /// Millimetres.
    pub cleaning_width: u32,
    /// Millimetres per second.
    pub speed: u32,
    /// Millimetres.
    pub sensor_range: u32,
    pub state: RobotState,
    pub mode: CleaningMode,
    /// Milliradians.
    pub heading: i32,
    pub dock_position: Option<Position>,
    pub sensor_data: SensorData,
    pub stats: RobotStats,
    pub cleaned_cells: Vec<(usize, usize)>,
    pub visited_cells: Vec<(usize, usize)>,
    pub path_history: Vec<Position>,
}

/// What a robot reports about itself.
#[derive(Debug, Clone, Copy, PartialEq, Eq, Structural)]
pub struct RobotStatus {
    pub position: Position,
    pub battery_level: u32,
    pub state: RobotState,
    pub mode: CleaningMode,
    pub heading: i32,
    pub sensor_data: SensorData,
    pub stats: RobotStats,
}

impl Robot {
    pub open spec fn wf(&self) -> bool {
        &&& self.battery_level <= self.battery_capacity
        &&& self.path_history@.len() >= 1
        &&& self.cleaned_cells@.no_duplicates()
        &&& self.visited_cells@.no_duplicates()
        &&& self.stats.area_cleaned == self.cleaned_cells@.len()
    }

    /// The dock-return policy: low battery, or too little charge to reach the
    /// known dock in a straight line with margin and reserve (obstacles are
    /// not considered).
    pub open spec fn return_needed(&self) -> bool {
        self.battery_level < LOW_BATTERY_THRESHOLD || match self.dock_position {
            Some(dock) => short_of_dock(self.battery_level, self.position.dist_sq(&dock)),
            None => false,
        }
    }

    /// A robot at `position` with the default parameters: full 100-unit
    /// battery, 300 mm cleaning width, 200 mm/s, 2000 mm sensor range, idle,
    /// in `Auto` mode, no dock, zero statistics, and `position` as the only
    /// entry of its path history.
    pub fn new(position: Position) -> (r: Robot)
        ensures
            r.wf(),
            r.position == position,
            r.battery_capacity == DEFAULT_BATTERY_CAPACITY,
            r.battery_level == DEFAULT_BATTERY_CAPACITY,
            r.cleaning_width == 300,
            r.speed == 200,
            r.sensor_range == 2000,
            r.state == RobotState::Idle,
            r.mode == CleaningMode::Auto,
            r.heading == 0,
            r.dock_position is None,
            r.sensor_data.is_clear(),
            r.stats.is_zero(),
            r.cleaned_cells@.len() == 0,
            r.visited_cells@.len() == 0,
            r.path_history@ == seq![position],
    {
        let mut path_history: Vec<Position> = Vec::new();
        path_history.push(position);
        Robot {
            position,
            battery_capacity: DEFAULT_BATTERY_CAPACITY,
            battery_level: DEFAULT_BATTERY_CAPACITY,
            cleaning_width: 300,
            speed: 200,
            sensor_range: 2000,
            state: RobotState::Idle,
            mode: CleaningMode::Auto,
            heading: 0,
            dock_position: None,
            sensor_data: SensorData::default(),
            stats: RobotStats::default(),
            cleaned_cells: Vec::new(),
            visited_cells: Vec::new(),
            path_history,
        }
    }

    /// A robot like `new` builds, with the given capacity (battery full) and
    /// physical parameters.
    pub fn with_params(
        position: Position,
        battery_capacity: u32,
        cleaning_width: u32,
        speed: u32,
        sensor_range: u32,
    ) -> (r: Robot)
        ensures
            r.wf(),
            r.position == position,
            r.battery_capacity == battery_capacity,
            r.battery_level == battery_capacity,
            r.cleaning_width == cleaning_width,
            r.speed == speed,
            r.sensor_range == sensor_range,
            r.state == RobotState::Idle,
            r.mode == CleaningMode::Auto,
            r.heading == 0,
            r.dock_position is None,
            r.sensor_data.is_clear(),
            r.stats.is_zero(),
            r.cleaned_cells@.len() == 0,
            r.visited_cells@.len() == 0,
            r.path_history@ == seq![position],
    {
        let mut robot = Robot::new(position);
        robot.battery_capacity = battery_capacity;
        robot.battery_level = battery_capacity;
        robot.cleaning_width = cleaning_width;
        robot.speed = speed;
        robot.sensor_range = sensor_range;
        robot
    }

    /// Moves by (`dx`, `dy`) millimetres.
    ///
    /// With an empty battery nothing moves: the state becomes `Error` and the
    /// result is false. Otherwise the new position is appended to the path
    /// history, the straight-line distance (rounded down to a millimetre) is
    /// added to the total distance (saturating), the battery loses
    /// `CHARGE_PER_MM` per millimetre (never below zero), and the grid cell now
    /// occupied joins the visited and cleaned cells.
    pub fn move_by(&mut self, dx: i32, dy: i32) -> (r: bool)
        requires
            old(self).wf(),
            old(self).battery_level > 0 ==> i32::MIN <= old(self).position.x + dx <= i32::MAX,
            old(self).battery_level > 0 ==> i32::MIN <= old(self).position.y + dy <= i32::MAX,
        ensures
            final(self).wf(),
            r == (old(self).battery_level > 0),
            !r ==> final(self).state == RobotState::Error,
            !r ==> final(self).position == old(self).position,
            !r ==> final(self).battery_level == old(self).battery_level,
            !r ==> final(self).path_history@ == old(self).path_history@,
            !r ==> final(self).stats == old(self).stats,
            !r ==> final(self).cleaned_cells@ == old(self).cleaned_cells@,
            !r ==> final(self).visited_cells@ == old(self).visited_cells@,
            r ==> final(self).state == old(self).state,
            r ==> final(self).position.x == old(self).position.x + dx,
            r ==> final(self).position.y == old(self).position.y + dy,
            r ==> final(self).path_history@ == old(self).path_history@.push(final(self).position),
            r ==> final(self).battery_level == drained(old(self).battery_level, step_length(dx, dy)),
            r ==> final(self).stats.total_distance == saturating_sum(
                old(self).stats.total_distance,
                step_length(dx, dy),
            ),
            r ==> final(self).visited_cells@ == with_cell(
                old(self).visited_cells@,
                (grid_coord(final(self).position.x), grid_coord(final(self).position.y)),
            ),
            r ==> final(self).cleaned_cells@ == with_cell(
                old(self).cleaned_cells@,
                (grid_coord(final(self).position.x), grid_coord(final(self).position.y)),
            ),
            r && (dx != 0 || dy != 0) ==> final(self).battery_level < old(self).battery_level,
            final(self).battery_capacity == old(self).battery_capacity,
            final(self).dock_position == old(self).dock_position,
            final(self).mode == old(self).mode,
    {
        if self.battery_level == 0 {
            self.state = RobotState::Error;
            return false;
        }
        self.position = Position::new(self.position.x + dx, self.position.y + dy);
        self.path_history.push(self.position);

        assert((dx as i64) * (dx as i64) <= 0x4000_0000_0000_0000) by (nonlinear_arith)
            requires -0x8000_0000 <= dx <= 0x7fff_ffff;
        assert((dy as i64) * (dy as i64) <= 0x4000_0000_0000_0000) by (nonlinear_arith)
            requires -0x8000_0000 <= dy <= 0x7fff_ffff;
        assert(0 <= (dx as i64) * (dx as i64)) by (nonlinear_arith);
        assert(0 <= (dy as i64) * (dy as i64)) by (nonlinear_arith);
        let sq_x: u128 = ((dx as i64) * (dx as i64)) as u128;
        let sq_y: u128 = ((dy as i64) * (dy as i64)) as u128;
        let distance = sqrt_floor(sq_x + sq_y);
        proof {
            assert(distance <= 0x1_0000_0000) by (nonlinear_arith)
                requires
                    distance * distance <= sq_x + sq_y,
                    sq_x + sq_y <= 0x8000_0000_0000_0000u128,
                    0 <= distance;
            if dx != 0 || dy != 0 {
                assert(sq_x + sq_y >= 1) by (nonlinear_arith)
                    requires
                        sq_x == dx * dx,
                        sq_y == dy * dy,
                        dx != 0 || dy != 0;
                assert(distance >= 1) by (nonlinear_arith)
                    requires
                        sq_x + sq_y < (distance + 1) * (distance + 1),
                        sq_x + sq_y >= 1,
                        0 <= distance;
            }
        }
        let distance = distance as u64;
        self.stats.total_distance = self.stats.total_distance.saturating_add(distance);

        let consumption: u64 = distance * CHARGE_PER_MM;
        if consumption >= self.battery_level as u64 {
            self.battery_level = 0;
        } else {
            self.battery_level = self.battery_level - consumption as u32;
        }

        let cell = self.position.to_grid();
        insert_cell(&mut self.visited_cells, cell);
        insert_cell(&mut self.cleaned_cells, cell);
        self.stats.area_cleaned = self.cleaned_cells.len();
        true
    }

    /// Whether the robot should head for its dock: battery below
    /// `LOW_BATTERY_THRESHOLD`, or, with a dock known, less charge than the
    /// straight-line way there takes with a 50 % margin plus `DOCK_RESERVE`.
    pub fn should_return_to_dock(&self) -> (r: bool)
        ensures
            r == self.return_needed(),
            self.battery_level < LOW_BATTERY_THRESHOLD ==> r,
    {
        if self.battery_level < LOW_BATTERY_THRESHOLD {
            return true;
        }
        match self.dock_position {
            Some(dock) => {
                if self.battery_level < DOCK_RESERVE {
                    return true;
                }
                let dist_sq = self.position.distance_squared_to(&dock);
                let spare: u128 = (self.battery_level - DOCK_RESERVE) as u128;
                assert(spare * spare <= 0x1_0000_0000u128 * 0x1_0000_0000u128) by (nonlinear_arith)
                    requires spare <= 0x1_0000_0000u128;
                assert(dist_sq <= 0x4_0000_0000_0000_0000u128) by (nonlinear_arith)
                    requires
                        dist_sq == self.position.dist_sq(&dock),
                        -0x8000_0000 <= self.position.x <= 0x7fff_ffff,
                        -0x8000_0000 <= self.position.y <= 0x7fff_ffff,
                        -0x8000_0000 <= dock.x <= 0x7fff_ffff,
                        -0x8000_0000 <= dock.y <= 0x7fff_ffff;
                spare * spare < 22500 * dist_sq
            },
            None => false,
        }
    }

    /// Charges by `rate` millionths of a unit, up to capacity, and enters
    /// `Charging`. Returns true exactly when the battery is full afterwards,
    /// and counts one battery cycle (saturating) for each such call.
    pub fn charge(&mut self, rate: u32) -> (r: bool)
        requires
            old(self).wf(),
        ensures
            final(self).wf(),
            final(self).state == RobotState::Charging,
            final(self).battery_level == charged(old(self).battery_level, rate, old(self).battery_capacity),
            r == (old(self).battery_level + rate >= old(self).battery_capacity),
            r ==> final(self).stats.battery_cycles == saturating_increment(old(self).stats.battery_cycles),
            !r ==> final(self).stats.battery_cycles == old(self).stats.battery_cycles,
            final(self).stats.total_distance == old(self).stats.total_distance,
            final(self).stats.area_cleaned == old(self).stats.area_cleaned,
            final(self).battery_capacity == old(self).battery_capacity,
            final(self).position == old(self).position,
            final(self).dock_position == old(self).dock_position,
            final(self).path_history@ == old(self).path_history@,
            final(self).cleaned_cells@ == old(self).cleaned_cells@,
            final(self).visited_cells@ == old(self).visited_cells@,
            final(self).mode == old(self).mode,
            final(self).heading == old(self).heading,
            final(self).sensor_data == old(self).sensor_data,
            final(self).cleaning_width == old(self).cleaning_width,
            final(self).speed == old(self).speed,
            final(self).sensor_range == old(self).sensor_range,
            final(self).stats.cleaning_time == old(self).stats.cleaning_time,
            final(self).stats.errors_encountered == old(self).stats.errors_encountered,
            final(self).stats.stuck_count == old(self).stats.stuck_count,
    {
        if self.state != RobotState::Charging {
            self.state = RobotState::Charging;
        }
        let level: u64 = self.battery_level as u64 + rate as u64;
        if level >= self.battery_capacity as u64 {
            self.battery_level = self.battery_capacity;
        } else {
            self.battery_level = level as u32;
        }
        if self.battery_level >= self.battery_capacity {
            self.stats.battery_cycles = self.stats.battery_cycles.saturating_add(1);
            return true;
        }
        false
    }

    /// Records where the dock is.
    pub fn set_dock_position(&mut self, position: Position)
        ensures
            final(self).dock_position == Some(position),
            final(self).position == old(self).position,
            final(self).battery_level == old(self).battery_level,
            final(self).battery_capacity == old(self).battery_capacity,
            final(self).state == old(self).state,
            final(self).stats == old(self).stats,
            final(self).path_history@ == old(self).path_history@,
            final(self).cleaned_cells@ == old(self).cleaned_cells@,
            final(self).visited_cells@ == old(self).visited_cells@,
    {
        self.dock_position = Some(position);
    }

    /// Clears the statistics and the cell sets; the current position becomes
    /// the only path history entry.
    pub fn reset_stats(&mut self)
        requires
            old(self).wf(),
        ensures
            final(self).wf(),
            final(self).stats.is_zero(),
            final(self).cleaned_cells@.len() == 0,
            final(self).visited_cells@.len() == 0,
            final(self).path_history@ == seq![old(self).position],
            final(self).position == old(self).position,
            final(self).battery_level == old(self).battery_level,
            final(self).battery_capacity == old(self).battery_capacity,
            final(self).state == old(self).state,
            final(self).dock_position == old(self).dock_position,
    {
        self.stats = RobotStats::default();
        self.cleaned_cells.clear();
        self.visited_cells.clear();
        self.path_history.clear();
        self.path_history.push(self.position);
    }

    /// A snapshot of position, battery, state, mode, heading, sensors and
    /// statistics.
    pub fn get_status(&self) -> (s: RobotStatus)
        ensures
            s.position == self.position,
            s.battery_level == self.battery_level,
            s.state == self.state,
            s.mode == self.mode,
            s.heading == self.heading,
            s.sensor_data == self.sensor_data,
            s.stats == self.stats,
    {
        RobotStatus {
            position: self.position,
            battery_level: self.battery_level,
            state: self.state,
            mode: self.mode,
            heading: self.heading,
            sensor_data: self.sensor_data,
            stats: self.stats,
        }
    }
}

/// A robot with at least `LOW_BATTERY_THRESHOLD` of charge and no known dock
/// does not need to return; in particular a new robot, whose battery is full.
pub proof fn lemma_no_return_without_dock(robot: Robot)
    requires
        robot.battery_level >= LOW_BATTERY_THRESHOLD,
        robot.dock_position is None,
    ensures
        !robot.return_needed(),
{
}

} // verus!
