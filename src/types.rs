//! Plain value types shared by the robot model: positions in millimetres,
//! sensor readings and accumulated statistics.
use vstd::prelude::*;

verus! {

/// Millimetres per grid cell: a cell is one unit of length on a side.
pub const MM_PER_CELL: i32 = 1000;

/// The integer square root of `n`, rounded down.
pub open spec fn is_floor_sqrt(r: int, n: int) -> bool {
    0 <= r && r * r <= n < (r + 1) * (r + 1)
}

pub open spec fn floor_sqrt(n: nat) -> nat {
    choose|r: nat| is_floor_sqrt(r as int, n as int)
}

/// A number has exactly one rounded-down square root.
pub proof fn lemma_floor_sqrt_unique(r: nat, n: nat)
    requires
        is_floor_sqrt(r as int, n as int),
    ensures
        floor_sqrt(n) == r,
{
    let s = floor_sqrt(n);
    assert(is_floor_sqrt(s as int, n as int));
    if s < r {
        assert((s + 1) * (s + 1) <= r * r) by (nonlinear_arith)
            requires s + 1 <= r;
    } else if r < s {
        assert((r + 1) * (r + 1) <= s * s) by (nonlinear_arith)
            requires r + 1 <= s;
    }
}

/// The rounded-down square root of `n`, by bisection.
pub fn sqrt_floor(n: u128) -> (r: u128)
    ensures
        r == floor_sqrt(n as nat),
        is_floor_sqrt(r as int, n as int),
{
    let mut lo: u128 = 0;
    let mut hi: u128 = 0x1_0000_0000_0000_0000;
    assert(n < hi * hi) by (nonlinear_arith)
        requires n <= u128::MAX, hi == 0x1_0000_0000_0000_0000u128;
    while hi - lo > 1
        invariant
            lo < hi <= 0x1_0000_0000_0000_0000u128,
            lo * lo <= n,
            n < hi * hi,
        decreases hi - lo,
    {
        let mid = lo + (hi - lo) / 2;
        assert(mid * mid < 0x1_0000_0000_0000_0000u128 * 0x1_0000_0000_0000_0000u128) by (nonlinear_arith)
            requires mid < 0x1_0000_0000_0000_0000u128;
        if mid * mid <= n {
            lo = mid;
        } else {
            hi = mid;
        }
    }
    proof {
        lemma_floor_sqrt_unique(lo as nat, n as nat);
    }
    lo
}

pub open spec fn abs(v: int) -> int {
    if v < 0 {
        -v
    } else {
        v
    }
}

/// The grid coordinate that a millimetre coordinate falls in; coordinates
/// left of or above the room map to 0.
pub open spec fn grid_coord(v: i32) -> usize {
    if v < 0 {
        0
    } else {
        (v / MM_PER_CELL) as usize
    }
}

/// A point of the plane, in millimetres.
#[derive(Debug, Clone, Copy, PartialEq, Eq, Structural)]
pub struct Position {
    pub x: i32,
    pub y: i32,
}

impl Position {
    pub fn new(x: i32, y: i32) -> (p: Position)
        ensures
            p.x == x,
            p.y == y,
    {
        Position { x, y }
    }

    pub open spec fn dist_sq(&self, other: &Position) -> int {
        (self.x - other.x) * (self.x - other.x) + (self.y - other.y) * (self.y - other.y)
    }

    /// The squared Euclidean distance, in square millimetres.
    pub fn distance_squared_to(&self, other: &Position) -> (r: u128)
        ensures
            r == self.dist_sq(other),
    {
        let dx: i64 = self.x as i64 - other.x as i64;
        let dy: i64 = self.y as i64 - other.y as i64;
        let ax: u128 = if dx < 0 { (-dx) as u128 } else { dx as u128 };
        let ay: u128 = if dy < 0 { (-dy) as u128 } else { dy as u128 };
        assert(ax * ax <= 0x1_0000_0000u128 * 0x1_0000_0000u128) by (nonlinear_arith)
            requires ax <= 0x1_0000_0000u128;
        assert(ay * ay <= 0x1_0000_0000u128 * 0x1_0000_0000u128) by (nonlinear_arith)
            requires ay <= 0x1_0000_0000u128;
        assert(ax * ax == dx * dx) by (nonlinear_arith)
            requires ax == abs(dx as int);
        assert(ay * ay == dy * dy) by (nonlinear_arith)
            requires ay == abs(dy as int);
        ax * ax + ay * ay
    }

    /// The Euclidean distance in millimetres, rounded down.
    pub fn distance_to(&self, other: &Position) -> (r: u128)
        ensures
            r == floor_sqrt(self.dist_sq(other) as nat),
    {
        sqrt_floor(self.distance_squared_to(other))
    }

    /// The grid cell that contains this point (coordinates truncated toward
    /// zero, negative ones clamped to 0).
    pub fn to_grid(&self) -> (r: (usize, usize))
        ensures
            r == (grid_coord(self.x), grid_coord(self.y)),
    {
        let gx: usize = if self.x < 0 { 0 } else { (self.x / MM_PER_CELL) as usize };
        let gy: usize = if self.y < 0 { 0 } else { (self.y / MM_PER_CELL) as usize };
        (gx, gy)
    }

    /// |dx| + |dy|, in millimetres.
    pub fn manhattan_distance(&self, other: &Position) -> (r: u64)
        ensures
            r == abs(self.x - other.x) + abs(self.y - other.y),
    {
        let dx: i64 = self.x as i64 - other.x as i64;
        let dy: i64 = self.y as i64 - other.y as i64;
        let ax: u64 = if dx < 0 { (-dx) as u64 } else { dx as u64 };
        let ay: u64 = if dy < 0 { (-dy) as u64 } else { dy as u64 };
        ax + ay
    }

    /// Componentwise sum.
    pub fn add(self, other: Position) -> (r: Position)
        requires
            i32::MIN <= self.x + other.x <= i32::MAX,
            i32::MIN <= self.y + other.y <= i32::MAX,
        ensures
            r.x == self.x + other.x,
            r.y == self.y + other.y,
    {
        Position { x: self.x + other.x, y: self.y + other.y }
    }

    /// Componentwise difference.
    pub fn sub(self, other: Position) -> (r: Position)
        requires
            i32::MIN <= self.x - other.x <= i32::MAX,
            i32::MIN <= self.y - other.y <= i32::MAX,
        ensures
            r.x == self.x - other.x,
            r.y == self.y - other.y,
    {
        Position { x: self.x - other.x, y: self.y - other.y }
    }
}

/// One snapshot of the robot's sensors. A distance is in millimetres;
/// `None` means nothing is within range.
#[derive(Debug, Clone, Copy, PartialEq, Eq, Structural)]
pub struct SensorData {
    pub obstacle_front: bool,
    pub obstacle_left: bool,
    pub obstacle_right: bool,
    pub obstacle_back: bool,
    pub cliff_detected: bool,
    pub bumper_triggered: bool,
    pub distance_front: Option<u32>,
    pub distance_left: Option<u32>,
    pub distance_right: Option<u32>,
    pub distance_back: Option<u32>,
}

impl SensorData {
    /// Nothing detected and nothing within range.
    pub open spec fn is_clear(&self) -> bool {
        &&& !self.obstacle_front
        &&& !self.obstacle_left
        &&& !self.obstacle_right
        &&& !self.obstacle_back
        &&& !self.cliff_detected
        &&& !self.bumper_triggered
        &&& self.distance_front is None
        &&& self.distance_left is None
        &&& self.distance_right is None
        &&& self.distance_back is None
    }
}

impl Default for SensorData {
    fn default() -> (r: SensorData)
        ensures
            r.is_clear(),
    {
        SensorData {
            obstacle_front: false,
            obstacle_left: false,
            obstacle_right: false,
            obstacle_back: false,
            cliff_detected: false,
            bumper_triggered: false,
            distance_front: None,
            distance_left: None,
            distance_right: None,
            distance_back: None,
        }
    }
}

/// Counters accumulated over a run. Distance is in millimetres and time in
/// milliseconds.
#[derive(Debug, Clone, Copy, PartialEq, Eq, Structural)]
pub struct RobotStats {
    pub total_distance: u64,
    pub area_cleaned: usize,
    pub cleaning_time: u64,
    pub battery_cycles: usize,
    pub errors_encountered: usize,
    pub stuck_count: usize,
}

impl RobotStats {
    pub open spec fn is_zero(&self) -> bool {
        &&& self.total_distance == 0
        &&& self.area_cleaned == 0
        &&& self.cleaning_time == 0
        &&& self.battery_cycles == 0
        &&& self.errors_encountered == 0
        &&& self.stuck_count == 0
    }
}

impl Default for RobotStats {
    fn default() -> (r: RobotStats)
        ensures
            r.is_zero(),
    {
        RobotStats {
            total_distance: 0,
            area_cleaned: 0,
            cleaning_time: 0,
            battery_cycles: 0,
            errors_encountered: 0,
            stuck_count: 0,
        }
    }
}

} // verus!
