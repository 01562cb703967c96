//! The room: static cell classification, the dirty/clean overlay, the
//! coverage metric and simulated time.
use vstd::prelude::*;
use crate::grid::{
    allocatable, flat_index, lemma_flat_index_bound, lemma_flat_index_inverse, CellGrid, FlagGrid,
};

verus! {

/// Classification of one grid cell.
#[derive(Debug, Clone, Copy, PartialEq, Eq, Structural)]
pub enum CellType {
    Free,
    Obstacle,
    Cliff,
    Dock,
}

/// How a raw cell code reads: 0 to 3 name the four kinds, anything else is `Free`.
pub open spec fn decode(code: u8) -> CellType {
    if code == 1 {
        CellType::Obstacle
    } else if code == 2 {
        CellType::Cliff
    } else if code == 3 {
        CellType::Dock
    } else {
        CellType::Free
    }
}

/// Cells that a robot may occupy.
pub open spec fn traversable(code: u8) -> bool {
    decode(code) == CellType::Free || decode(code) == CellType::Dock
}

pub open spec fn is_free_code(code: u8) -> bool {
    decode(code) == CellType::Free
}

impl CellType {
    pub open spec fn code_spec(self) -> u8 {
        match self {
            CellType::Free => 0,
            CellType::Obstacle => 1,
            CellType::Cliff => 2,
            CellType::Dock => 3,
        }
    }

    /// The raw code that stands for this kind in a cell grid.
    pub fn code(self) -> (r: u8)
        ensures
            r == self.code_spec(),
            decode(r) == self,
    {
        match self {
            CellType::Free => 0,
            CellType::Obstacle => 1,
            CellType::Cliff => 2,
            CellType::Dock => 3,
        }
    }
}

impl From<u8> for CellType {
    fn from(value: u8) -> (r: CellType) {
        if value == 1 {
            CellType::Obstacle
        } else if value == 2 {
            CellType::Cliff
        } else if value == 3 {
            CellType::Dock
        } else {
            CellType::Free
        }
    }
}

impl vstd::std_specs::convert::FromSpecImpl<u8> for CellType {
    open spec fn obeys_from_spec() -> bool {
        true
    }

    open spec fn from_spec(v: u8) -> CellType {
        decode(v)
    }
}

/// Number of `Free` cells among the first `n` codes.
pub open spec fn free_count(codes: Seq<u8>, n: nat) -> nat
    decreases n,
{
    if n == 0 {
        0
    } else {
        free_count(codes, (n - 1) as nat) + if is_free_code(codes[n - 1]) {
            1nat
        } else {
            0nat
        }
    }
}

/// Number of `Free` cells among the first `n` whose dirty flag is cleared.
pub open spec fn cleaned_count(codes: Seq<u8>, dirty: Seq<bool>, n: nat) -> nat
    decreases n,
{
    if n == 0 {
        0
    } else {
        cleaned_count(codes, dirty, (n - 1) as nat) + if is_free_code(codes[n - 1]) && !dirty[n
            - 1] {
            1nat
        } else {
            0nat
        }
    }
}

/// Coverage as an exact ratio: `cleaned` clean `Free` cells out of `free`
/// `Free` cells. A room without `Free` cells counts as fully covered.
#[derive(Debug, Clone, Copy, PartialEq, Eq, Structural)]
pub struct Coverage {
    pub cleaned: usize,
    pub free: usize,
}

impl Coverage {
    /// Numerator of the covered share.
    pub open spec fn num(&self) -> nat {
        if self.free == 0 {
            1
        } else {
            self.cleaned as nat
        }
    }

    /// Denominator of the covered share (never zero).
    pub open spec fn den(&self) -> nat {
        if self.free == 0 {
            1
        } else {
            self.free as nat
        }
    }

    /// The share covered by `self` is strictly below that of `other`.
    pub open spec fn below(&self, other: &Coverage) -> bool {
        self.num() * other.den() < other.num() * self.den()
    }

    /// Whether this share is strictly below `other`'s, compared exactly.
    pub fn is_below(&self, other: &Coverage) -> (r: bool)
        ensures
            r == self.below(other),
    {
        let (n1, d1): (u128, u128) = if self.free == 0 {
            (1, 1)
        } else {
            (self.cleaned as u128, self.free as u128)
        };
        let (n2, d2): (u128, u128) = if other.free == 0 {
            (1, 1)
        } else {
            (other.cleaned as u128, other.free as u128)
        };
        assert(n1 * d2 <= 0xffff_ffff_ffff_ffffu128 * 0xffff_ffff_ffff_ffffu128) by (nonlinear_arith)
            requires n1 <= 0xffff_ffff_ffff_ffffu128, d2 <= 0xffff_ffff_ffff_ffffu128;
        assert(n2 * d1 <= 0xffff_ffff_ffff_ffffu128 * 0xffff_ffff_ffff_ffffu128) by (nonlinear_arith)
            requires n2 <= 0xffff_ffff_ffff_ffffu128, d1 <= 0xffff_ffff_ffff_ffffu128;
        n1 * d2 < n2 * d1
    }

    /// The share in hundredths of a percent, rounded down (0 to 10000).
    pub fn hundredths(&self) -> (r: u64)
        requires
            self.cleaned <= self.free,
        ensures
            r == self.num() * 10000 / self.den(),
            r <= 10000,
    {
        if self.free == 0 {
            proof {
                assert(self.num() == 1 && self.den() == 1);
                vstd::arithmetic::div_mod::lemma_div_basics(10000);
            }
            10000
        } else {
            let pct = (self.cleaned as u128) * 10000 / (self.free as u128);
            proof {
                let c = self.cleaned as int;
                let f = self.free as int;
                assert(c * 10000 <= f * 10000) by (nonlinear_arith)
                    requires c <= f;
                vstd::arithmetic::div_mod::lemma_div_is_ordered(c * 10000, f * 10000, f);
                vstd::arithmetic::div_mod::lemma_div_multiples_vanish(10000, f);
            }
            pct as u64
        }
    }
}

/// Two cells inside a grid of `width` columns share a flat index only if they
/// are the same cell.
pub proof fn lemma_flat_index_injective(a: int, b: int, c: int, d: int, width: int)
    requires
        0 <= a < width,
        0 <= c < width,
        0 <= b,
        0 <= d,
    ensures
        (flat_index(a, b, width) == flat_index(c, d, width)) == (a == c && b == d),
{
    lemma_flat_index_inverse(a, b, width);
    lemma_flat_index_inverse(c, d, width);
}

pub proof fn lemma_cleaned_le_free(codes: Seq<u8>, dirty: Seq<bool>, n: nat)
    ensures
        cleaned_count(codes, dirty, n) <= free_count(codes, n),
    decreases n,
{
    if n > 0 {
        lemma_cleaned_le_free(codes, dirty, (n - 1) as nat);
    }
}

/// No `Dock` code stands among the first `n` codes.
pub open spec fn no_dock_before(codes: Seq<u8>, n: int) -> bool {
    forall|i: int| 0 <= i < n ==> #[trigger] codes[i] != 3
}

/// The room simulation.
#[derive(Debug)]
pub struct Environment {
    pub grid: CellGrid,
    pub width: usize,
    pub height: usize,
    pub dock_position: Option<(usize, usize)>,
    pub dirty_map: FlagGrid,
    /// Simulated time in milliseconds.
    pub sim_time: u64,
}

impl Environment {
    pub open spec fn wf(&self) -> bool {
        &&& self.grid.wf()
        &&& self.dirty_map.wf()
        &&& self.grid.width_spec() == self.width
        &&& self.grid.height_spec() == self.height
        &&& self.dirty_map.width_spec() == self.width
        &&& self.dirty_map.height_spec() == self.height
    }

    pub open spec fn in_bounds(&self, x: int, y: int) -> bool {
        0 <= x < self.width && 0 <= y < self.height
    }

    /// The classification of an in-bounds cell.
    pub open spec fn cell(&self, x: int, y: int) -> CellType {
        decode(self.grid.code(x, y))
    }

    /// Whether a robot may stand on cell (`x`, `y`).
    pub open spec fn valid(&self, x: int, y: int) -> bool {
        self.in_bounds(x, y) && traversable(self.grid.code(x, y))
    }

    pub open spec fn dirty(&self, x: int, y: int) -> bool {
        self.in_bounds(x, y) && self.dirty_map.flag(x, y)
    }

    /// Number of clean `Free` cells.
    pub open spec fn cleaned_total(&self) -> nat {
        cleaned_count(self.grid.codes(), self.dirty_map.values(), self.grid.codes().len())
    }

    /// Number of `Free` cells.
    pub open spec fn free_total(&self) -> nat {
        free_count(self.grid.codes(), self.grid.codes().len())
    }

    pub open spec fn coverage(&self) -> Coverage {
        Coverage { cleaned: self.cleaned_total() as usize, free: self.free_total() as usize }
    }

    /// An environment of `width` × `height` `Free` cells, all dirty, no dock,
    /// time 0. A zero dimension gives a room without cells.
    pub fn new(width: usize, height: usize) -> (env: Environment)
        requires
            allocatable(width, height),
        ensures
            env.wf(),
            env.width == width,
            env.height == height,
            env.dock_position.is_none(),
            env.sim_time == 0,
            forall|x: int, y: int| env.in_bounds(x, y) ==> env.grid.code(x, y) == 0,
            forall|x: int, y: int| env.in_bounds(x, y) ==> env.cell(x, y) == CellType::Free,
            forall|x: int, y: int| env.in_bounds(x, y) ==> env.dirty(x, y),
    {
        let grid = CellGrid::new(width, height);
        let dirty_map = FlagGrid::new(width, height, true);
        let env = Environment { grid, width, height, dock_position: None, dirty_map, sim_time: 0 };
        assert forall|x: int, y: int| env.in_bounds(x, y) implies env.dirty(x, y) by {
            lemma_flat_index_bound(x, y, width as int, height as int);
        }
        env
    }

    /// Adopts a grid of cell codes, all dirty, time 0, and caches the first
    /// `Dock` cell in row-major order.
    pub fn from_grid(grid: CellGrid) -> (env: Environment)
        requires
            grid.wf(),
        ensures
            env.wf(),
            env.grid == grid,
            env.width == grid.width_spec(),
            env.height == grid.height_spec(),
            env.sim_time == 0,
            env.dirty_map.values() == Seq::new(grid.codes().len(), |i: int| true),
            env.dock_position.is_none() == no_dock_before(grid.codes(), grid.codes().len() as int),
            env.dock_position matches Some((x, y)) ==> {
                &&& env.in_bounds(x as int, y as int)
                &&& env.cell(x as int, y as int) == CellType::Dock
                &&& no_dock_before(grid.codes(), flat_index(x as int, y as int, env.width as int))
            },
    {
        let width = grid.width();
        let height = grid.height();
        let ghost codes = grid.codes();
        let mut dock_position: Option<(usize, usize)> = None;
        let mut y: usize = 0;
        while y < height && dock_position.is_none()
            invariant
                grid.wf(),
                codes == grid.codes(),
                width == grid.width_spec(),
                height == grid.height_spec(),
                y <= height,
                dock_position.is_none() ==> no_dock_before(codes, y * width),
                dock_position matches Some((dx, dy)) ==> {
                    &&& dx < width
                    &&& dy < height
                    &&& grid.code(dx as int, dy as int) == 3
                    &&& no_dock_before(codes, flat_index(dx as int, dy as int, width as int))
                },
            decreases height - y + if dock_position.is_none() { 1int } else { 0int },
        {
            let mut x: usize = 0;
            while x < width && dock_position.is_none()
                invariant
                    grid.wf(),
                    codes == grid.codes(),
                    width == grid.width_spec(),
                    height == grid.height_spec(),
                    x <= width,
                    y < height,
                    dock_position.is_none() ==> no_dock_before(codes, y * width + x),
                    dock_position matches Some((dx, dy)) ==> {
                        &&& dx < width
                        &&& dy < height
                        &&& grid.code(dx as int, dy as int) == 3
                        &&& no_dock_before(codes, flat_index(dx as int, dy as int, width as int))
                    },
                decreases width - x + if dock_position.is_none() { 1int } else { 0int },
            {
                proof {
                    lemma_flat_index_bound(x as int, y as int, width as int, height as int);
                }
                if grid.get(x, y) == Some(3u8) {
                    dock_position = Some((x, y));
                } else {
                    x = x + 1;
                }
            }
            if dock_position.is_none() {
                assert(y * width + width == (y + 1) * width) by (nonlinear_arith);
                y = y + 1;
            }
        }
        proof {
            if let Some((dx, dy)) = dock_position {
                lemma_flat_index_bound(dx as int, dy as int, width as int, height as int);
                assert(codes[flat_index(dx as int, dy as int, width as int)] == 3);
            } else {
                assert(height * width == width * height) by (nonlinear_arith);
            }
        }
        let dirty_map = FlagGrid::new(width, height, true);
        Environment { grid, width, height, dock_position, dirty_map, sim_time: 0 }
    }

    /// A room whose border cells are `Obstacle` and whose interior is `Free`.
    pub fn create_empty_room(width: usize, height: usize) -> (env: Environment)
        requires
            width >= 1,
            height >= 1,
            allocatable(width, height),
        ensures
            env.wf(),
            env.width == width,
            env.height == height,
            env.sim_time == 0,
            forall|x: int, y: int|
                env.in_bounds(x, y) ==> env.cell(x, y) == if x == 0 || x == width - 1 || y == 0 || y
                    == height - 1 {
                    CellType::Obstacle
                } else {
                    CellType::Free
                },
            env.dock_position.is_none(),
            env.dirty_map.values() == Seq::new(env.grid.codes().len(), |i: int| true),
    {
        let mut grid = CellGrid::new(width, height);
        let wall = CellType::Obstacle.code();
        let mut x: usize = 0;
        while x < width
            invariant
                grid.wf(),
                grid.width_spec() == width,
                grid.height_spec() == height,
                width >= 1,
                height >= 1,
                x <= width,
                wall == 1,
                forall|a: int, b: int|
                    0 <= a < width && 0 <= b < height ==> #[trigger] grid.code(a, b) == if (b == 0
                        || b == height - 1) && a < x {
                        1u8
                    } else {
                        0u8
                    },
            decreases width - x,
        {
            let ghost g0 = grid;
            grid.set(x, 0, wall);
            let ghost g1 = grid;
            grid.set(x, height - 1, wall);
            assert forall|a: int, b: int| 0 <= a < width && 0 <= b < height implies #[trigger] grid.code(a, b)
                == if (b == 0 || b == height - 1) && a < x + 1 {
                1u8
            } else {
                0u8
            } by {
                lemma_flat_index_injective(a, b, x as int, 0, width as int);
                lemma_flat_index_injective(a, b, x as int, height - 1, width as int);
                lemma_flat_index_bound(a, b, width as int, height as int);
                lemma_flat_index_bound(x as int, 0, width as int, height as int);
                lemma_flat_index_bound(x as int, height - 1, width as int, height as int);
                assert(g0.code(a, b) == if (b == 0 || b == height - 1) && a < x { 1u8 } else { 0u8 });
            }
            x = x + 1;
        }
        let mut y: usize = 0;
        while y < height
            invariant
                grid.wf(),
                grid.width_spec() == width,
                grid.height_spec() == height,
                width >= 1,
                height >= 1,
                y <= height,
                wall == 1,
                forall|a: int, b: int|
                    0 <= a < width && 0 <= b < height ==> #[trigger] grid.code(a, b) == if b == 0
                        || b == height - 1 || ((a == 0 || a == width - 1) && b < y) {
                        1u8
                    } else {
                        0u8
                    },
            decreases height - y,
        {
            let ghost g0 = grid;
            grid.set(0, y, wall);
            let ghost g1 = grid;
            grid.set(width - 1, y, wall);
            assert forall|a: int, b: int| 0 <= a < width && 0 <= b < height implies #[trigger] grid.code(a, b)
                == if b == 0 || b == height - 1 || ((a == 0 || a == width - 1) && b < y + 1) {
                1u8
            } else {
                0u8
            } by {
                lemma_flat_index_injective(a, b, 0, y as int, width as int);
                lemma_flat_index_injective(a, b, width - 1, y as int, width as int);
                lemma_flat_index_bound(a, b, width as int, height as int);
                lemma_flat_index_bound(0, y as int, width as int, height as int);
                lemma_flat_index_bound(width - 1, y as int, width as int, height as int);
                assert(g0.code(a, b) == if b == 0 || b == height - 1 || ((a == 0 || a == width - 1) && b < y) { 1u8 } else { 0u8 });
            }
            y = y + 1;
        }
        let env = Environment::from_grid(grid);
        proof {
            if let Some((dx, dy)) = env.dock_position {
                assert(grid.code(dx as int, dy as int) == 3);
            }
        }
        env
    }

    /// Whether (`x`, `y`) lies inside the room on a `Free` or `Dock` cell.
    pub fn is_valid_position(&self, x: usize, y: usize) -> (r: bool)
        requires
            self.wf(),
        ensures
            r == self.valid(x as int, y as int),
    {
        if x >= self.width || y >= self.height {
            return false;
        }
        match self.grid.get(x, y) {
            Some(code) => {
                let kind = CellType::from(code);
                matches!(kind, CellType::Free | CellType::Dock)
            },
            None => false,
        }
    }

    /// Clears the dirty flag of an in-bounds cell; does nothing outside the room.
    pub fn clean_cell(&mut self, x: usize, y: usize)
        requires
            old(self).wf(),
        ensures
            final(self).wf(),
            final(self).grid == old(self).grid,
            final(self).width == old(self).width,
            final(self).height == old(self).height,
            final(self).dock_position == old(self).dock_position,
            final(self).sim_time == old(self).sim_time,
            final(self).dirty_map.values() == if old(self).in_bounds(x as int, y as int) {
                old(self).dirty_map.values().update(
                    flat_index(x as int, y as int, old(self).width as int),
                    false,
                )
            } else {
                old(self).dirty_map.values()
            },
            forall|a: int, b: int|
                final(self).dirty(a, b) == (old(self).dirty(a, b) && !(a == x && b == y)),
    {
        let ghost before = *self;
        if x < self.width && y < self.height {
            self.dirty_map.set(x, y, false);
            assert forall|a: int, b: int|
                self.dirty(a, b) == (before.dirty(a, b) && !(a == x && b == y)) by {
                lemma_flat_index_bound(x as int, y as int, self.width as int, self.height as int);
                if before.in_bounds(a, b) {
                    lemma_flat_index_injective(a, b, x as int, y as int, self.width as int);
                    lemma_flat_index_bound(a, b, self.width as int, self.height as int);
                }
            }
        }
    }

    /// The dirty flag of a cell; `false` outside the room.
    pub fn is_dirty(&self, x: usize, y: usize) -> (r: bool)
        requires
            self.wf(),
        ensures
            r == self.dirty(x as int, y as int),
    {
        if x < self.width && y < self.height {
            self.dirty_map.get(x, y)
        } else {
            false
        }
    }

    /// Coverage: how many `Free` cells are clean, out of how many `Free`
    /// cells there are.
    pub fn get_cleaning_percentage(&self) -> (r: Coverage)
        requires
            self.wf(),
        ensures
            r == self.coverage(),
            r.cleaned as nat == self.cleaned_total(),
            r.free as nat == self.free_total(),
            r.cleaned <= r.free,
    {
        let ghost codes = self.grid.codes();
        let ghost dirty = self.dirty_map.values();
        let mut free: usize = 0;
        let mut cleaned: usize = 0;
        let mut y: usize = 0;
        while y < self.height
            invariant
                self.wf(),
                codes == self.grid.codes(),
                dirty == self.dirty_map.values(),
                y <= self.height,
                free == free_count(codes, (y * self.width) as nat),
                cleaned == cleaned_count(codes, dirty, (y * self.width) as nat),
                free <= y * self.width,
                cleaned <= y * self.width,
            decreases self.height - y,
        {
            let mut x: usize = 0;
            while x < self.width
                invariant
                    self.wf(),
                    codes == self.grid.codes(),
                    dirty == self.dirty_map.values(),
                    y < self.height,
                    x <= self.width,
                    free == free_count(codes, (y * self.width + x) as nat),
                    cleaned == cleaned_count(codes, dirty, (y * self.width + x) as nat),
                    free <= y * self.width + x,
                    cleaned <= y * self.width + x,
                decreases self.width - x,
            {
                proof {
                    lemma_flat_index_bound(x as int, y as int, self.width as int, self.height as int);
                }
                let code = match self.grid.get(x, y) {
                    Some(c) => c,
                    None => 0u8,
                };
                if CellType::from(code) == CellType::Free {
                    free = free + 1;
                    if !self.dirty_map.get(x, y) {
                        cleaned = cleaned + 1;
                    }
                }
                x = x + 1;
            }
            assert(y * self.width + self.width == (y + 1) * self.width) by (nonlinear_arith);
            y = y + 1;
        }
        proof {
            assert(self.height * self.width == self.width * self.height) by (nonlinear_arith);
            lemma_cleaned_le_free(codes, dirty, codes.len());
        }
        Coverage { cleaned, free }
    }

    /// Advances simulated time by `delta_ms` milliseconds, saturating at `u64::MAX`.
    pub fn step(&mut self, delta_ms: u64)
        ensures
            final(self).sim_time == if old(self).sim_time + delta_ms > u64::MAX {
                u64::MAX as int
            } else {
                old(self).sim_time + delta_ms
            },
            final(self).grid == old(self).grid,
            final(self).dirty_map == old(self).dirty_map,
            final(self).width == old(self).width,
            final(self).height == old(self).height,
            final(self).dock_position == old(self).dock_position,
    {
        self.sim_time = self.sim_time.saturating_add(delta_ms);
    }

    /// Marks every cell dirty again and sets time back to 0; classification and
    /// dock stay.
    pub fn reset(&mut self)
        requires
            old(self).wf(),
        ensures
            final(self).wf(),
            final(self).sim_time == 0,
            final(self).grid == old(self).grid,
            final(self).width == old(self).width,
            final(self).height == old(self).height,
            final(self).dock_position == old(self).dock_position,
            final(self).dirty_map.values() == Seq::new(old(self).grid.codes().len(), |i: int| true),
            forall|x: int, y: int| final(self).in_bounds(x, y) ==> final(self).dirty(x, y),
    {
        self.dirty_map.fill(true);
        self.sim_time = 0;
        proof {
            assert forall|x: int, y: int| self.in_bounds(x, y) implies self.dirty(x, y) by {
                lemma_flat_index_bound(x, y, self.width as int, self.height as int);
            }
        }
    }
}

/// Clearing the dirty flag at index `i` adds one cleaned cell exactly when
/// that cell is `Free` and was dirty, and changes nothing otherwise; the
/// `Free` count does not depend on the flags.
pub proof fn lemma_clean_index_count(codes: Seq<u8>, dirty: Seq<bool>, i: int, n: nat)
    requires
        0 <= i < dirty.len(),
        n <= codes.len(),
        n <= dirty.len(),
    ensures
        cleaned_count(codes, dirty.update(i, false), n) == cleaned_count(codes, dirty, n) + if i < n
            && is_free_code(codes[i]) && dirty[i] {
            1int
        } else {
            0int
        },
    decreases n,
{
    if n > 0 {
        lemma_clean_index_count(codes, dirty, i, (n - 1) as nat);
    }
}

/// While every cell is still dirty, nothing counts as cleaned.
proof fn lemma_cleaned_none(codes: Seq<u8>, dirty: Seq<bool>, n: nat)
    requires
        n <= dirty.len(),
        forall|i: int| 0 <= i < n ==> dirty[i],
    ensures
        cleaned_count(codes, dirty, n) == 0,
    decreases n,
{
    if n > 0 {
        lemma_cleaned_none(codes, dirty, (n - 1) as nat);
    }
}

/// When every `Free` cell is clean, the cleaned count is the `Free` count.
proof fn lemma_cleaned_all(codes: Seq<u8>, dirty: Seq<bool>, n: nat)
    requires
        n <= codes.len(),
        n <= dirty.len(),
        forall|i: int| 0 <= i < n && is_free_code(#[trigger] codes[i]) ==> !dirty[i],
    ensures
        cleaned_count(codes, dirty, n) == free_count(codes, n),
    decreases n,
{
    if n > 0 {
        lemma_cleaned_all(codes, dirty, (n - 1) as nat);
    }
}

/// With no `Free` code among the first `n`, the `Free` count is zero; with one,
/// it is positive.
proof fn lemma_free_count_zero(codes: Seq<u8>, n: nat)
    requires
        n <= codes.len(),
    ensures
        (free_count(codes, n) == 0) == (forall|i: int| 0 <= i < n ==> !is_free_code(#[trigger] codes[i])),
    decreases n,
{
    if n > 0 {
        lemma_free_count_zero(codes, (n - 1) as nat);
    }
}

/// A room whose cells are all dirty and that has a `Free` cell has coverage 0.
pub proof fn lemma_coverage_fresh(env: Environment)
    requires
        env.wf(),
        forall|i: int| 0 <= i < env.dirty_map.values().len() ==> env.dirty_map.values()[i],
        exists|i: int| 0 <= i < env.grid.codes().len() && is_free_code(#[trigger] env.grid.codes()[i]),
    ensures
        env.coverage().free > 0,
        env.coverage().num() == 0,
{
    let codes = env.grid.codes();
    lemma_cleaned_none(codes, env.dirty_map.values(), codes.len());
    lemma_free_count_zero(codes, codes.len());
    lemma_free_total_bound(env);
}

/// Once every `Free` cell is clean, coverage is exactly full.
pub proof fn lemma_coverage_all_clean(env: Environment)
    requires
        env.wf(),
        forall|i: int|
            0 <= i < env.grid.codes().len() && is_free_code(#[trigger] env.grid.codes()[i])
                ==> !env.dirty_map.values()[i],
    ensures
        env.coverage().num() == env.coverage().den(),
{
    let codes = env.grid.codes();
    lemma_cleaned_all(codes, env.dirty_map.values(), codes.len());
    lemma_free_total_bound(env);
}

/// A room without any `Free` cell counts as fully covered.
pub proof fn lemma_coverage_no_free_cell(env: Environment)
    requires
        env.wf(),
        forall|i: int| 0 <= i < env.grid.codes().len() ==> !is_free_code(#[trigger] env.grid.codes()[i]),
    ensures
        env.coverage().free == 0,
        env.coverage().num() == env.coverage().den(),
{
    lemma_free_count_zero(env.grid.codes(), env.grid.codes().len());
}

/// The `Free` count fits in a `usize` and bounds the cleaned count.
proof fn lemma_free_total_bound(env: Environment)
    requires
        env.wf(),
    ensures
        env.cleaned_total() <= env.free_total() <= env.grid.codes().len() <= usize::MAX,
{
    lemma_free_count_le(env.grid.codes(), env.grid.codes().len());
    lemma_cleaned_le_free(env.grid.codes(), env.dirty_map.values(), env.grid.codes().len());
}

proof fn lemma_free_count_le(codes: Seq<u8>, n: nat)
    ensures
        free_count(codes, n) <= n,
    decreases n,
{
    if n > 0 {
        lemma_free_count_le(codes, (n - 1) as nat);
    }
}

/// Cleaning cell (`x`, `y`), as `clean_cell` does, never lowers coverage, and
/// raises it strictly exactly when the cell lies in the room, is `Free`, and
/// was dirty.
pub proof fn lemma_clean_cell_coverage(before: Environment, after: Environment, x: int, y: int)
    requires
        before.wf(),
        after.wf(),
        after.grid == before.grid,
        after.width == before.width,
        after.height == before.height,
        after.dirty_map.values() == if before.in_bounds(x, y) {
            before.dirty_map.values().update(flat_index(x, y, before.width as int), false)
        } else {
            before.dirty_map.values()
        },
    ensures
        after.free_total() == before.free_total(),
        after.cleaned_total() == before.cleaned_total() + if before.in_bounds(x, y) && before.cell(x, y)
            == CellType::Free && before.dirty(x, y) {
            1int
        } else {
            0int
        },
        before.coverage().below(&after.coverage()) == (before.in_bounds(x, y) && before.cell(x, y)
            == CellType::Free && before.dirty(x, y)),
        !after.coverage().below(&before.coverage()),
{
    let codes = before.grid.codes();
    lemma_free_total_bound(before);
    lemma_free_total_bound(after);
    let rises = before.in_bounds(x, y) && before.cell(x, y) == CellType::Free && before.dirty(x, y);
    if before.in_bounds(x, y) {
        let i = flat_index(x, y, before.width as int);
        lemma_flat_index_bound(x, y, before.width as int, before.height as int);
        lemma_clean_index_count(codes, before.dirty_map.values(), i, codes.len());
        if rises {
            lemma_free_count_zero(codes, codes.len());
            assert(is_free_code(codes[i]));
        }
    }
    let c1 = before.cleaned_total() as int;
    let c2 = after.cleaned_total() as int;
    let f = before.free_total() as int;
    if f > 0 {
        assert((c1 * f < c2 * f) == (c1 < c2)) by (nonlinear_arith)
            requires f > 0;
        assert((c2 * f < c1 * f) == (c2 < c1)) by (nonlinear_arith)
            requires f > 0;
    }
}

} // verus!
