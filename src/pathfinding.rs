//! Shortest routes between grid cells: A* search over the 4-connected or
//! 8-connected grid of cells that a robot may occupy.
//!
//! Costs are fixed-point, in thousandths of a cell: a cardinal step costs 1000
//! and a diagonal step 1414. The heuristic is the Manhattan distance in the
//! same unit, which is admissible for cardinal moves only; with diagonal moves
//! enabled the route found is valid but need not be the cheapest. Among open
//! entries of equal estimated total cost the one queued first is expanded first.
use vstd::prelude::*;
use crate::environment::Environment;
use crate::grid::{flat_index, lemma_flat_index_bound, lemma_flat_index_inverse};

verus! {

pub const CARDINAL_COST: u128 = 1000;

pub const DIAGONAL_COST: u128 = 1414;

pub open spec fn abs_diff(a: int, b: int) -> int {
    if a >= b {
        a - b
    } else {
        b - a
    }
}

pub open spec fn manhattan(a: (usize, usize), b: (usize, usize)) -> int {
    abs_diff(a.0 as int, b.0 as int) + abs_diff(a.1 as int, b.1 as int)
}

/// One move of the grid graph: to a side neighbour, or, when `diagonal`
/// holds, to a corner neighbour.
pub open spec fn adjacent(a: (usize, usize), b: (usize, usize), diagonal: bool) -> bool {
    let dx = abs_diff(a.0 as int, b.0 as int);
    let dy = abs_diff(a.1 as int, b.1 as int);
    (dx + dy == 1) || (diagonal && dx == 1 && dy == 1)
}

/// `path` leads from `start` to `goal` through cells a robot may occupy,
/// one move at a time.
pub open spec fn is_route(
    env: &Environment,
    path: Seq<(usize, usize)>,
    start: (usize, usize),
    goal: (usize, usize),
    diagonal: bool,
) -> bool {
    &&& path.len() >= 1
    &&& path[0] == start
    &&& path.last() == goal
    &&& forall|k: int| 0 <= k < path.len() ==> env.valid(#[trigger] path[k].0 as int, path[k].1 as int)
    &&& forall|k: int| 0 <= k < path.len() - 1 ==> adjacent(#[trigger] path[k], path[k + 1], diagonal)
}

/// Each side move changes the Manhattan distance from a fixed cell by at most one.
proof fn lemma_prefix_distance(path: Seq<(usize, usize)>, k: int)
    requires
        0 <= k < path.len(),
        forall|i: int| 0 <= i < path.len() - 1 ==> adjacent(#[trigger] path[i], path[i + 1], false),
    ensures
        manhattan(path[0], path[k]) <= k,
    decreases k,
{
    if k > 0 {
        lemma_prefix_distance(path, k - 1);
        assert(adjacent(path[k - 1], path[k], false));
    }
}

/// Along side moves, the Manhattan distance between cells `a` and `b` of a
/// sequence is at most `b - a`.
proof fn lemma_segment_distance(path: Seq<(usize, usize)>, a: int, b: int)
    requires
        0 <= a <= b < path.len(),
        forall|i: int| 0 <= i < path.len() - 1 ==> adjacent(#[trigger] path[i], path[i + 1], false),
    ensures
        manhattan(path[a], path[b]) <= b - a,
    decreases b - a,
{
    if b > a {
        lemma_segment_distance(path, a, b - 1);
        assert(adjacent(path[b - 1], path[b], false));
    }
}

/// A route with side moves only holds at least one cell more than the
/// Manhattan distance between its ends.
pub proof fn lemma_cardinal_route_length(
    env: &Environment,
    path: Seq<(usize, usize)>,
    start: (usize, usize),
    goal: (usize, usize),
)
    requires
        is_route(env, path, start, goal, false),
    ensures
        path.len() >= 1 + manhattan(start, goal),
{
    lemma_prefix_distance(path, path.len() - 1);
}

/// Where a cell stands in the order of expansion; cells not expanded come last.
pub open spec fn chain_rank(closed: Seq<bool>, rank: Seq<int>, total: int, i: int) -> int {
    if closed[i] {
        rank[i]
    } else {
        total
    }
}

/// `v` lies between `a` and `b`, inclusive, in either order.
pub open spec fn between(v: int, a: int, b: int) -> bool {
    (a <= v <= b) || (b <= v <= a)
}

/// The side-move walk from `a` to `b` that first closes the gap in x, then in y.
pub open spec fn staircase(a: (usize, usize), b: (usize, usize)) -> Seq<(usize, usize)>
    decreases manhattan(a, b),
{
    if a.0 < b.0 {
        seq![a] + staircase(((a.0 + 1) as usize, a.1), b)
    } else if a.0 > b.0 {
        seq![a] + staircase(((a.0 - 1) as usize, a.1), b)
    } else if a.1 < b.1 {
        seq![a] + staircase((a.0, (a.1 + 1) as usize), b)
    } else if a.1 > b.1 {
        seq![a] + staircase((a.0, (a.1 - 1) as usize), b)
    } else {
        seq![a]
    }
}

/// The staircase walk has 1 + Manhattan-distance cells, runs from `a` to `b`
/// by side moves, and stays in the box spanned by `a` and `b`.
pub proof fn lemma_staircase(a: (usize, usize), b: (usize, usize))
    ensures
        staircase(a, b).len() == 1 + manhattan(a, b),
        staircase(a, b)[0] == a,
        staircase(a, b).last() == b,
        forall|i: int|
            0 <= i < staircase(a, b).len() - 1 ==> adjacent(#[trigger] staircase(a, b)[i], staircase(a, b)[i + 1], false),
        forall|i: int|
            0 <= i < staircase(a, b).len() ==> between(#[trigger] staircase(a, b)[i].0 as int, a.0 as int, b.0 as int)
                && between(staircase(a, b)[i].1 as int, a.1 as int, b.1 as int),
    decreases manhattan(a, b),
{
    let s = staircase(a, b);
    if a.0 != b.0 || a.1 != b.1 {
        let next = if a.0 < b.0 {
            ((a.0 + 1) as usize, a.1)
        } else if a.0 > b.0 {
            ((a.0 - 1) as usize, a.1)
        } else if a.1 < b.1 {
            (a.0, (a.1 + 1) as usize)
        } else {
            (a.0, (a.1 - 1) as usize)
        };
        lemma_staircase(next, b);
        let t = staircase(next, b);
        assert(s == seq![a] + t);
        assert forall|i: int| 0 <= i < s.len() - 1 implies adjacent(#[trigger] s[i], s[i + 1], false) by {
            if i == 0 {
                assert(s[1] == t[0]);
            } else {
                assert(s[i] == t[i - 1]);
                assert(s[i + 1] == t[i]);
            }
        }
        assert forall|i: int| 0 <= i < s.len() implies between(#[trigger] s[i].0 as int, a.0 as int, b.0 as int)
            && between(s[i].1 as int, a.1 as int, b.1 as int) by {
            if i > 0 {
                assert(s[i] == t[i - 1]);
            }
        }
    }
}

/// In a room where every cell of the box spanned by `start` and `goal` may
/// be occupied, a shortest side-move route holds exactly 1 + Manhattan
/// distance cells.
pub proof fn lemma_open_box_route_length(
    env: &Environment,
    path: Seq<(usize, usize)>,
    start: (usize, usize),
    goal: (usize, usize),
)
    requires
        is_route(env, path, start, goal, false),
        forall|q: Seq<(usize, usize)>| #[trigger] is_route(env, q, start, goal, false) ==> path.len() <= q.len(),
        forall|x: int, y: int|
            between(x, start.0 as int, goal.0 as int) && between(y, start.1 as int, goal.1 as int) ==> #[trigger] env.valid(x, y),
    ensures
        path.len() == 1 + manhattan(start, goal),
{
    lemma_staircase(start, goal);
    let q = staircase(start, goal);
    assert forall|k: int| 0 <= k < q.len() implies env.valid(#[trigger] q[k].0 as int, q[k].1 as int) by {
        assert(between(q[k].0 as int, start.0 as int, goal.0 as int));
    }
    assert(is_route(env, q, start, goal, false));
    lemma_cardinal_route_length(env, path, start, goal);
}

/// Whether `q` is the cell at offset (`dx`, `dy`) from `pos`.
pub open spec fn at_offset(q: (usize, usize), pos: (usize, usize), dx: int, dy: int) -> bool {
    q.0 as int == pos.0 as int + dx && q.1 as int == pos.1 as int + dy
}

/// The cell at offset (`dx`, `dy`) from `pos` as a one-cell sequence when a
/// robot may occupy it, otherwise the empty sequence.
pub open spec fn kept(env: &Environment, pos: (usize, usize), dx: int, dy: int) -> Seq<(usize, usize)> {
    if env.valid(pos.0 + dx, pos.1 + dy) {
        seq![((pos.0 + dx) as usize, (pos.1 + dy) as usize)]
    } else {
        Seq::empty()
    }
}

/// The neighbours of `pos` in the order the search visits them: the side
/// moves (0, 1), (1, 0), (0, -1), (-1, 0), then, with `diagonal`, the corner
/// moves (1, 1), (1, -1), (-1, 1), (-1, -1); cells a robot may not occupy
/// are left out.
pub open spec fn neighbor_seq(env: &Environment, pos: (usize, usize), diagonal: bool) -> Seq<(usize, usize)> {
    let sides = kept(env, pos, 0, 1) + kept(env, pos, 1, 0) + kept(env, pos, 0, -1) + kept(
        env,
        pos,
        -1,
        0,
    );
    if diagonal {
        sides + kept(env, pos, 1, 1) + kept(env, pos, 1, -1) + kept(env, pos, -1, 1) + kept(
            env,
            pos,
            -1,
            -1,
        )
    } else {
        sides
    }
}

/// `v + d`, when it is a `usize`.
fn shift(v: usize, d: i8) -> (r: Option<usize>)
    requires
        -1 <= d <= 1,
    ensures
        0 <= v + d <= usize::MAX ==> r == Some((v + d) as usize),
        !(0 <= v + d <= usize::MAX) ==> r.is_none(),
{
    if d > 0 {
        if v < usize::MAX {
            Some(v + 1)
        } else {
            None
        }
    } else if d < 0 {
        if v > 0 {
            Some(v - 1)
        } else {
            None
        }
    } else {
        Some(v)
    }
}

/// Index of the first entry with the lowest estimated total cost.
fn lowest_entry(open: &Vec<(u128, u128, usize)>) -> (k: usize)
    requires
        open.len() > 0,
    ensures
        k < open.len(),
        forall|j: int| 0 <= j < open.len() ==> open[k as int].0 <= #[trigger] open[j].0,
        forall|j: int| 0 <= j < k ==> open[k as int].0 < #[trigger] open[j].0,
{
    let mut k: usize = 0;
    let mut j: usize = 1;
    while j < open.len()
        invariant
            0 < j <= open.len(),
            k < j,
            forall|i: int| 0 <= i < j ==> open[k as int].0 <= #[trigger] open[i].0,
            forall|i: int| 0 <= i < k ==> open[k as int].0 < #[trigger] open[i].0,
        decreases open.len() - j,
    {
        if open[j].0 < open[k].0 {
            k = j;
        }
        j = j + 1;
    }
    k
}

/// A* search over the cells of one environment.
pub struct AStarPlanner<'a> {
    environment: &'a Environment,
}

impl<'a> AStarPlanner<'a> {
    pub closed spec fn env(&self) -> &'a Environment {
        self.environment
    }

    pub fn new(environment: &'a Environment) -> (p: AStarPlanner<'a>)
        ensures
            p.env() == environment,
    {
        AStarPlanner { environment }
    }

    /// Manhattan distance between two cells, in cells.
    pub fn heuristic(&self, pos1: (usize, usize), pos2: (usize, usize)) -> (r: u128)
        ensures
            r == manhattan(pos1, pos2),
            r <= 2 * (usize::MAX as int),
    {
        let dx: u128 = if pos1.0 >= pos2.0 {
            (pos1.0 - pos2.0) as u128
        } else {
            (pos2.0 - pos1.0) as u128
        };
        let dy: u128 = if pos1.1 >= pos2.1 {
            (pos1.1 - pos2.1) as u128
        } else {
            (pos2.1 - pos1.1) as u128
        };
        dx + dy
    }

    /// The heuristic in cost units: 1000 per cell of Manhattan distance.
    fn estimate(&self, pos: (usize, usize), goal: (usize, usize)) -> (r: u128)
        ensures
            r == CARDINAL_COST * manhattan(pos, goal),
    {
        let h = self.heuristic(pos, goal);
        assert(h * 1000 <= 1000 * (2 * (usize::MAX as int))) by (nonlinear_arith)
            requires h <= 2 * (usize::MAX as int);
        h * 1000
    }

    /// Appends `pos + (dx, dy)` to `out` when that cell may be occupied.
    fn push_if_valid(&self, out: &mut Vec<(usize, usize)>, pos: (usize, usize), dx: i8, dy: i8)
        requires
            self.env().wf(),
            -1 <= dx <= 1,
            -1 <= dy <= 1,
        ensures
            final(out)@ == old(out)@ + kept(self.env(), pos, dx as int, dy as int),
            forall|q: (usize, usize)|
                final(out)@.contains(q) <==> (old(out)@.contains(q) || (at_offset(
                    q,
                    pos,
                    dx as int,
                    dy as int,
                ) && self.env().valid(q.0 as int, q.1 as int))),
    {
        let ghost before = out@;
        let ghost ks = kept(self.env(), pos, dx as int, dy as int);
        let sx = shift(pos.0, dx);
        let sy = shift(pos.1, dy);
        if let (Some(nx), Some(ny)) = (sx, sy) {
            if self.environment.is_valid_position(nx, ny) {
                out.push((nx, ny));
            }
        }
        assert(out@ =~= before + ks);
        assert forall|q: (usize, usize)|
            out@.contains(q) <==> (before.contains(q) || (at_offset(q, pos, dx as int, dy as int)
                && self.env().valid(q.0 as int, q.1 as int))) by {
            if out@.contains(q) && !before.contains(q) {
                let k = choose|k: int| 0 <= k < out@.len() && out@[k] == q;
                if k < before.len() {
                    assert(before[k] == q);
                }
                assert(ks[k - before.len()] == q);
            }
            if before.contains(q) {
                let k = choose|k: int| 0 <= k < before.len() && before[k] == q;
                assert(out@[k] == q);
            }
            if at_offset(q, pos, dx as int, dy as int) && self.env().valid(q.0 as int, q.1 as int) {
                assert(ks[0] == q);
                assert(out@[before.len() as int] == q);
            }
        }
        assert(before == old(out)@);
        assert(forall|q: (usize, usize)|
            out@.contains(q) <==> (old(out)@.contains(q) || (at_offset(q, pos, dx as int, dy as int)
                && self.env().valid(q.0 as int, q.1 as int))));
    }

    /// The cells one move away from `pos` that a robot may occupy: the side
    /// neighbours, and the corner neighbours too when `diagonal` holds.
    pub fn get_neighbors(&self, pos: (usize, usize), diagonal: bool) -> (r: Vec<(usize, usize)>)
        requires
            self.env().wf(),
        ensures
            r@ == neighbor_seq(self.env(), pos, diagonal),
            forall|q: (usize, usize)|
                r@.contains(q) <==> (self.env().valid(q.0 as int, q.1 as int) && adjacent(
                    pos,
                    q,
                    diagonal,
                )),
    {
        let mut out: Vec<(usize, usize)> = Vec::new();
        self.push_if_valid(&mut out, pos, 0, 1);
        self.push_if_valid(&mut out, pos, 1, 0);
        self.push_if_valid(&mut out, pos, 0, -1);
        self.push_if_valid(&mut out, pos, -1, 0);
        if diagonal {
            self.push_if_valid(&mut out, pos, 1, 1);
            self.push_if_valid(&mut out, pos, 1, -1);
            self.push_if_valid(&mut out, pos, -1, 1);
            self.push_if_valid(&mut out, pos, -1, -1);
        }
        out
    }

    /// The cell at flat index `i` of the environment's grid.
    pub open spec fn cell_of(&self, i: int) -> (usize, usize) {
        ((i % self.env().width as int) as usize, (i / self.env().width as int) as usize)
    }

    /// The search state that every step of `find_path` keeps: each reached cell
    /// may be occupied, each parent link is one move from an expanded cell
    /// expanded earlier, and only `start` is reached without a parent.
    pub open spec fn search_state(
        &self,
        n: int,
        start_idx: int,
        diagonal: bool,
        best_g: Seq<Option<u128>>,
        parent: Seq<Option<usize>>,
        closed: Seq<bool>,
        closed_set: Set<int>,
        rank: Seq<int>,
    ) -> bool {
        &&& best_g.len() == n
        &&& parent.len() == n
        &&& closed.len() == n
        &&& rank.len() == n
        &&& 0 <= start_idx < n
        &&& best_g[start_idx] is Some
        &&& closed_set.subset_of(vstd::set_lib::set_int_range(0, n))
        &&& forall|i: int| 0 <= i < n ==> (#[trigger] closed[i] <==> closed_set.contains(i))
        &&& forall|i: int| 0 <= i < n && closed[i] ==> 0 <= #[trigger] rank[i] < closed_set.len()
        &&& forall|i: int| 0 <= i < n && closed[i] ==> #[trigger] best_g[i] is Some
        &&& forall|i: int|
            0 <= i < n && #[trigger] best_g[i] is Some ==> self.env().valid(
                self.cell_of(i).0 as int,
                self.cell_of(i).1 as int,
            )
        &&& forall|i: int|
            0 <= i < n && #[trigger] parent[i] is None && best_g[i] is Some ==> i == start_idx
        &&& forall|i: int|
            0 <= i < n && #[trigger] parent[i] is Some ==> {
                let p = parent[i]->0 as int;
                &&& 0 <= p < n
                &&& best_g[i] is Some
                &&& closed[p]
                &&& adjacent(self.cell_of(p), self.cell_of(i), diagonal)
                &&& (closed[i] ==> rank[p] < rank[i])
            }
    }

    /// Every cell one move away from an expanded cell (other than `skip`)
    /// has been reached.
    pub open spec fn frontier_reached(
        &self,
        n: int,
        diagonal: bool,
        best_g: Seq<Option<u128>>,
        closed: Seq<bool>,
        skip: int,
    ) -> bool {
        forall|i: int, j: int|
            0 <= i < n && 0 <= j < n && i != skip && #[trigger] closed[i] && self.env().valid(
                self.cell_of(j).0 as int,
                self.cell_of(j).1 as int,
            ) && #[trigger] adjacent(self.cell_of(i), self.cell_of(j), diagonal) ==> best_g[j] is Some
    }

    /// The heuristic of the cell at flat index `i`, in cost units.
    pub open spec fn h_of(&self, i: int, goal: (usize, usize)) -> int {
        CARDINAL_COST * manhattan(self.cell_of(i), goal)
    }

    /// Cost bookkeeping of the side-move search: the start costs 0; costs stay
    /// below 1000 per expanded cell; each open entry carries its total
    /// estimate and a cost no lower than the best known; each reached cell
    /// waiting for expansion has an entry at its best cost; a parent link is
    /// one step of 1000; and a cell next to an expanded one costs at most one
    /// step more.
    pub open spec fn cost_state(
        &self,
        n: int,
        start_idx: int,
        goal: (usize, usize),
        best_g: Seq<Option<u128>>,
        parent: Seq<Option<usize>>,
        closed: Seq<bool>,
        expanded: int,
        open: Seq<(u128, u128, usize)>,
    ) -> bool {
        &&& best_g[start_idx] == Some(0u128)
        &&& forall|i: int| 0 <= i < n && #[trigger] best_g[i] is Some ==> best_g[i]->0 <= 1000 * expanded
        &&& forall|e: int|
            0 <= e < open.len() ==> {
                &&& (#[trigger] open[e]).1 <= 1000 * expanded
                &&& open[e].0 == open[e].1 + self.h_of(open[e].2 as int, goal)
                &&& best_g[open[e].2 as int]->0 <= open[e].1
            }
        &&& forall|i: int|
            0 <= i < n && #[trigger] best_g[i] is Some && !closed[i] ==> exists|e: int|
                0 <= e < open.len() && (#[trigger] open[e]).2 == i && open[e].1 == best_g[i]->0
        &&& forall|i: int|
            0 <= i < n && #[trigger] parent[i] is Some ==> best_g[i]->0 == best_g[parent[i]->0 as int]->0
                + 1000
    }

    /// A cell next to an expanded cell (other than `skip`), and not expanded
    /// itself, costs at most one step more than that cell.
    pub open spec fn relaxed(&self, n: int, best_g: Seq<Option<u128>>, closed: Seq<bool>, skip: int) -> bool {
        forall|u: int, v: int|
            0 <= u < n && 0 <= v < n && u != skip && #[trigger] closed[u] && !closed[v] && self.env().valid(
                self.cell_of(v).0 as int,
                self.cell_of(v).1 as int,
            ) && #[trigger] adjacent(self.cell_of(u), self.cell_of(v), false) ==> best_g[v] is Some
                && best_g[v]->0 <= best_g[u]->0 + 1000
    }

    /// Every expanded cell was reached at the cost of a shortest side-move route.
    pub open spec fn optimal_closed(
        &self,
        n: int,
        start: (usize, usize),
        best_g: Seq<Option<u128>>,
        closed: Seq<bool>,
    ) -> bool {
        forall|p: Seq<(usize, usize)>, i: int|
            0 <= i < n && closed[i] && #[trigger] is_route(self.env(), p, start, self.cell_of(i), false)
                ==> best_g[i]->0 <= 1000 * (p.len() - 1)
    }

    /// When the cheapest open entry is for a cell not yet expanded, that
    /// cell's best cost is no more than the cost of any side-move route to it.
    proof fn lemma_pop_bound(
        &self,
        p: Seq<(usize, usize)>,
        n: int,
        start: (usize, usize),
        start_idx: int,
        goal: (usize, usize),
        best_g: Seq<Option<u128>>,
        parent: Seq<Option<usize>>,
        closed: Seq<bool>,
        expanded: int,
        queued: Seq<(u128, u128, usize)>,
        k: int,
        cur: int,
    )
        requires
            self.env().wf(),
            n == self.env().width * self.env().height,
            best_g.len() == n,
            closed.len() == n,
            0 <= start_idx < n,
            self.cell_of(start_idx) == start,
            0 <= cur < n,
            !closed[cur],
            0 <= k < queued.len(),
            queued[k].2 == cur,
            forall|j: int| 0 <= j < queued.len() ==> queued[k].0 <= #[trigger] queued[j].0,
            forall|i: int| 0 <= i < n && closed[i] ==> #[trigger] best_g[i] is Some,
            self.cost_state(n, start_idx, goal, best_g, parent, closed, expanded, queued),
            self.relaxed(n, best_g, closed, -1),
            self.optimal_closed(n, start, best_g, closed),
            best_g[cur] is Some,
            queued[k].1 == best_g[cur]->0,
            is_route(self.env(), p, start, self.cell_of(cur), false),
        ensures
            best_g[cur]->0 <= 1000 * (p.len() - 1),
    {
        let w = self.env().width as int;
        let h = self.env().height as int;
        let len = p.len() as int;
        self.lemma_cell_of_flat(cur);
        self.lemma_cell_of_flat(start_idx);
        assert forall|i: int| 0 <= i < len implies 0 <= #[trigger] flat_index(p[i].0 as int, p[i].1 as int, w) < n
            && self.cell_of(flat_index(p[i].0 as int, p[i].1 as int, w)) == p[i] by {
            assert(self.env().valid(p[i].0 as int, p[i].1 as int));
            lemma_flat_index_bound(p[i].0 as int, p[i].1 as int, w, h);
            lemma_flat_index_inverse(p[i].0 as int, p[i].1 as int, w);
        }
        assert(flat_index(p.last().0 as int, p.last().1 as int, w) == cur);
        let m = self.lemma_first_unclosed(p, closed, 0);
        let vm = flat_index(p[m].0 as int, p[m].1 as int, w);
        assert(0 <= vm < n);
        assert(self.env().valid(p[m].0 as int, p[m].1 as int));
        if m == 0 {
            assert(vm == start_idx);
        } else {
            let u = flat_index(p[m - 1].0 as int, p[m - 1].1 as int, w);
            assert(0 <= u < n);
            assert(closed[u]);
            let prefix = p.subrange(0, m);
            assert(prefix.last() == p[m - 1]);
            assert forall|i: int| 0 <= i < prefix.len() - 1 implies adjacent(#[trigger] prefix[i], prefix[i + 1], false) by {
                assert(adjacent(p[i], p[i + 1], false));
            }
            assert forall|i: int| 0 <= i < prefix.len() implies self.env().valid(#[trigger] prefix[i].0 as int, prefix[i].1 as int) by {
                assert(self.env().valid(p[i].0 as int, p[i].1 as int));
            }
            assert(is_route(self.env(), prefix, start, self.cell_of(u), false));
            assert(best_g[u]->0 <= 1000 * (prefix.len() - 1));
            assert(adjacent(p[m - 1], p[m], false));
            assert(adjacent(self.cell_of(u), self.cell_of(vm), false));
            assert(best_g[vm] is Some && best_g[vm]->0 <= best_g[u]->0 + 1000);
        }
        assert(best_g[vm] is Some);
        assert(best_g[vm]->0 <= 1000 * m);
        let e2 = choose|e: int| 0 <= e < queued.len() && (#[trigger] queued[e]).2 == vm && queued[e].1 == best_g[vm]->0;
        assert(queued[k].0 <= queued[e2].0);
        lemma_segment_distance(p, m, len - 1);
        assert(manhattan(p[m], goal) <= manhattan(p[m], p[len - 1]) + manhattan(p[len - 1], goal));
        assert(self.h_of(vm, goal) <= 1000 * (len - 1 - m) + self.h_of(cur, goal));
    }

    /// The first cell of a route that is not expanded, when its last is not.
    proof fn lemma_first_unclosed(&self, p: Seq<(usize, usize)>, closed: Seq<bool>, k: int) -> (m: int)
        requires
            0 <= k < p.len(),
            forall|i: int| 0 <= i < k ==> closed[flat_index(#[trigger] p[i].0 as int, p[i].1 as int, self.env().width as int)],
            !closed[flat_index(p.last().0 as int, p.last().1 as int, self.env().width as int)],
        ensures
            k <= m < p.len(),
            !closed[flat_index(p[m].0 as int, p[m].1 as int, self.env().width as int)],
            forall|i: int| 0 <= i < m ==> closed[flat_index(#[trigger] p[i].0 as int, p[i].1 as int, self.env().width as int)],
        decreases p.len() - k,
    {
        if !closed[flat_index(p[k].0 as int, p[k].1 as int, self.env().width as int)] {
            k
        } else {
            self.lemma_first_unclosed(p, closed, k + 1)
        }
    }

    /// Every reached cell that is not yet expanded has an entry in `open`.
    pub open spec fn all_queued(
        n: int,
        best_g: Seq<Option<u128>>,
        closed: Seq<bool>,
        open: Seq<(u128, u128, usize)>,
    ) -> bool {
        forall|i: int|
            0 <= i < n && #[trigger] best_g[i] is Some && !closed[i] ==> exists|e: int|
                0 <= e < open.len() && (#[trigger] open[e]).2 == i
    }

    /// A flat index names the cell whose flat index it is.
    proof fn lemma_cell_of_flat(&self, j: int)
        requires
            self.env().wf(),
            0 <= j < self.env().width * self.env().height,
        ensures
            flat_index(self.cell_of(j).0 as int, self.cell_of(j).1 as int, self.env().width as int) == j,
            self.env().in_bounds(self.cell_of(j).0 as int, self.cell_of(j).1 as int),
    {
        let w = self.env().width as int;
        let h = self.env().height as int;
        assert(w > 0) by (nonlinear_arith)
            requires 0 <= j < w * h, 0 <= h;
        vstd::arithmetic::div_mod::lemma_fundamental_div_mod(j, w);
        vstd::arithmetic::div_mod::lemma_mod_bound(j, w);
        vstd::arithmetic::div_mod::lemma_div_pos_is_pos(j, w);
        assert(j / w < h) by (nonlinear_arith)
            requires
                j == w * (j / w) + j % w,
                0 <= j % w,
                j < w * h,
                w > 0;
        assert(flat_index(j % w, j / w, w) == j) by (nonlinear_arith)
            requires j == w * (j / w) + j % w;
    }

    /// Once every reached cell is expanded and every neighbour of an expanded
    /// cell is reached, each cell of a route from a reached cell is reached.
    proof fn lemma_route_prefix_reached(
        &self,
        path: Seq<(usize, usize)>,
        k: int,
        n: int,
        diagonal: bool,
        best_g: Seq<Option<u128>>,
        closed: Seq<bool>,
    )
        requires
            self.env().wf(),
            n == self.env().width * self.env().height,
            best_g.len() == n,
            closed.len() == n,
            0 <= k < path.len(),
            is_route(self.env(), path, path[0], path.last(), diagonal),
            best_g[flat_index(path[0].0 as int, path[0].1 as int, self.env().width as int)] is Some,
            forall|i: int| 0 <= i < n && #[trigger] best_g[i] is Some ==> closed[i],
            self.frontier_reached(n, diagonal, best_g, closed, -1),
        ensures
            best_g[flat_index(path[k].0 as int, path[k].1 as int, self.env().width as int)] is Some,
        decreases k,
    {
        if k > 0 {
            self.lemma_route_prefix_reached(path, k - 1, n, diagonal, best_g, closed);
            let w = self.env().width as int;
            let h = self.env().height as int;
            let a = path[k - 1];
            let b = path[k];
            assert(self.env().valid(a.0 as int, a.1 as int));
            assert(self.env().valid(b.0 as int, b.1 as int));
            lemma_flat_index_bound(a.0 as int, a.1 as int, w, h);
            lemma_flat_index_bound(b.0 as int, b.1 as int, w, h);
            lemma_flat_index_inverse(a.0 as int, a.1 as int, w);
            lemma_flat_index_inverse(b.0 as int, b.1 as int, w);
            let i = flat_index(a.0 as int, a.1 as int, w);
            let j = flat_index(b.0 as int, b.1 as int, w);
            assert(self.cell_of(i) == a);
            assert(self.cell_of(j) == b);
            assert(adjacent(path[k - 1], path[k], diagonal));
            assert(closed[i]);
            assert(adjacent(self.cell_of(i), self.cell_of(j), diagonal));
        }
    }

    /// A route from `start` to `goal`, or `None`.
    ///
    /// Returns `None` at once when either endpoint is outside the room or on an
    /// `Obstacle` or `Cliff` cell. A returned route starts at `start`, ends at
    /// `goal`, stays on cells a robot may occupy and makes one move per step
    /// (side moves only, unless `diagonal` holds).
    pub fn find_path(&self, start: (usize, usize), goal: (usize, usize), diagonal: bool) -> (r:
        Option<Vec<(usize, usize)>>)
        requires
            self.env().wf(),
        ensures
            !(self.env().valid(start.0 as int, start.1 as int) && self.env().valid(
                goal.0 as int,
                goal.1 as int,
            )) ==> r is None,
            r matches Some(path) ==> is_route(self.env(), path@, start, goal, diagonal),
            r matches Some(path) ==> path@.no_duplicates(),
            r matches Some(path) ==> (!diagonal ==> forall|q: Seq<(usize, usize)>|
                is_route(self.env(), q, start, goal, false) ==> path@.len() <= q.len()),
            forall|path: Seq<(usize, usize)>|
                is_route(self.env(), path, start, goal, diagonal) ==> r is Some,
    {
        let env = self.environment;
        if !env.is_valid_position(start.0, start.1) || !env.is_valid_position(goal.0, goal.1) {
            return None;
        }
        let width = env.width;
        let height = env.height;
        proof {
            lemma_flat_index_bound(start.0 as int, start.1 as int, width as int, height as int);
            lemma_flat_index_bound(goal.0 as int, goal.1 as int, width as int, height as int);
            lemma_flat_index_inverse(start.0 as int, start.1 as int, width as int);
            lemma_flat_index_inverse(goal.0 as int, goal.1 as int, width as int);
        }
        let n = width * height;
        let start_idx = start.1 * width + start.0;
        let goal_idx = goal.1 * width + goal.0;
        let mut best_g: Vec<Option<u128>> = vec![None; n];
        let mut parent: Vec<Option<usize>> = vec![None; n];
        let mut closed: Vec<bool> = vec![false; n];
        let mut open: Vec<(u128, u128, usize)> = Vec::new();
        let ghost mut closed_set: Set<int> = Set::empty();
        let ghost mut rank: Seq<int> = Seq::new(n as nat, |i: int| 0);
        best_g.set(start_idx, Some(0));
        open.push((self.estimate(start, goal), 0, start_idx));
        proof {
            vstd::set_lib::lemma_int_range(0, n as int);
            assert forall|i: int|
                0 <= i < n && #[trigger] best_g@[i] is Some && !closed@[i] implies exists|e: int|
                    0 <= e < open.len() && (#[trigger] open@[e]).2 == i by {
                assert(open@[0].2 == i);
            }
            assert(n <= isize::MAX);
            assert(self.cell_of(start_idx as int) == start);
            assert(forall|i: int| 0 <= i < n ==> #[trigger] parent@[i] is None);
            assert(forall|i: int| 0 <= i < n ==> !#[trigger] closed@[i]);
            assert forall|i: int|
                0 <= i < n && #[trigger] best_g@[i] is Some && !closed@[i] implies exists|e: int|
                    0 <= e < open.len() && (#[trigger] open@[e]).2 == i && open@[e].1 == best_g@[i]->0 by {
                assert(open@[0].2 == i);
            }
        }
        while open.len() > 0
            invariant
                env == self.env(),
                env.wf(),
                width == env.width,
                height == env.height,
                n == width * height,
                start_idx == flat_index(start.0 as int, start.1 as int, width as int),
                goal_idx == flat_index(goal.0 as int, goal.1 as int, width as int),
                start_idx < n,
                goal_idx < n,
                self.cell_of(start_idx as int) == start,
                self.cell_of(goal_idx as int) == goal,
                vstd::set_lib::set_int_range(0, n as int).finite(),
                vstd::set_lib::set_int_range(0, n as int).len() == n,
                self.search_state(
                    n as int,
                    start_idx as int,
                    diagonal,
                    best_g@,
                    parent@,
                    closed@,
                    closed_set,
                    rank,
                ),
                forall|e: int|
                    0 <= e < open.len() ==> (#[trigger] open[e]).2 < n && best_g@[open[e].2 as int] is Some,
                !closed@[goal_idx as int],
                self.frontier_reached(n as int, diagonal, best_g@, closed@, -1),
                Self::all_queued(n as int, best_g@, closed@, open@),
                n <= isize::MAX,
                !diagonal ==> self.cost_state(
                    n as int,
                    start_idx as int,
                    goal,
                    best_g@,
                    parent@,
                    closed@,
                    closed_set.len() as int,
                    open@,
                ),
                !diagonal ==> self.relaxed(n as int, best_g@, closed@, -1),
                !diagonal ==> self.optimal_closed(n as int, start, best_g@, closed@),
            decreases n - closed_set.len(), open.len(),
        {
            proof {
                vstd::set_lib::lemma_len_subset(closed_set, vstd::set_lib::set_int_range(0, n as int));
            }
            let k = lowest_entry(&open);
            let ghost queued = open@;
            let entry = open.remove(k);
            let g = entry.1;
            let cur = entry.2;
            assert(best_g@[cur as int] is Some);
            assert forall|i: int|
                0 <= i < n && #[trigger] best_g@[i] is Some && !closed@[i] && i != cur implies exists|e: int|
                    0 <= e < open.len() && (#[trigger] open@[e]).2 == i by {
                let e = choose|e: int| 0 <= e < queued.len() && (#[trigger] queued[e]).2 == i;
                if e < k {
                    assert(open@[e] == queued[e]);
                } else {
                    assert(open@[e - 1] == queued[e]);
                }
            }
            if !diagonal {
                assert forall|i: int|
                    0 <= i < n && #[trigger] best_g@[i] is Some && !closed@[i] && i != cur implies exists|e: int|
                        0 <= e < open.len() && (#[trigger] open@[e]).2 == i && open@[e].1 == best_g@[i]->0 by {
                    let e = choose|e: int|
                        0 <= e < queued.len() && (#[trigger] queued[e]).2 == i && queued[e].1 == best_g@[i]->0;
                    if e < k {
                        assert(open@[e] == queued[e]);
                    } else {
                        assert(open@[e - 1] == queued[e]);
                    }
                }
                assert forall|e: int| 0 <= e < open.len() implies queued.contains(#[trigger] open@[e]) by {
                    if e < k {
                        assert(open@[e] == queued[e]);
                    } else {
                        assert(open@[e] == queued[e + 1]);
                    }
                }
            }
            if closed[cur] {
                continue;
            }
            proof {
                if !diagonal {
                    let b = best_g@[cur as int]->0;
                    let es = choose|e: int|
                        0 <= e < queued.len() && (#[trigger] queued[e]).2 == cur && queued[e].1 == b;
                    assert(queued[k as int].0 <= queued[es].0);
                    assert(g == b);
                    assert forall|p: Seq<(usize, usize)>|
                        is_route(self.env(), p, start, self.cell_of(cur as int), false) implies b <= 1000 * (
                        p.len() - 1) by {
                        self.lemma_pop_bound(
                            p,
                            n as int,
                            start,
                            start_idx as int,
                            goal,
                            best_g@,
                            parent@,
                            closed@,
                            closed_set.len() as int,
                            queued,
                            k as int,
                            cur as int,
                        );
                    }
                }
            }
            if cur == goal_idx {
                let path = self.trace_back(&parent, goal, goal_idx, start, start_idx, n, diagonal, Ghost(best_g@), Ghost(closed@), Ghost(closed_set), Ghost(rank));
                return Some(path);
            }
            proof {
                assert(!closed_set.contains(cur as int));
                assert(closed_set.insert(cur as int).subset_of(vstd::set_lib::set_int_range(0, n as int)));
                vstd::set_lib::lemma_len_subset(
                    closed_set.insert(cur as int),
                    vstd::set_lib::set_int_range(0, n as int),
                );
                rank = rank.update(cur as int, closed_set.len() as int);
                closed_set = closed_set.insert(cur as int);
            }
            closed.set(cur, true);
            let cx = cur % width;
            let cy = cur / width;
            let neighbors = self.get_neighbors((cx, cy), diagonal);
            let mut j: usize = 0;
            while j < neighbors.len()
                invariant
                    env == self.env(),
                    env.wf(),
                    width == env.width,
                    height == env.height,
                    n == width * height,
                    width > 0,
                    start_idx < n,
                    cur < n,
                    closed@[cur as int],
                    (cx, cy) == self.cell_of(cur as int),
                    vstd::set_lib::set_int_range(0, n as int).finite(),
                    vstd::set_lib::set_int_range(0, n as int).len() == n,
                    forall|q: (usize, usize)|
                        neighbors@.contains(q) ==> (env.valid(q.0 as int, q.1 as int) && adjacent(
                            (cx, cy),
                            q,
                            diagonal,
                        )),
                    self.search_state(
                        n as int,
                        start_idx as int,
                        diagonal,
                        best_g@,
                        parent@,
                        closed@,
                        closed_set,
                        rank,
                    ),
                    forall|e: int|
                        0 <= e < open.len() ==> (#[trigger] open[e]).2 < n && best_g@[open[e].2 as int] is Some,
                    forall|q: (usize, usize)|
                        env.valid(q.0 as int, q.1 as int) && adjacent((cx, cy), q, diagonal)
                            ==> neighbors@.contains(q),
                    !closed@[goal_idx as int],
                    goal_idx < n,
                    self.frontier_reached(n as int, diagonal, best_g@, closed@, cur as int),
                    Self::all_queued(n as int, best_g@, closed@, open@),
                    n <= isize::MAX,
                    closed_set.len() <= n,
                    !diagonal ==> self.cost_state(
                        n as int,
                        start_idx as int,
                        goal,
                        best_g@,
                        parent@,
                        closed@,
                        closed_set.len() as int,
                        open@,
                    ),
                    !diagonal ==> self.relaxed(n as int, best_g@, closed@, cur as int),
                    !diagonal ==> self.optimal_closed(n as int, start, best_g@, closed@),
                    !diagonal ==> best_g@[cur as int] == Some(g),
                    !diagonal ==> g + 1000 <= 1000 * closed_set.len(),
                    !diagonal ==> forall|m: int|
                        0 <= m < j ==> closed@[flat_index(
                            (#[trigger] neighbors@[m]).0 as int,
                            neighbors@[m].1 as int,
                            width as int,
                        )] || best_g@[flat_index(neighbors@[m].0 as int, neighbors@[m].1 as int, width as int)]->0
                            <= g + 1000,
                    j <= neighbors.len(),
                    forall|m: int|
                        0 <= m < j ==> best_g@[flat_index(
                            (#[trigger] neighbors@[m]).0 as int,
                            neighbors@[m].1 as int,
                            width as int,
                        )] is Some,
                decreases neighbors.len() - j,
            {
                let q = neighbors[j];
                assert(neighbors@.contains(q)) by {
                    assert(neighbors@[j as int] == q);
                }
                proof {
                    lemma_flat_index_bound(q.0 as int, q.1 as int, width as int, height as int);
                    lemma_flat_index_inverse(q.0 as int, q.1 as int, width as int);
                }
                let ni = q.1 * width + q.0;
                let ghost before_g = best_g@;
                let ghost before_parent = parent@;
                proof {
                    if !diagonal {
                        assert(adjacent((cx, cy), q, false));
                        assert(q.0 == cx || q.1 == cy);
                    }
                }
                if !closed[ni] {
                    let step_cost = if q.0 == cx || q.1 == cy {
                        CARDINAL_COST
                    } else {
                        DIAGONAL_COST
                    };
                    let ng = g.saturating_add(step_cost);
                    let improves = match best_g[ni] {
                        Some(known) => ng < known,
                        None => true,
                    };
                    if improves {
                        let f = ng.saturating_add(self.estimate(q, goal));
                        let ghost queued = open@;
                        best_g.set(ni, Some(ng));
                        assert(forall|x: int| 0 <= x < n && x != ni ==> best_g@[x] == before_g[x]);
                        parent.set(ni, Some(cur));
                        open.push((f, ng, ni));
                        assert forall|i: int|
                            0 <= i < n && #[trigger] best_g@[i] is Some && !closed@[i] implies exists|e: int|
                                0 <= e < open.len() && (#[trigger] open@[e]).2 == i by {
                            if i == ni {
                                assert(open@[queued.len() as int].2 == i);
                            } else {
                                let e = choose|e: int| 0 <= e < queued.len() && (#[trigger] queued[e]).2 == i;
                                assert(open@[e] == queued[e]);
                            }
                        }
                        proof {
                            if !diagonal {
                                assert(ng == g + 1000);
                                assert(f == ng + self.h_of(ni as int, goal));
                                assert forall|i: int|
                                    0 <= i < n && #[trigger] best_g@[i] is Some && !closed@[i] implies exists|e: int|
                                        0 <= e < open.len() && (#[trigger] open@[e]).2 == i && open@[e].1
                                            == best_g@[i]->0 by {
                                    if i == ni {
                                        assert(open@[queued.len() as int].2 == i);
                                    } else {
                                        let e = choose|e: int|
                                            0 <= e < queued.len() && (#[trigger] queued[e]).2 == i && queued[e].1
                                                == before_g[i]->0;
                                        assert(open@[e] == queued[e]);
                                    }
                                }
                                assert forall|e: int| 0 <= e < open.len() implies {
                                    &&& (#[trigger] open@[e]).1 <= 1000 * closed_set.len()
                                    &&& open@[e].0 == open@[e].1 + self.h_of(open@[e].2 as int, goal)
                                    &&& best_g@[open@[e].2 as int]->0 <= open@[e].1
                                } by {
                                    if e < queued.len() {
                                        assert(open@[e] == queued[e]);
                                    }
                                }
                                assert forall|i: int| 0 <= i < n && #[trigger] parent@[i] is Some implies best_g@[i]->0
                                    == best_g@[parent@[i]->0 as int]->0 + 1000 by {
                                    if i != ni {
                                        assert(parent@[i] == before_parent[i]);
                                        let pp = before_parent[i]->0 as int;
                                        assert(closed@[pp]);
                                    }
                                }
                            }
                        }
                    }
                }
                assert(best_g@[ni as int] is Some);
                assert(forall|x: int| 0 <= x < n && x != ni ==> best_g@[x] == before_g[x]);
                proof {
                    if !diagonal {
                        assert(closed@[ni as int] || best_g@[ni as int]->0 <= g + 1000);
                        assert forall|m: int| 0 <= m < j + 1 implies closed@[flat_index(
                            (#[trigger] neighbors@[m]).0 as int,
                            neighbors@[m].1 as int,
                            width as int,
                        )] || best_g@[flat_index(neighbors@[m].0 as int, neighbors@[m].1 as int, width as int)]->0
                            <= g + 1000 by {
                            if m < j {
                                let qm = neighbors@[m];
                                assert(neighbors@.contains(qm));
                                lemma_flat_index_bound(qm.0 as int, qm.1 as int, width as int, height as int);
                            }
                        }
                    }
                }
                assert(ni as int == flat_index(neighbors@[j as int].0 as int, neighbors@[j as int].1 as int, width as int));
                assert forall|m: int| 0 <= m < j + 1 implies best_g@[flat_index(
                    (#[trigger] neighbors@[m]).0 as int,
                    neighbors@[m].1 as int,
                    width as int,
                )] is Some by {
                    if m < j {
                        let qm = neighbors@[m];
                        assert(neighbors@.contains(qm));
                        lemma_flat_index_bound(qm.0 as int, qm.1 as int, width as int, height as int);
                        assert(before_g[flat_index(qm.0 as int, qm.1 as int, width as int)] is Some);
                    }
                }
                j = j + 1;
            }
            proof {
                assert forall|i: int, jj: int|
                    0 <= i < n && 0 <= jj < n && i != -1 && #[trigger] closed@[i] && env.valid(
                        self.cell_of(jj).0 as int,
                        self.cell_of(jj).1 as int,
                    ) && #[trigger] adjacent(self.cell_of(i), self.cell_of(jj), diagonal) implies best_g@[jj] is Some by {
                    if i == cur {
                        let q = self.cell_of(jj);
                        assert(neighbors@.contains(q));
                        let m = choose|m: int| 0 <= m < neighbors@.len() && neighbors@[m] == q;
                        self.lemma_cell_of_flat(jj);
                    }
                }
                if !diagonal {
                    assert forall|u: int, v: int|
                        0 <= u < n && 0 <= v < n && u != -1 && #[trigger] closed@[u] && !closed@[v] && env.valid(
                            self.cell_of(v).0 as int,
                            self.cell_of(v).1 as int,
                        ) && #[trigger] adjacent(self.cell_of(u), self.cell_of(v), false) implies best_g@[v] is Some
                            && best_g@[v]->0 <= best_g@[u]->0 + 1000 by {
                        if u == cur {
                            let q = self.cell_of(v);
                            assert(adjacent((cx, cy), q, diagonal));
                            assert(neighbors@.contains(q));
                            let m = choose|m: int| 0 <= m < neighbors@.len() && neighbors@[m] == q;
                            self.lemma_cell_of_flat(v);
                            assert(flat_index(neighbors@[m].0 as int, neighbors@[m].1 as int, width as int) == v);
                        }
                        assert(adjacent(self.cell_of(u), self.cell_of(v), diagonal));
                    }
                }
            }
        }
        proof {
            assert forall|path: Seq<(usize, usize)>|
                !is_route(self.env(), path, start, goal, diagonal) by {
                if is_route(self.env(), path, start, goal, diagonal) {
                    self.lemma_route_prefix_reached(
                        path,
                        path.len() - 1,
                        n as int,
                        diagonal,
                        best_g@,
                        closed@,
                    );
                }
            }
        }
        None
    }

    /// Follows parent links back from the goal and lists the cells from start to goal.
    fn trace_back(
        &self,
        parent: &Vec<Option<usize>>,
        goal: (usize, usize),
        goal_idx: usize,
        start: (usize, usize),
        start_idx: usize,
        n: usize,
        diagonal: bool,
        best_g: Ghost<Seq<Option<u128>>>,
        closed: Ghost<Seq<bool>>,
        closed_set: Ghost<Set<int>>,
        rank: Ghost<Seq<int>>,
    ) -> (path: Vec<(usize, usize)>)
        requires
            self.env().wf(),
            n == self.env().width * self.env().height,
            goal_idx < n,
            self.cell_of(goal_idx as int) == goal,
            self.cell_of(start_idx as int) == start,
            best_g@[goal_idx as int] is Some,
            !closed@[goal_idx as int],
            self.search_state(
                n as int,
                start_idx as int,
                diagonal,
                best_g@,
                parent@,
                closed@,
                closed_set@,
                rank@,
            ),
            !diagonal ==> best_g@[start_idx as int] == Some(0u128),
            !diagonal ==> forall|i: int|
                0 <= i < n && #[trigger] parent@[i] is Some ==> best_g@[i]->0 == best_g@[parent@[i]->0 as int]->0
                    + 1000,
        ensures
            is_route(self.env(), path@, start, goal, diagonal),
            path@.no_duplicates(),
            !diagonal ==> 1000 * (path@.len() - 1) == best_g@[goal_idx as int]->0,
    {
        let width = self.environment.width;
        let mut path: Vec<(usize, usize)> = vec![goal];
        let mut pos = goal_idx;
        let ghost mut idxs: Seq<int> = seq![goal_idx as int];
        proof {
            assert(self.env().valid(goal.0 as int, goal.1 as int));
        }
        while parent[pos].is_some()
            invariant
                self.env().wf(),
                width == self.env().width,
                n == self.env().width * self.env().height,
                pos < n,
                best_g@[pos as int] is Some,
                self.search_state(
                    n as int,
                    start_idx as int,
                    diagonal,
                    best_g@,
                    parent@,
                    closed@,
                    closed_set@,
                    rank@,
                ),
                pos == goal_idx || closed@[pos as int],
                !closed@[goal_idx as int],
                path@.len() >= 1,
                path@[0] == self.cell_of(pos as int),
                path@.last() == goal,
                forall|k: int|
                    0 <= k < path@.len() ==> self.env().valid(#[trigger] path@[k].0 as int, path@[k].1 as int),
                forall|k: int| 0 <= k < path@.len() - 1 ==> adjacent(#[trigger] path@[k], path@[k + 1], diagonal),
                idxs.len() == path@.len(),
                idxs[0] == pos,
                !diagonal ==> best_g@[start_idx as int] == Some(0u128),
                !diagonal ==> forall|i: int|
                    0 <= i < n && #[trigger] parent@[i] is Some ==> best_g@[i]->0 == best_g@[parent@[i]->0 as int]->0
                        + 1000,
                !diagonal ==> 1000 * (path@.len() - 1) + best_g@[pos as int]->0 == best_g@[goal_idx as int]->0,
                forall|k: int| 0 <= k < idxs.len() ==> 0 <= #[trigger] idxs[k] < n && path@[k] == self.cell_of(idxs[k]),
                forall|k: int, l: int|
                    0 <= k < l < idxs.len() ==> chain_rank(closed@, rank@, closed_set@.len() as int, #[trigger] idxs[k])
                        < chain_rank(closed@, rank@, closed_set@.len() as int, #[trigger] idxs[l]),
            decreases chain_rank(closed@, rank@, closed_set@.len() as int, pos as int),
        {
            let p = parent[pos].unwrap();
            let ghost old_path = path@;
            proof {
                assert(closed@[p as int]);
                assert(best_g@[p as int] is Some);
                assert(width > 0) by (nonlinear_arith)
                    requires pos < n, n == width * self.env().height;
            }
            path.insert(0, (p % width, p / width));
            assert forall|k: int| 0 <= k < path@.len() - 1 implies adjacent(#[trigger] path@[k], path@[k + 1], diagonal) by {
                if k > 0 {
                    assert(path@[k] == old_path[k - 1]);
                    assert(path@[k + 1] == old_path[k]);
                }
            }
            assert forall|k: int| 0 <= k < path@.len() implies self.env().valid(#[trigger] path@[k].0 as int, path@[k].1 as int) by {
                if k > 0 {
                    assert(path@[k] == old_path[k - 1]);
                }
            }
            proof {
                let total = closed_set@.len() as int;
                assert(chain_rank(closed@, rank@, total, p as int) < chain_rank(closed@, rank@, total, pos as int));
                idxs = seq![p as int] + idxs;
            }
            pos = p;
        }
        proof {
            assert(pos == start_idx);
            assert forall|a: int, b: int|
                0 <= a < path@.len() && 0 <= b < path@.len() && a != b implies path@[a] != path@[b] by {
                let total = closed_set@.len() as int;
                if a < b {
                    assert(chain_rank(closed@, rank@, total, idxs[a]) < chain_rank(closed@, rank@, total, idxs[b]));
                } else {
                    assert(chain_rank(closed@, rank@, total, idxs[b]) < chain_rank(closed@, rank@, total, idxs[a]));
                }
                self.lemma_cell_of_flat(idxs[a]);
                self.lemma_cell_of_flat(idxs[b]);
            }
        }
        path
    }
}

} // verus!
