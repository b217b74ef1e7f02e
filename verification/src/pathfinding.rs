//! Grid coordinates, the dynamic obstacle set, and the A*-style
//! shortest-path search that drives keystroke-synchronized movement.

use vstd::prelude::*;

verus! {

use vstd::pervasive::VecAdditionalExecFns;

/// Width and height of the playable grid: the neighbor generator never
/// produces a coordinate outside `[0, GRID_BOUND)` on either axis.
pub const GRID_BOUND: i32 = 80;

/// Coordinates are kept well inside `i32` so that coordinate differences and
/// Manhattan distances can be computed without overflow.
pub const COORD_LIMIT: i32 = 0x2000_0000;

/// A 2D integer grid point. Equality and hashing are structural; the type
/// itself does not enforce the playable bounds (the neighbor generator and
/// the placement algorithm do).
#[derive(Clone, Copy, Debug, Eq, PartialEq, Hash, Structural)]
pub struct Position {
    pub x: i32,
    pub y: i32,
}

/// Manhattan distance over unbounded integers: the distance metric of the
/// 4-connected grid.
pub open spec fn spec_manhattan(a: Position, b: Position) -> int {
    abs_int(a.x - b.x) + abs_int(a.y - b.y)
}

pub open spec fn abs_int(v: int) -> int {
    if v < 0 {
        -v
    } else {
        v
    }
}

/// Two cells are adjacent when they differ by exactly one step along exactly
/// one axis: the 4-connected neighborhood, no diagonals.
pub open spec fn adjacent(a: Position, b: Position) -> bool {
    spec_manhattan(a, b) == 1
}

/// A coordinate lies on the playable grid.
pub open spec fn in_bounds(p: Position) -> bool {
    0 <= p.x < GRID_BOUND && 0 <= p.y < GRID_BOUND
}

/// A coordinate is small enough that distance arithmetic on it cannot
/// overflow `i32`.
pub open spec fn coord_bounded(p: Position) -> bool {
    -COORD_LIMIT < p.x < COORD_LIMIT && -COORD_LIMIT < p.y < COORD_LIMIT
}

impl Position {
    pub fn new(x: i32, y: i32) -> (r: Self)
        ensures
            r.x == x,
            r.y == y,
    {
        Self { x, y }
    }

    /// Distance metric of the grid: `|dx| + |dy|`.
    pub fn manhattan_distance(&self, other: &Position) -> (r: i32)
        requires
            coord_bounded(*self),
            coord_bounded(*other),
        ensures
            r == spec_manhattan(*self, *other),
    {
        let dx = self.x - other.x;
        let dy = self.y - other.y;
        let adx = if dx < 0 { -dx } else { dx };
        let ady = if dy < 0 { -dy } else { dy };
        adx + ady
    }

    /// The bounded neighbor generator: the 4-connected neighbors of `self`
    /// that lie on the playable grid — exactly `spec_neighbors`, in its
    /// fixed right, left, down, up order — so a search can never wander off
    /// the grid and never sees a neighbor twice.
    pub fn neighbors(&self) -> (r: Vec<Position>)
        requires
            coord_bounded(*self),
        ensures
            r@ == spec_neighbors(*self),
            r@.len() <= 4,
            forall|i: int|
                0 <= i < r@.len() ==> adjacent(*self, #[trigger] r@[i]) && in_bounds(r@[i]),
            forall|q: Position| adjacent(*self, q) && in_bounds(q) ==> r@.contains(q),
    {
        let right = Position::new(self.x + 1, self.y);
        let left = Position::new(self.x - 1, self.y);
        let down = Position::new(self.x, self.y + 1);
        let up = Position::new(self.x, self.y - 1);
        let mut r: Vec<Position> = Vec::new();
        if right.x >= 0 && right.x < GRID_BOUND && right.y >= 0 && right.y < GRID_BOUND {
            r.push(right);
        }
        if left.x >= 0 && left.x < GRID_BOUND && left.y >= 0 && left.y < GRID_BOUND {
            r.push(left);
        }
        if down.x >= 0 && down.x < GRID_BOUND && down.y >= 0 && down.y < GRID_BOUND {
            r.push(down);
        }
        if up.x >= 0 && up.x < GRID_BOUND && up.y >= 0 && up.y < GRID_BOUND {
            r.push(up);
        }
        proof {
            assert(r@ =~= spec_neighbors(*self));
            let rlen: int = if in_bounds(right) {
                1
            } else {
                0
            };
            let llen: int = if in_bounds(left) {
                1
            } else {
                0
            };
            let dlen: int = if in_bounds(down) {
                1
            } else {
                0
            };
            assert(in_bounds(right) ==> r@[0] == right);
            assert(in_bounds(left) ==> r@[rlen] == left);
            assert(in_bounds(down) ==> r@[rlen + llen] == down);
            assert(in_bounds(up) ==> r@[rlen + llen + dlen] == up);
            assert forall|q: Position| adjacent(*self, q) && in_bounds(q) implies r@.contains(
                q,
            ) by {
                assert(q == right || q == left || q == down || q == up);
            }
        }
        r
    }
}

/// The 4-connected neighbors of a cell that lie on the playable grid, in
/// fixed order: right, left, down, up. A coordinate off the grid on one
/// axis drops only the candidates that leave the grid.
pub open spec fn spec_neighbors(p: Position) -> Seq<Position> {
    let right = Position { x: (p.x + 1) as i32, y: p.y };
    let left = Position { x: (p.x - 1) as i32, y: p.y };
    let down = Position { x: p.x, y: (p.y + 1) as i32 };
    let up = Position { x: p.x, y: (p.y - 1) as i32 };
    (if in_bounds(right) {
        seq![right]
    } else {
        Seq::<Position>::empty()
    }) + (if in_bounds(left) {
        seq![left]
    } else {
        Seq::<Position>::empty()
    }) + (if in_bounds(down) {
        seq![down]
    } else {
        Seq::<Position>::empty()
    }) + (if in_bounds(up) {
        seq![up]
    } else {
        Seq::<Position>::empty()
    })
}

/// Number of cells on the playable grid.
pub const GRID_CELLS: usize = 6400;

/// Sentinel index meaning "no predecessor recorded".
const NO_PREDECESSOR: usize = 6400;

/// Cells are numbered row by row; every in-bounds coordinate has a unique
/// number below `GRID_CELLS`.
pub open spec fn idx_of(p: Position) -> int {
    p.y * GRID_BOUND + p.x
}

/// The coordinate that a cell number stands for.
pub open spec fn pos_at(i: int) -> Position {
    Position { x: (i % (GRID_BOUND as int)) as i32, y: (i / (GRID_BOUND as int)) as i32 }
}

proof fn lemma_pos_idx_roundtrip(p: Position)
    requires
        in_bounds(p),
    ensures
        0 <= idx_of(p) < GRID_CELLS,
        pos_at(idx_of(p)) == p,
{
    vstd::arithmetic::div_mod::lemma_fundamental_div_mod_converse(
        idx_of(p),
        GRID_BOUND as int,
        p.y as int,
        p.x as int,
    );
}

proof fn lemma_pos_at_in_bounds(i: int)
    requires
        0 <= i < GRID_CELLS,
    ensures
        in_bounds(pos_at(i)),
        idx_of(pos_at(i)) == i,
{
    vstd::arithmetic::div_mod::lemma_fundamental_div_mod(i, GRID_BOUND as int);
}

/// An entry of the open list: a cell, its recorded cost from the start
/// (`g`), and its priority (`f`, cost plus Manhattan-distance heuristic).
#[derive(Clone, Copy)]
struct SearchNode {
    idx: usize,
    f: u32,
    g: u32,
}

/// What `find_path` promises of a returned step sequence: every step is an
/// in-bounds, unblocked cell; consecutive steps are adjacent; the first step
/// is adjacent to `start`; the last step is `goal`. The sequence excludes
/// the start cell and is empty exactly when the player is already there.
pub open spec fn valid_path(grid: Grid, start: Position, goal: Position, path: Seq<Position>) -> bool {
    &&& (start == goal <==> path.len() == 0)
    &&& (path.len() > 0 ==> path.last() == goal && adjacent(start, path[0]))
    &&& (forall|i: int|
        0 <= i < path.len() ==> in_bounds(#[trigger] path[i]) && !grid.is_blocked(path[i]))
    &&& (forall|i: int| 0 <= i < path.len() - 1 ==> adjacent(#[trigger] path[i], path[i + 1]))
}

/// Some step sequence joins `start` to `goal` through walkable cells of the
/// grid (trivially, when the player already stands on the goal).
pub open spec fn reachable(grid: Grid, start: Position, goal: Position) -> bool {
    start == goal || exists|path: Seq<Position>| valid_path(grid, start, goal, path)
}

/// The Manhattan metric obeys the triangle inequality.
proof fn lemma_manhattan_triangle(a: Position, b: Position, c: Position)
    ensures
        spec_manhattan(a, c) <= spec_manhattan(a, b) + spec_manhattan(b, c),
{
}

/// Along a step sequence, the Manhattan distance from any step to the final
/// one is at most the number of steps that remain.
proof fn lemma_path_suffix_manhattan(p: Seq<Position>, k: int, target: Position)
    requires
        p.len() > 0,
        p.last() == target,
        0 <= k < p.len(),
        forall|i: int| 0 <= i < p.len() - 1 ==> adjacent(#[trigger] p[i], p[i + 1]),
    ensures
        spec_manhattan(p[k], target) <= p.len() - 1 - k,
    decreases p.len() - k,
{
    if k < p.len() - 1 {
        lemma_path_suffix_manhattan(p, k + 1, target);
        lemma_manhattan_triangle(p[k], p[k + 1], target);
    }
}

/// When a node is popped with the least priority, no valid route to it can
/// be shorter than its recorded cost: the settled region carries exact
/// costs, every unsettled discovered cell sits one step beyond a settled
/// one, and the whole frontier's priorities are at least the popped one.
proof fn lemma_frontier_bounds_path(
    grid: Grid,
    g: Seq<u32>,
    closed: Seq<bool>,
    cs: Set<int>,
    start: Position,
    target: Position,
    goal: Position,
    bound: int,
    p: Seq<Position>,
    k: int,
)
    requires
        g.len() == GRID_CELLS,
        closed.len() == GRID_CELLS,
        in_bounds(start),
        in_bounds(goal),
        in_bounds(target),
        0 <= bound <= GRID_CELLS,
        forall|i: int| 0 <= i < GRID_CELLS ==> (#[trigger] closed[i] <==> cs.contains(i)),
        forall|i: int, pp: Seq<Position>|
            0 <= i < GRID_CELLS && cs.contains(i) && #[trigger] valid_path(
                grid,
                start,
                pos_at(i),
                pp,
            ) ==> pp.len() >= g[i],
        forall|i: int, q: Position|
            #![trigger cs.contains(i), grid.is_blocked(q)]
            cs.contains(i) && adjacent(pos_at(i), q) && in_bounds(q) && !grid.is_blocked(q)
                && !closed[idx_of(q)] ==> 0 <= idx_of(q) < GRID_CELLS && g[idx_of(q)] <= g[i] + 1,
        forall|i: int|
            0 <= i < GRID_CELLS && (#[trigger] g[i]) < u32::MAX && !closed[i] ==> g[i]
                + spec_manhattan(pos_at(i), goal) >= bound + spec_manhattan(target, goal),
        g[idx_of(start)] == 0,
        !closed[idx_of(target)],
        valid_path(grid, start, target, p),
        p.len() > 0,
        0 <= k < p.len(),
        forall|m: int| 0 <= m < k ==> closed[idx_of(#[trigger] p[m])],
    ensures
        p.len() >= bound,
    decreases p.len() - k,
{
    if p.len() >= bound {
        return ;
    }
    lemma_pos_idx_roundtrip(start);
    lemma_pos_idx_roundtrip(target);
    let q = p[k];
    lemma_pos_idx_roundtrip(q);
    let qi = idx_of(q);
    if !closed[qi] {
        // The first unsettled step sits one past a settled cell (or past the
        // start itself), so its recorded cost is at most its position on the
        // route; the frontier bound then caps the route's length.
        if k == 0 {
            if closed[idx_of(start)] {
                assert(cs.contains(idx_of(start)));
                assert(adjacent(pos_at(idx_of(start)), q));
                assert(g[qi] <= g[idx_of(start)] + 1);
            } else {
                // the start itself is still on the frontier
                assert(g[idx_of(start)] + spec_manhattan(pos_at(idx_of(start)), goal) >= bound
                    + spec_manhattan(target, goal));
                lemma_path_suffix_manhattan(p, 0, target);
                lemma_manhattan_triangle(start, p[0], target);
                lemma_manhattan_triangle(start, target, goal);
                assert(p.len() >= bound);
                return ;
            }
        } else {
            let prev = p[k - 1];
            lemma_pos_idx_roundtrip(prev);
            if prev == start {
                assert(g[idx_of(prev)] == 0);
            } else {
                let prefix = p.subrange(0, k);
                assert(prefix.last() == prev);
                assert(forall|m: int|
                    0 <= m < prefix.len() - 1 ==> adjacent(#[trigger] prefix[m], prefix[m + 1]));
                assert(forall|m: int|
                    0 <= m < prefix.len() ==> in_bounds(#[trigger] prefix[m]) && !grid.is_blocked(
                        prefix[m],
                    ));
                assert(valid_path(grid, start, prev, prefix));
                assert(cs.contains(idx_of(prev)));
                assert(prefix.len() >= g[idx_of(prev)]);
            }
            assert(g[idx_of(prev)] <= k);
            assert(adjacent(pos_at(idx_of(prev)), q));
            assert(g[qi] <= g[idx_of(prev)] + 1);
        }
        assert(g[qi] <= k + 1);
        assert(g[qi] < u32::MAX);
        assert(g[qi] + spec_manhattan(pos_at(qi), goal) >= bound + spec_manhattan(target, goal));
        lemma_path_suffix_manhattan(p, k, target);
        lemma_manhattan_triangle(q, target, goal);
        assert(p.len() >= bound);
    } else {
        assert(k < p.len() - 1);
        lemma_frontier_bounds_path(grid, g, closed, cs, start, target, goal, bound, p, k + 1);
    }
}

/// No walkable chain can leave a settled region: when every settled cell's
/// walkable neighbors are discovered and everything discovered is settled,
/// any valid path from a settled start ends on a settled goal.
proof fn lemma_no_path_leaves_settled_region(
    grid: Grid,
    gs: Seq<u32>,
    cs: Set<int>,
    start: Position,
    goal: Position,
    path: Seq<Position>,
)
    requires
        in_bounds(start),
        valid_path(grid, start, goal, path),
        path.len() > 0,
        cs.contains(idx_of(start)),
        forall|i: int, q: Position|
            #![trigger cs.contains(i), grid.is_blocked(q)]
            cs.contains(i) && adjacent(pos_at(i), q) && in_bounds(q) && !grid.is_blocked(q) ==> 0
                <= idx_of(q) < GRID_CELLS && gs[idx_of(q)] < u32::MAX,
        forall|i: int| 0 <= i < GRID_CELLS && (#[trigger] gs[i]) < u32::MAX ==> cs.contains(i),
    ensures
        cs.contains(idx_of(goal)),
    decreases path.len(),
{
    let first = path[0];
    lemma_pos_idx_roundtrip(start);
    assert(adjacent(pos_at(idx_of(start)), first));
    assert(gs[idx_of(first)] < u32::MAX);
    assert(cs.contains(idx_of(first)));
    if path.len() == 1 {
        assert(first == goal);
    } else if first == goal {
    } else {
        let tail = path.drop_first();
        assert(tail.len() == path.len() - 1);
        assert(forall|k: int| 0 <= k < tail.len() ==> #[trigger] tail[k] == path[k + 1]);
        assert(tail.last() == path.last());
        assert(adjacent(first, tail[0]));
        assert(valid_path(grid, first, goal, tail));
        lemma_no_path_leaves_settled_region(grid, gs, cs, first, goal, tail);
    }
}


/// Removing one open entry keeps a witness for every other discovered,
/// unsettled cell.
proof fn lemma_open_witnesses_after_removal(
    pre_open: Seq<SearchNode>,
    post_open: Seq<SearchNode>,
    best: int,
    g: Seq<u32>,
    closed: Seq<bool>,
    removed_idx: int,
)
    requires
        0 <= best < pre_open.len(),
        post_open == pre_open.update(best, pre_open.last()).drop_last(),
        pre_open[best].idx == removed_idx,
        g.len() == GRID_CELLS,
        closed.len() == GRID_CELLS,
        forall|i: int|
            0 <= i < GRID_CELLS && g[i] < u32::MAX && !(#[trigger] closed[i]) ==> exists|k: int|
                0 <= k < pre_open.len() && (#[trigger] pre_open[k]).idx == i && pre_open[k].g
                    == g[i],
    ensures
        forall|i: int|
            0 <= i < GRID_CELLS && g[i] < u32::MAX && !(#[trigger] closed[i]) && i != removed_idx
                ==> exists|k: int|
                0 <= k < post_open.len() && (#[trigger] post_open[k]).idx == i && post_open[k].g
                    == g[i],
{
    assert forall|i: int|
        0 <= i < GRID_CELLS && g[i] < u32::MAX && !closed[i] && i != removed_idx implies exists|
        k: int,
    |
        0 <= k < post_open.len() && (#[trigger] post_open[k]).idx == i && post_open[k].g
            == g[i] by {
        let k0 = choose|k0: int|
            0 <= k0 < pre_open.len() && (#[trigger] pre_open[k0]).idx == i && pre_open[k0].g
                == g[i];
        if k0 == pre_open.len() - 1 {
            assert(post_open[best].idx == i && post_open[best].g == g[i]);
        } else {
            assert(k0 != best);
            assert(post_open[k0].idx == i && post_open[k0].g == g[i]);
        }
    }
}

/// Settling one more cell keeps the frontier covered, once each of its
/// walkable neighbors has been discovered.
proof fn lemma_settled_frontier_extends(
    grid: Grid,
    g: Seq<u32>,
    cs: Set<int>,
    new_i: int,
    nbrs: Seq<Position>,
    cur_pos: Position,
)
    requires
        0 <= new_i < GRID_CELLS,
        cur_pos == pos_at(new_i),
        forall|i: int, q: Position|
            #![trigger cs.contains(i), grid.is_blocked(q)]
            cs.contains(i) && i != new_i && adjacent(pos_at(i), q) && in_bounds(q)
                && !grid.is_blocked(q) ==> 0 <= idx_of(q) < GRID_CELLS && g[idx_of(q)]
                < u32::MAX,
        forall|m: int|
            0 <= m < nbrs.len() && !grid.is_blocked(#[trigger] nbrs[m]) ==> 0 <= idx_of(nbrs[m])
                < GRID_CELLS && g[idx_of(nbrs[m])] < u32::MAX,
        forall|q: Position| adjacent(cur_pos, q) && in_bounds(q) ==> nbrs.contains(q),
    ensures
        forall|i: int, q: Position|
            #![trigger cs.contains(i), grid.is_blocked(q)]
            cs.contains(i) && adjacent(pos_at(i), q) && in_bounds(q) && !grid.is_blocked(q) ==> 0
                <= idx_of(q) < GRID_CELLS && g[idx_of(q)] < u32::MAX,
{
    assert forall|i: int, q: Position|
        #![trigger cs.contains(i), grid.is_blocked(q)]
        cs.contains(i) && adjacent(pos_at(i), q) && in_bounds(q) && !grid.is_blocked(
            q,
        ) implies 0 <= idx_of(q) < GRID_CELLS && g[idx_of(q)] < u32::MAX by {
        if i == new_i {
            assert(nbrs.contains(q));
            let m = choose|m: int| 0 <= m < nbrs.len() && nbrs[m] == q;
            assert(g[idx_of(nbrs[m])] < u32::MAX);
        }
    }
}

/// When the open set is exhausted, everything discovered is settled, and no
/// walkable chain can reach a cell that was never settled.
proof fn lemma_exhausted_search_is_complete(
    grid: Grid,
    g: Seq<u32>,
    cs: Set<int>,
    start: Position,
    goal: Position,
    start_i: int,
    goal_i: int,
)
    requires
        g.len() == GRID_CELLS,
        in_bounds(start),
        in_bounds(goal),
        start != goal,
        start_i == idx_of(start),
        goal_i == idx_of(goal),
        g[start_i] < u32::MAX,
        !cs.contains(goal_i),
        forall|i: int| 0 <= i < GRID_CELLS && (#[trigger] g[i]) < u32::MAX ==> cs.contains(i),
        forall|i: int, q: Position|
            #![trigger cs.contains(i), grid.is_blocked(q)]
            cs.contains(i) && adjacent(pos_at(i), q) && in_bounds(q) && !grid.is_blocked(q) ==> 0
                <= idx_of(q) < GRID_CELLS && g[idx_of(q)] < u32::MAX,
    ensures
        !reachable(grid, start, goal),
{
    lemma_pos_idx_roundtrip(start);
    assert(cs.contains(idx_of(start)));
    if reachable(grid, start, goal) {
        let path = choose|path: Seq<Position>| valid_path(grid, start, goal, path);
        assert(path.len() > 0);
        lemma_no_path_leaves_settled_region(grid, g, cs, start, goal, path);
        assert(false);
    }
}

/// The dynamic obstacle set plus the shortest-path search. The set is
/// rebuilt from node footprints every time a harvest attempt begins.
pub struct Grid {
    obstacles: Vec<Position>,
}

impl Grid {
    /// A cell is blocked exactly when an explicit `add_obstacle` call put it
    /// in the set since the last `clear_obstacles`.
    pub closed spec fn is_blocked(self, p: Position) -> bool {
        self.obstacles@.contains(p)
    }

    pub fn new() -> (r: Self)
        ensures
            forall|p: Position| !r.is_blocked(p),
    {
        Self { obstacles: Vec::new() }
    }

    pub fn add_obstacle(&mut self, pos: Position)
        ensures
            forall|p: Position| final(self).is_blocked(p) <==> old(self).is_blocked(p) || p == pos,
    {
        self.obstacles.push(pos);
        proof {
            assert forall|p: Position| self.is_blocked(p) <==> old(self).is_blocked(p) || p
                == pos by {
                if old(self).is_blocked(p) || p == pos {
                    if p == pos {
                        assert(self.obstacles@[self.obstacles@.len() - 1] == p);
                    } else {
                        let k = choose|k: int|
                            0 <= k < old(self).obstacles@.len() && old(self).obstacles@[k] == p;
                        assert(self.obstacles@[k] == p);
                    }
                }
            }
        }
    }

    pub fn clear_obstacles(&mut self)
        ensures
            forall|p: Position| !final(self).is_blocked(p),
    {
        self.obstacles.clear();
    }

    /// A blocked cell is not walkable; everything else is.
    pub fn is_walkable(&self, pos: &Position) -> (r: bool)
        ensures
            r == !self.is_blocked(*pos),
    {
        let mut i: usize = 0;
        while i < self.obstacles.len()
            invariant
                i <= self.obstacles@.len(),
                forall|k: int| 0 <= k < i ==> self.obstacles@[k] != *pos,
            decreases self.obstacles@.len() - i,
        {
            if self.obstacles[i].x == pos.x && self.obstacles[i].y == pos.y {
                assert(self.obstacles@[i as int] == *pos);
                return false;
            }
            i += 1;
        }
        true
    }

    /// A*-family search with the Manhattan heuristic over the 4-connected
    /// grid, unit step cost, a closed set against re-expansion, and
    /// predecessor links for path reconstruction. A returned route is as
    /// short as any valid route to the goal (the heuristic never
    /// overestimates on this grid). `None` means the open set emptied before
    /// the goal was reached — the goal is unreachable — a normal outcome
    /// ("do not move this keystroke"), never an error.
    /// Walks the recorded predecessor links from the goal back to the start
    /// and reverses them into the forward step sequence.
    #[verifier::rlimit(100)]
    #[verifier::spinoff_prover]
    fn reconstruct_path(
        &self,
        cf: &Vec<usize>,
        g: &Vec<u32>,
        start: Position,
        goal: Position,
        start_i: usize,
        goal_i: usize,
    ) -> (r: Vec<Position>)
        requires
            cf@.len() == GRID_CELLS,
            g@.len() == GRID_CELLS,
            in_bounds(start),
            in_bounds(goal),
            start != goal,
            0 <= start_i < GRID_CELLS,
            0 <= goal_i < GRID_CELLS,
            start_i != goal_i,
            pos_at(start_i as int) == start,
            pos_at(goal_i as int) == goal,
            g@[start_i as int] == 0,
            cf@[start_i as int] == NO_PREDECESSOR,
            g@[goal_i as int] < u32::MAX,
            forall|i: int|
                0 <= i < GRID_CELLS && #[trigger] cf@[i] != NO_PREDECESSOR ==> 0 <= cf@[i]
                    < GRID_CELLS && g@[i] < u32::MAX && g@[cf@[i] as int] < g@[i] && adjacent(
                    pos_at(cf@[i] as int),
                    pos_at(i),
                ) && !self.is_blocked(pos_at(i)),
            forall|i: int|
                0 <= i < GRID_CELLS && #[trigger] g@[i] < u32::MAX ==> (i == start_i || cf@[i]
                    != NO_PREDECESSOR),
        ensures
            valid_path(*self, start, goal, r@),
            r@.len() <= g@[goal_i as int],
    {
        let mut back: Vec<Position> = Vec::new();
        let mut cur_i: usize = goal_i;
        while cf[cur_i] != NO_PREDECESSOR
            invariant
                g@.len() == GRID_CELLS,
                cf@.len() == GRID_CELLS,
                in_bounds(goal),
                0 <= goal_i < GRID_CELLS,
                pos_at(goal_i as int) == goal,
                pos_at(start_i as int) == start,
                0 <= start_i < GRID_CELLS,
                cur_i < GRID_CELLS,
                g@[cur_i as int] < u32::MAX,
                forall|i: int|
                    0 <= i < GRID_CELLS && #[trigger] cf@[i] != NO_PREDECESSOR ==> 0 <= cf@[i]
                        < GRID_CELLS && g@[i] < u32::MAX && g@[cf@[i] as int] < g@[i] && adjacent(
                        pos_at(cf@[i] as int),
                        pos_at(i),
                    ) && !self.is_blocked(pos_at(i)),
                forall|i: int|
                    0 <= i < GRID_CELLS && #[trigger] g@[i] < u32::MAX ==> (i == start_i || cf@[i]
                        != NO_PREDECESSOR),
                cf@[goal_i as int] != NO_PREDECESSOR,
                back@.len() + g@[cur_i as int] <= g@[goal_i as int],
                back@.len() == 0 ==> cur_i == goal_i,
                back@.len() > 0 ==> back@[0] == goal,
                back@.len() > 0 ==> adjacent(pos_at(cur_i as int), back@.last()),
                forall|k: int|
                    0 <= k < back@.len() ==> in_bounds(#[trigger] back@[k]) && !self.is_blocked(
                        back@[k],
                    ),
                forall|k: int|
                    0 <= k < back@.len() - 1 ==> adjacent(#[trigger] back@[k + 1], back@[k]),
            decreases g@[cur_i as int],
        {
            let nxt = cf[cur_i];
            let ghost prev_back = back@;
            back.push(position_of_index(cur_i));
            proof {
                assert(back@.last() == pos_at(cur_i as int));
                assert(forall|k: int|
                    0 <= k < prev_back.len() ==> #[trigger] back@[k] == prev_back[k]);
            }
            cur_i = nxt;
        }
        assert(cur_i == start_i);
        assert(back@.len() > 0);
        assert(back@.len() <= g@[goal_i as int]);
        assert(adjacent(start, back@.last()));

        let mut path: Vec<Position> = Vec::new();
        let mut k: usize = back.len();
        while k > 0
            invariant
                k <= back@.len(),
                path@.len() + k == back@.len(),
                forall|j2: int|
                    0 <= j2 < path@.len() ==> #[trigger] path@[j2] == back@[back@.len() - 1 - j2],
            decreases k,
        {
            k -= 1;
            path.push(back[k]);
        }
        proof {
            assert(path@.len() == back@.len());
            assert(path@.last() == back@[0]);
            assert(path@[0] == back@.last());
            assert forall|i: int| 0 <= i < path@.len() - 1 implies adjacent(
                #[trigger] path@[i],
                path@[i + 1],
            ) by {
                let l = back@.len();
                assert(path@[i] == back@[l - 1 - i]);
                assert(path@[i + 1] == back@[l - 1 - (i + 1)]);
                assert(adjacent(back@[(l - 2 - i) + 1], back@[l - 2 - i]));
            }
            assert(forall|k2: int|
                0 <= k2 < path@.len() ==> in_bounds(#[trigger] path@[k2]) && !self.is_blocked(
                    path@[k2],
                ));
            assert(valid_path(*self, start, goal, path@));
        }
        path
    }

    #[verifier::rlimit(100)]
    #[verifier::spinoff_prover]
    pub fn find_path(&self, start: Position, goal: Position) -> (r: Option<Vec<Position>>)
        requires
            in_bounds(start),
            in_bounds(goal),
        ensures
            match r {
                Some(path) => valid_path(*self, start, goal, path@) && (forall|
                    other: Seq<Position>,
                |
                    valid_path(*self, start, goal, other) ==> other.len() >= path@.len()),
                None => !reachable(*self, start, goal),
            },
    {
        if start.x == goal.x && start.y == goal.y {
            return Some(Vec::new());
        }
        let start_i = index_of_position(&start);
        let goal_i = index_of_position(&goal);
        proof {
            lemma_pos_idx_roundtrip(start);
            lemma_pos_idx_roundtrip(goal);
        }
        let mut g: Vec<u32> = vec![u32::MAX; GRID_CELLS];
        let mut cf: Vec<usize> = vec![NO_PREDECESSOR; GRID_CELLS];
        let mut closed: Vec<bool> = vec![false; GRID_CELLS];
        let mut open: Vec<SearchNode> = Vec::new();
        let ghost mut cs: Set<int> = Set::empty();
        g.set(start_i, 0);
        let h0 = start.manhattan_distance(&goal);
        open.push(SearchNode { idx: start_i, f: h0 as u32, g: 0 });
        proof {
            assert forall|i: int|
                0 <= i < GRID_CELLS && g@[i] < u32::MAX && !(#[trigger] closed@[i]) implies exists|
                k: int,
            |
                0 <= k < open@.len() && (#[trigger] open@[k]).idx == i && open@[k].g == g@[i] by {
                assert(i == start_i);
                assert(open@[0].idx == i && open@[0].g == g@[i]);
            }
        }

        while open.len() > 0
            invariant
                g@.len() == GRID_CELLS,
                cf@.len() == GRID_CELLS,
                closed@.len() == GRID_CELLS,
                in_bounds(start),
                in_bounds(goal),
                start != goal,
                start_i == idx_of(start),
                goal_i == idx_of(goal),
                0 <= start_i < GRID_CELLS,
                0 <= goal_i < GRID_CELLS,
                start_i != goal_i,
                pos_at(start_i as int) == start,
                pos_at(goal_i as int) == goal,
                cs.finite(),
                cs.len() <= GRID_CELLS,
                forall|j: int| cs.contains(j) ==> 0 <= j < GRID_CELLS,
                forall|i: int|
                    0 <= i < GRID_CELLS ==> (#[trigger] closed@[i] <==> cs.contains(i)),
                g@[start_i as int] == 0,
                cf@[start_i as int] == NO_PREDECESSOR,
                forall|i: int|
                    0 <= i < GRID_CELLS && #[trigger] cf@[i] != NO_PREDECESSOR ==> 0 <= cf@[i]
                        < GRID_CELLS && g@[i] < u32::MAX && g@[cf@[i] as int] < g@[i] && adjacent(
                        pos_at(cf@[i] as int),
                        pos_at(i),
                    ) && !self.is_blocked(pos_at(i)),
                forall|i: int|
                    0 <= i < GRID_CELLS && #[trigger] g@[i] < u32::MAX ==> (i == start_i || cf@[i]
                        != NO_PREDECESSOR),
                forall|k: int|
                    0 <= k < open@.len() ==> (#[trigger] open@[k]).idx < GRID_CELLS && g@[open@[k].idx as int]
                        <= open@[k].g && g@[open@[k].idx as int] < u32::MAX && open@[k].g
                        <= cs.len() && open@[k].f as int == open@[k].g + spec_manhattan(
                        pos_at(open@[k].idx as int),
                        goal,
                    ),
                !cs.contains(goal_i as int),
                forall|i: int|
                    0 <= i < GRID_CELLS && #[trigger] closed@[i] ==> g@[i] < u32::MAX,
                forall|i: int|
                    0 <= i < GRID_CELLS && g@[i] < u32::MAX && !(#[trigger] closed@[i]) ==> exists|k: int|
                        0 <= k < open@.len() && (#[trigger] open@[k]).idx == i && open@[k].g
                            == g@[i],
                forall|i: int, q: Position|
                    #![trigger cs.contains(i), self.is_blocked(q)]
                    cs.contains(i) && adjacent(pos_at(i), q) && in_bounds(q) && !self.is_blocked(q)
                        ==> 0 <= idx_of(q) < GRID_CELLS && g@[idx_of(q)] < u32::MAX,
                forall|i: int, q: Position|
                    #![trigger cs.contains(i), self.is_blocked(q)]
                    cs.contains(i) && adjacent(pos_at(i), q) && in_bounds(q) && !self.is_blocked(q)
                        && !closed@[idx_of(q)] ==> g@[idx_of(q)] <= g@[i] + 1,
                forall|i: int, p: Seq<Position>|
                    0 <= i < GRID_CELLS && cs.contains(i) && #[trigger] valid_path(
                        *self,
                        start,
                        pos_at(i),
                        p,
                    ) ==> p.len() >= g@[i],
            decreases GRID_CELLS - cs.len(), open@.len(),
        {
            let mut best: usize = 0;
            let mut j: usize = 1;
            while j < open.len()
                invariant
                    open@.len() > 0,
                    best < open@.len(),
                    j <= open@.len(),
                    forall|k2: int| 0 <= k2 < j ==> open@[best as int].f <= (#[trigger] open@[k2]).f,
                decreases open@.len() - j,
            {
                if open[j].f < open[best].f {
                    best = j;
                }
                j += 1;
            }
            let current = open[best];
            let ghost pre_open = open@;
            proof {
                // The popped entry has the least priority; with consistent
                // priorities the recorded cost of every discovered, unsettled
                // cell (plus its heuristic) is at least the popped priority,
                // and the popped entry's own cost is the recorded one.
                assert forall|i: int|
                    0 <= i < GRID_CELLS && g@[i] < u32::MAX && !closed@[i] implies g@[i]
                    + spec_manhattan(pos_at(i), goal) >= current.f by {
                    let kw = choose|kw: int|
                        0 <= kw < open@.len() && (#[trigger] open@[kw]).idx == i && open@[kw].g
                            == g@[i];
                    assert(open@[best as int].f <= open@[kw].f);
                }
                if !closed@[current.idx as int] {
                    let ci = current.idx as int;
                    assert(g@[ci] + spec_manhattan(pos_at(ci), goal) >= current.f);
                    assert(current.f as int == current.g + spec_manhattan(pos_at(ci), goal));
                    assert(current.g == g@[ci]);
                }
            }
            let _ = open.swap_remove(best);
            proof {
                lemma_open_witnesses_after_removal(
                    pre_open,
                    open@,
                    best as int,
                    g@,
                    closed@,
                    current.idx as int,
                );
            }

            if current.idx == goal_i {
                proof {
                    assert(current.g == g@[goal_i as int]);
                    assert forall|other: Seq<Position>|
                        valid_path(*self, start, goal, other) implies other.len()
                        >= g@[goal_i as int] by {
                        assert(other.len() > 0);
                        lemma_frontier_bounds_path(
                            *self,
                            g@,
                            closed@,
                            cs,
                            start,
                            goal,
                            goal,
                            g@[goal_i as int] as int,
                            other,
                            0,
                        );
                    }
                }
                let path = self.reconstruct_path(&cf, &g, start, goal, start_i, goal_i);
                return Some(path);
            }
            if closed[current.idx] {
                continue;
            }
            proof {
                // Settling this cell keeps every settled cost exact: no
                // valid route to it is shorter than its recorded cost.
                let ci = current.idx as int;
                lemma_pos_at_in_bounds(ci);
                assert forall|p: Seq<Position>|
                    valid_path(*self, start, pos_at(ci), p) implies p.len() >= g@[ci] by {
                    if p.len() == 0 {
                        assert(start == pos_at(ci));
                        lemma_pos_idx_roundtrip(start);
                        assert(g@[ci] == 0);
                    } else {
                        lemma_frontier_bounds_path(
                            *self,
                            g@,
                            closed@,
                            cs,
                            start,
                            pos_at(ci),
                            goal,
                            g@[ci] as int,
                            p,
                            0,
                        );
                    }
                }
            }
            closed.set(current.idx, true);
            proof {
                cs = cs.insert(current.idx as int);
                vstd::set_lib::lemma_int_range(0, GRID_CELLS as int);
                assert(cs.subset_of(vstd::set_lib::set_int_range(0, GRID_CELLS as int)));
                vstd::set_lib::lemma_len_subset(
                    cs,
                    vstd::set_lib::set_int_range(0, GRID_CELLS as int),
                );
            }
            let cur_pos = position_of_index(current.idx);
            let nbrs = cur_pos.neighbors();
            let mut n: usize = 0;
            while n < nbrs.len()
                invariant
                    g@.len() == GRID_CELLS,
                    cf@.len() == GRID_CELLS,
                    closed@.len() == GRID_CELLS,
                    in_bounds(start),
                    in_bounds(goal),
                    start != goal,
                    start_i == idx_of(start),
                    goal_i == idx_of(goal),
                    0 <= start_i < GRID_CELLS,
                    0 <= goal_i < GRID_CELLS,
                    start_i != goal_i,
                    pos_at(start_i as int) == start,
                    pos_at(goal_i as int) == goal,
                    cs.finite(),
                    cs.len() <= GRID_CELLS,
                    forall|j2: int| cs.contains(j2) ==> 0 <= j2 < GRID_CELLS,
                    forall|i: int|
                        0 <= i < GRID_CELLS ==> (#[trigger] closed@[i] <==> cs.contains(i)),
                    g@[start_i as int] == 0,
                    cf@[start_i as int] == NO_PREDECESSOR,
                    forall|i: int|
                        0 <= i < GRID_CELLS && #[trigger] cf@[i] != NO_PREDECESSOR ==> 0 <= cf@[i]
                            < GRID_CELLS && g@[i] < u32::MAX && g@[cf@[i] as int] < g@[i]
                            && adjacent(pos_at(cf@[i] as int), pos_at(i)) && !self.is_blocked(
                            pos_at(i),
                        ),
                    forall|i: int|
                        0 <= i < GRID_CELLS && #[trigger] g@[i] < u32::MAX ==> (i == start_i
                            || cf@[i] != NO_PREDECESSOR),
                    forall|k: int|
                        0 <= k < open@.len() ==> (#[trigger] open@[k]).idx < GRID_CELLS
                            && g@[open@[k].idx as int] <= open@[k].g && g@[open@[k].idx as int]
                            < u32::MAX && open@[k].g <= cs.len() && open@[k].f as int == open@[k].g
                            + spec_manhattan(pos_at(open@[k].idx as int), goal),
                    n <= nbrs@.len(),
                    current.idx < GRID_CELLS,
                    closed@[current.idx as int],
                    cur_pos == pos_at(current.idx as int),
                    g@[current.idx as int] == current.g,
                    current.g < cs.len(),
                    current.g < GRID_CELLS,
                    forall|i: int|
                        0 <= i < nbrs@.len() ==> adjacent(cur_pos, #[trigger] nbrs@[i])
                            && in_bounds(nbrs@[i]),
                    current.idx != goal_i,
                    !cs.contains(goal_i as int),
                    forall|i: int|
                        0 <= i < GRID_CELLS && #[trigger] closed@[i] ==> g@[i] < u32::MAX,
                    forall|i: int|
                        0 <= i < GRID_CELLS && g@[i] < u32::MAX && !(#[trigger] closed@[i])
                            ==> exists|k: int|
                            0 <= k < open@.len() && (#[trigger] open@[k]).idx == i && open@[k].g
                                == g@[i],
                    forall|i: int, q: Position|
                        #![trigger cs.contains(i), self.is_blocked(q)]
                        cs.contains(i) && i != current.idx && adjacent(pos_at(i), q) && in_bounds(
                            q,
                        ) && !self.is_blocked(q) ==> 0 <= idx_of(q) < GRID_CELLS && g@[idx_of(q)]
                            < u32::MAX,
                    forall|i: int, q: Position|
                        #![trigger cs.contains(i), self.is_blocked(q)]
                        cs.contains(i) && i != current.idx && adjacent(pos_at(i), q) && in_bounds(
                            q,
                        ) && !self.is_blocked(q) && !closed@[idx_of(q)] ==> g@[idx_of(q)] <= g@[i]
                            + 1,
                    forall|m: int|
                        0 <= m < n && !self.is_blocked(#[trigger] nbrs@[m]) ==> 0 <= idx_of(
                            nbrs@[m],
                        ) < GRID_CELLS && g@[idx_of(nbrs@[m])] < u32::MAX && (!closed@[idx_of(
                            nbrs@[m],
                        )] ==> g@[idx_of(nbrs@[m])] <= g@[current.idx as int] + 1),
                    forall|q: Position|
                        adjacent(cur_pos, q) && in_bounds(q) ==> nbrs@.contains(q),
                    forall|i: int, p: Seq<Position>|
                        0 <= i < GRID_CELLS && cs.contains(i) && #[trigger] valid_path(
                            *self,
                            start,
                            pos_at(i),
                            p,
                        ) ==> p.len() >= g@[i],
                decreases nbrs@.len() - n,
            {
                let nb = nbrs[n];
                if self.is_walkable(&nb) {
                    let nb_i = index_of_position(&nb);
                    proof {
                        lemma_pos_idx_roundtrip(nb);
                    }
                    if !closed[nb_i] {
                        let tentative = current.g + 1;
                        if tentative < g[nb_i] {
                            cf.set(nb_i, current.idx);
                            g.set(nb_i, tentative);
                            let h = nb.manhattan_distance(&goal);
                            let f = tentative + (h as u32);
                            let ghost pre_open2 = open@;
                            open.push(SearchNode { idx: nb_i, f, g: tentative });
                            proof {
                                assert forall|i: int|
                                    0 <= i < GRID_CELLS && g@[i] < u32::MAX && !closed@[i] implies exists|
                                    k: int,
                                |
                                    0 <= k < open@.len() && (#[trigger] open@[k]).idx == i
                                        && open@[k].g == g@[i] by {
                                    if i == nb_i {
                                        assert(open@[open@.len() - 1].idx == i
                                            && open@[open@.len() - 1].g == g@[i]);
                                    } else {
                                        let k0 = choose|k0: int|
                                            0 <= k0 < pre_open2.len() && (
                                            #[trigger] pre_open2[k0]).idx == i && pre_open2[k0].g
                                                == g@[i];
                                        assert(open@[k0].idx == i && open@[k0].g == g@[i]);
                                    }
                                }
                            }
                        } else {
                            proof {
                                assert(tentative < u32::MAX);
                                assert(g@[nb_i as int] < u32::MAX);
                            }
                        }
                    }
                }
                proof {
                    if !self.is_blocked(nbrs@[n as int]) {
                        assert(g@[idx_of(nbrs@[n as int])] < u32::MAX);
                    }
                }
                n += 1;
            }
            proof {
                lemma_settled_frontier_extends(
                    *self,
                    g@,
                    cs,
                    current.idx as int,
                    nbrs@,
                    cur_pos,
                );
                assert forall|i: int, q: Position|
                    #![trigger cs.contains(i), self.is_blocked(q)]
                    cs.contains(i) && adjacent(pos_at(i), q) && in_bounds(q) && !self.is_blocked(
                        q,
                    ) && !closed@[idx_of(q)] implies g@[idx_of(q)] <= g@[i] + 1 by {
                    if i == current.idx {
                        assert(nbrs@.contains(q));
                        let m = choose|m: int| 0 <= m < nbrs@.len() && nbrs@[m] == q;
                        assert(g@[idx_of(nbrs@[m])] <= g@[current.idx as int] + 1);
                    }
                }
            }
        }
        // The open set is exhausted: everything discovered is settled, every
        // settled cell's walkable neighbors were discovered, and the goal was
        // never settled — so no walkable chain reaches it.
        proof {
            assert forall|i: int|
                0 <= i < GRID_CELLS && (#[trigger] g@[i]) < u32::MAX implies cs.contains(i) by {
                if !closed@[i] {
                    let k = choose|k: int| 0 <= k < open@.len() && (#[trigger] open@[k]).idx == i;
                    assert(false);
                }
            }
            lemma_exhausted_search_is_complete(
                *self,
                g@,
                cs,
                start,
                goal,
                start_i as int,
                goal_i as int,
            );
        }
        None
    }
}

/// The cell number of an in-bounds coordinate.
fn index_of_position(p: &Position) -> (r: usize)
    requires
        in_bounds(*p),
    ensures
        r == idx_of(*p),
        r < GRID_CELLS,
{
    proof {
        lemma_pos_idx_roundtrip(*p);
    }
    (p.y as usize) * 80 + (p.x as usize)
}

/// The coordinate of a cell number.
fn position_of_index(i: usize) -> (r: Position)
    requires
        i < GRID_CELLS,
    ensures
        r == pos_at(i as int),
        in_bounds(r),
{
    proof {
        lemma_pos_at_in_bounds(i as int);
    }
    Position { x: (i % 80) as i32, y: (i / 80) as i32 }
}

} // verus!
