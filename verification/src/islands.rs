//! Islands and spawn placement: bounded rejection sampling that keeps every
//! node inside the elliptical landmass and well separated from the others,
//! plus the weighted choice of a node's resource kind.

use vstd::prelude::*;
use crate::pathfinding::abs_int;
use crate::resource_types::ResourceType;
use crate::rng::rand_range;

verus! {

pub struct Island {
    pub name: String,
    pub resource_pools: Vec<ResourcePool>,
    pub max_nodes: u32,
    /// Chance, in whole percent, that a harvest spawns an extra node.
    pub spawn_chance_percent: u32,
    pub level_requirement: u32,
}

pub struct ResourcePool {
    pub resource_type: ResourceType,
    /// Higher weight makes the kind more likely to spawn.
    pub weight: u32,
}

/// The island is an ellipse centered on the play area whose radii are 3/5 of
/// the area's extent. A point lies in the spawnable interior when its
/// normalized elliptical distance from the center is at most 0.9 — written
/// here with both sides of `dx^2/rx^2 + dy^2/ry^2 <= 0.81` multiplied by
/// `100 * rx^2 * ry^2`, so the test is exact over the integers.
pub open spec fn inside_island(x: int, y: int, width: int, height: int) -> bool {
    let cx = width / 2;
    let cy = height / 2;
    let rx = width * 3 / 5;
    let ry = height * 3 / 5;
    let dxr = (x - cx) * ry;
    let dyr = (y - cy) * rx;
    let rr = rx * ry;
    100 * (dxr * dxr) + 100 * (dyr * dyr) <= 81 * (rr * rr)
}

/// The minimum spacing between two nodes: they may share neither a 13-wide
/// horizontal band nor a 9-tall vertical band.
pub open spec fn separated(ax: int, ay: int, bx: int, by: int) -> bool {
    abs_int(ax - bx) > 6 || abs_int(ay - by) > 4
}

/// Sum of the spawn weights of a pool list.
pub open spec fn sum_weights(pools: Seq<ResourcePool>) -> int
    decreases pools.len(),
{
    if pools.len() == 0 {
        0
    } else {
        pools[0].weight + sum_weights(pools.drop_first())
    }
}

/// The kind selected by a roll `v`: weights are subtracted in pool order
/// until the roll falls under the current pool's weight.
pub open spec fn weighted_pick(pools: Seq<ResourcePool>, v: int) -> ResourceType
    decreases pools.len(),
{
    if pools.len() == 0 {
        ResourceType::Wood
    } else if v < pools[0].weight {
        pools[0].resource_type
    } else {
        weighted_pick(pools.drop_first(), v - pools[0].weight)
    }
}

pub struct IslandManager {
    islands: Vec<Island>,
    current_island: usize,
}

impl IslandManager {
    pub closed spec fn islands_seq(self) -> Seq<Island> {
        self.islands@
    }

    /// The island the player is on.
    pub closed spec fn spec_current(self) -> Island {
        self.islands@[self.current_island as int]
    }

    /// There is always a current island; every island offers at least one
    /// resource pool, and its total weight fits the arithmetic below.
    pub closed spec fn wf(self) -> bool {
        &&& self.islands@.len() > 0
        &&& self.current_island < self.islands@.len()
        &&& forall|k: int|
            0 <= k < self.islands@.len() ==> (#[trigger] self.islands@[k]).resource_pools@.len()
                > 0 && 0 < sum_weights(self.islands@[k].resource_pools@) < 0x1_0000_0000 && self.islands@[k].max_nodes <= 0x1000
    }

    /// One starting island: mostly wood, some copper, up to six nodes, and a
    /// 15% chance per harvest to spawn an extra node.
    pub fn new() -> (r: Self)
        ensures
            r.wf(),
            r.islands_seq().len() == 1,
            r.spec_current().max_nodes == 6,
            r.spec_current().spawn_chance_percent == 15,
            r.spec_current().resource_pools@.len() == 2,
            r.spec_current().resource_pools@[0].resource_type == ResourceType::Wood,
            r.spec_current().resource_pools@[0].weight == 60,
            r.spec_current().resource_pools@[1].resource_type == ResourceType::Copper,
            r.spec_current().resource_pools@[1].weight == 50,
    {
        let mut pools: Vec<ResourcePool> = Vec::new();
        pools.push(ResourcePool { resource_type: ResourceType::Wood, weight: 60 });
        pools.push(ResourcePool { resource_type: ResourceType::Copper, weight: 50 });
        let island = Island {
            name: "Starter Grove".to_owned(),
            resource_pools: pools,
            max_nodes: 6,
            spawn_chance_percent: 15,
            level_requirement: 0,
        };
        let mut islands: Vec<Island> = Vec::new();
        islands.push(island);
        let r = IslandManager { islands, current_island: 0 };
        proof {
            let ps = r.islands@[0].resource_pools@;
            assert(ps.drop_first().drop_first().len() == 0);
            assert(sum_weights(ps.drop_first().drop_first()) == 0);
            assert(ps.drop_first()[0] == ps[1]);
            assert(sum_weights(ps.drop_first()) == 50);
            assert(sum_weights(ps) == 110);
        }
        r
    }

    pub fn get_current_island(&self) -> (r: &Island)
        requires
            self.wf(),
        ensures
            *r == self.spec_current(),
            r.max_nodes <= 0x1000,
    {
        &self.islands[self.current_island]
    }

    /// Rolls the island's per-harvest spawn chance. The outcome is random;
    /// what is promised is that it is decided by comparing a roll below 100
    /// against the island's percentage, so a 0% island never spawns and a
    /// 100% island always does.
    pub fn should_spawn_node(&self) -> (r: bool)
        requires
            self.wf(),
        ensures
            self.spec_current().spawn_chance_percent == 0 ==> !r,
            self.spec_current().spawn_chance_percent >= 100 ==> r,
    {
        let roll = rand_range(0, 100);
        let island = &self.islands[self.current_island];
        roll < island.spawn_chance_percent as i64
    }

    /// Draws a node kind with probability proportional to pool weight: the
    /// result is `weighted_pick` of some roll below the total weight.
    pub fn get_random_resource_type(&self) -> (r: ResourceType)
        requires
            self.wf(),
        ensures
            exists|v: int|
                0 <= v < sum_weights(self.spec_current().resource_pools@) && r == weighted_pick(
                    self.spec_current().resource_pools@,
                    v,
                ),
    {
        let island = &self.islands[self.current_island];
        let pools = &island.resource_pools;
        let mut total: u32 = 0;
        let mut i: usize = 0;
        proof {
            assert(pools@.skip(0) =~= pools@);
        }
        while i < pools.len()
            invariant
                i <= pools@.len(),
                total + sum_weights(pools@.skip(i as int)) == sum_weights(pools@),
                0 < sum_weights(pools@) < 0x1_0000_0000,
                0 <= sum_weights(pools@.skip(i as int)),
            decreases pools@.len() - i,
        {
            proof {
                assert(pools@.skip(i as int).drop_first() =~= pools@.skip(i + 1));
                lemma_sum_weights_nonneg(pools@.skip(i + 1));
            }
            total = total + pools[i].weight;
            i += 1;
        }
        let ghost all = pools@;
        let value0 = rand_range(0, total as i64) as u32;
        let mut value = value0;
        let mut k: usize = 0;
        proof {
            assert(all.skip(0) =~= all);
        }
        while k < pools.len()
            invariant
                k <= pools@.len(),
                all == pools@,
                all == self.spec_current().resource_pools@,
                0 < sum_weights(all) < 0x1_0000_0000,
                value <= value0 < sum_weights(all),
                value < sum_weights(all.skip(k as int)),
                weighted_pick(all.skip(k as int), value as int) == weighted_pick(
                    all,
                    value0 as int,
                ),
            decreases pools@.len() - k,
        {
            proof {
                assert(all.skip(k as int).drop_first() =~= all.skip(k + 1));
            }
            let w = pools[k].weight;
            if value < w {
                proof {
                    assert(all.skip(k as int)[0] == all[k as int]);
                    assert(weighted_pick(all.skip(k as int), value as int) == all[
                        k as int
                    ].resource_type);
                    assert(0 <= value0 < sum_weights(all) && pools@[k as int].resource_type
                        == weighted_pick(all, value0 as int));
                }
                return pools[k].resource_type;
            }
            value = value - w;
            k += 1;
        }
        proof {
            assert(sum_weights(all.skip(pools@.len() as int)) == 0);
            assert(false);
        }
        pools[0].resource_type
    }

    /// Bounded rejection sampling for a new node position: up to 100 draws
    /// from the margin-inset rectangle, accepted only inside the island
    /// interior and separated from every existing node. `None` means this
    /// spawn cycle is skipped; it is never an error.
    pub fn find_spawn_position(
        &self,
        existing_positions: &[(i32, i32)],
        width: i32,
        height: i32,
    ) -> (r: Option<(i32, i32)>)
        requires
            9 <= width <= 1000,
            9 <= height <= 1000,
            forall|k: int|
                0 <= k < existing_positions@.len() ==> -0x10_0000
                    <= (#[trigger] existing_positions@[k]).0 <= 0x10_0000 && -0x10_0000
                    <= existing_positions@[k].1 <= 0x10_0000,
        ensures
            match r {
                Some(p) => {
                    &&& 4 <= p.0 < width - 4
                    &&& 4 <= p.1 < height - 4
                    &&& inside_island(p.0 as int, p.1 as int, width as int, height as int)
                    &&& forall|k: int|
                        0 <= k < existing_positions@.len() ==> separated(
                            p.0 as int,
                            p.1 as int,
                            (#[trigger] existing_positions@[k]).0 as int,
                            existing_positions@[k].1 as int,
                        )
                },
                None => true,
            },
    {
        let mut attempts: u32 = 0;
        while attempts < 100
            invariant
                9 <= width <= 1000,
                9 <= height <= 1000,
                forall|k: int|
                    0 <= k < existing_positions@.len() ==> -0x10_0000
                        <= (#[trigger] existing_positions@[k]).0 <= 0x10_0000 && -0x10_0000
                        <= existing_positions@[k].1 <= 0x10_0000,
            decreases 100 - attempts,
        {
            let x = rand_range(4, (width - 4) as i64) as i32;
            let y = rand_range(4, (height - 4) as i64) as i32;

            if point_inside_island(x, y, width, height) {
                let mut all_far: bool = true;
                let mut k: usize = 0;
                while k < existing_positions.len()
                    invariant
                        0 <= x < width <= 1000,
                        0 <= y < height <= 1000,
                        forall|j: int|
                            0 <= j < existing_positions@.len() ==> -0x10_0000
                                <= (#[trigger] existing_positions@[j]).0 <= 0x10_0000 && -0x10_0000
                                <= existing_positions@[j].1 <= 0x10_0000,
                        k <= existing_positions@.len(),
                        all_far ==> forall|j: int|
                            0 <= j < k ==> separated(
                                x as int,
                                y as int,
                                (#[trigger] existing_positions@[j]).0 as int,
                                existing_positions@[j].1 as int,
                            ),
                    decreases existing_positions@.len() - k,
                {
                    let (ex, ey) = existing_positions[k];
                    if !(abs_i64(x as i64 - ex as i64) > 6 || abs_i64(y as i64 - ey as i64) > 4) {
                        all_far = false;
                    }
                    k += 1;
                }
                if all_far {
                    return Some((x, y));
                }
            }
            attempts += 1;
        }
        None
    }
}

proof fn lemma_sum_weights_nonneg(pools: Seq<ResourcePool>)
    ensures
        0 <= sum_weights(pools),
    decreases pools.len(),
{
    if pools.len() > 0 {
        lemma_sum_weights_nonneg(pools.drop_first());
    }
}

fn abs_i64(v: i64) -> (r: i64)
    requires
        -0x1000_0000 <= v <= 0x1000_0000,
    ensures
        r == abs_int(v as int),
{
    if v < 0 {
        -v
    } else {
        v
    }
}

/// The exact integer form of the elliptical containment test.
fn point_inside_island(x: i32, y: i32, width: i32, height: i32) -> (r: bool)
    requires
        9 <= width <= 1000,
        9 <= height <= 1000,
        0 <= x < width,
        0 <= y < height,
    ensures
        r == inside_island(x as int, y as int, width as int, height as int),
{
    let cx = (width / 2) as i64;
    let cy = (height / 2) as i64;
    let rx = ((width * 3) / 5) as i64;
    let ry = ((height * 3) / 5) as i64;
    let dx = x as i64 - cx;
    let dy = y as i64 - cy;
    proof {
        assert(forall|a: int, b: int|
            -1000 <= a <= 1000 && 0 <= b <= 600 ==> -600000 <= #[trigger] (a * b) <= 600000)
            by (nonlinear_arith);
        assert(forall|a: int|
            -600000 <= a <= 600000 ==> 0 <= #[trigger] (a * a) <= 360000000000)
            by (nonlinear_arith);
    }
    let dxr = dx * ry;
    let dyr = dy * rx;
    let rr = rx * ry;
    let lhs = 100 * (dxr * dxr) + 100 * (dyr * dyr);
    let rhs = 81 * (rr * rr);
    lhs <= rhs
}

} // verus!
