//! The per-keystroke orchestrator: every live resource node runs its own
//! typing-progress machine, a matching keystroke rebuilds the obstacle grid,
//! plans a route to the node's access coordinate and advances the player one
//! step, and a finished word within harvest range harvests the node.

use vstd::prelude::*;
use crate::ascii_objects::{lookup, standard_glyph, ResourceObjects};
use crate::clock::now_millis;
use crate::crafting::{is_prefix, CraftingManager};
use crate::islands::{inside_island, separated, IslandManager};
use crate::pathfinding::{adjacent, in_bounds, reachable, spec_manhattan, valid_path, Grid, Position};
use crate::resource_types::ResourceType;
use crate::rng::rand_range;
use crate::save_system::SaveData;
use crate::word_lists::{WordDifficulty, WordList};

verus! {

use vstd::string::StrSliceExecFns;
use vstd::string::StringExecFns;

/// The access coordinate of a node anchored at `p`: the bottom of the trunk,
/// two cells right and three cells down of the anchor, as the standard glyph
/// footprint fixes it.
pub open spec fn access_of(p: Position) -> Position {
    Position { x: (p.x + 2) as i32, y: (p.y + 3) as i32 }
}

/// Whether `p` lies in the 4-by-4 glyph rectangle anchored at `anchor`.
pub open spec fn footprint_cell(anchor: Position, p: Position) -> bool {
    anchor.x <= p.x < anchor.x + 4 && anchor.y <= p.y < anchor.y + 4
}

/// Node `i` may be harvested: the whole word is typed and the player stands
/// within harvest range (Manhattan distance at most 2) of the node's access
/// coordinate.
pub open spec fn harvestable(g: Game, i: int) -> bool {
    &&& 0 <= i < g.resources@.len()
    &&& spec_manhattan(g.player.position, access_of(g.resources@[i].position)) <= 2
    &&& g.resources@[i].current_input@ == g.resources@[i].craft_sentence@
}

/// The first harvestable node at or after index `i`, or -1.
pub open spec fn first_harvestable_from(g: Game, i: int) -> int
    decreases g.resources@.len() - i
        when 0 <= i <= g.resources@.len()
{
    if i >= g.resources@.len() {
        -1
    } else if harvestable(g, i) {
        i
    } else {
        first_harvestable_from(g, i + 1)
    }
}

/// A harvestable node that no earlier harvestable one precedes is the first.
proof fn lemma_first_harvestable_step(g: Game, j: int, a: int)
    requires
        0 <= j <= a,
        harvestable(g, a),
        forall|k: int| j <= k < a ==> !harvestable(g, k),
    ensures
        first_harvestable_from(g, j) == a,
    decreases a - j,
{
    if j < a {
        lemma_first_harvestable_step(g, j + 1, a);
    }
}

/// Whether a keystroke advances a node's typing machine: the first letter of
/// its word when nothing is typed yet, the next expected letter otherwise.
pub open spec fn node_accepts(node: Resource, c: char) -> bool {
    if node.current_input@.len() == 0 {
        node.craft_sentence@.len() > 0 && node.craft_sentence@[0] == c
    } else {
        node.current_input@.len() < node.craft_sentence@.len()
            && node.craft_sentence@[node.current_input@.len() as int] == c
    }
}

/// Whether a keystroke finishes a node's word.
pub open spec fn node_completes(node: Resource, c: char) -> bool {
    node_accepts(node, c) && node.current_input@.len() + 1 == node.craft_sentence@.len()
}

/// No live node's typing machine advances on this keystroke.
pub open spec fn no_node_accepts(g: Game, c: char) -> bool {
    forall|i: int| 0 <= i < g.resources@.len() ==> !node_accepts(#[trigger] g.resources@[i], c)
}

/// No live node's word finishes on this keystroke.
pub open spec fn no_node_completes(g: Game, c: char) -> bool {
    forall|i: int| 0 <= i < g.resources@.len() ==> !node_completes(#[trigger] g.resources@[i], c)
}

/// Exactly node `a` advances on this keystroke.
pub open spec fn exactly_one_accepts(g: Game, c: char, a: int) -> bool {
    &&& 0 <= a < g.resources@.len()
    &&& node_accepts(g.resources@[a], c)
    &&& forall|j: int|
        0 <= j < g.resources@.len() && j != a ==> !node_accepts(#[trigger] g.resources@[j], c)
}

/// The setting of the step-quantization law: exactly node `a` advances, the
/// keystroke does not finish its word (a finishing stroke may take an extra
/// catch-up step), and the node's assigned route — if any — still starts
/// beside the player.
pub open spec fn lone_acceptor_ready(g: Game, c: char, a: int) -> bool {
    &&& exactly_one_accepts(g, c, a)
    &&& !node_completes(g.resources@[a], c)
    &&& (g.resources@[a].path@.len() == 0 || adjacent(g.player.position, g.resources@[a].path@[0]))
}

/// The fields of a node a keystroke pass never changes: everything but the
/// typing progress, the assigned route, and the word timer.
pub open spec fn same_node_core(a: Resource, b: Resource) -> bool {
    &&& a.position == b.position
    &&& a.resource_type == b.resource_type
    &&& a.craft_sentence@ == b.craft_sentence@
    &&& a.next_craft_sentence@ == b.next_craft_sentence@
    &&& a.harvests_remaining == b.harvests_remaining
    &&& a.max_harvests == b.max_harvests
}

/// `b` is `a` after a wrong-letter reset: the attempt abandoned, the typing
/// progress and the assigned route cleared, the word timer stopped, and
/// nothing else touched.
pub open spec fn reset_of(a: Resource, b: Resource) -> bool {
    &&& same_node_core(a, b)
    &&& b.current_input@.len() == 0
    &&& b.path@.len() == 0
    &&& b.word_start_time is None
}

/// `b` is `a` either reset by a wrong letter (it had typing progress) or
/// untouched (it was idle).
pub open spec fn wrong_or_idle(a: Resource, b: Resource) -> bool {
    &&& (a.current_input@.len() > 0 ==> reset_of(a, b))
    &&& (a.current_input@.len() == 0 ==> b == a)
}

/// `b` is `a` with exactly the typing progress extended by one character of
/// the target word and nothing else of the node changed.
pub open spec fn advanced_input(a: Resource, b: Resource) -> bool {
    same_node_core(a, b) && b.current_input@ == a.craft_sentence@.subrange(
        0,
        a.current_input@.len() as int + 1,
    )
}

/// The blocked set the per-attempt rebuild produces when node `target` is
/// approached: every other node's footprint, minus the target's access
/// coordinate.
pub open spec fn rebuilt_blocked(resources: Seq<Resource>, target: int, p: Position) -> bool {
    p != access_of(resources[target].position) && exists|j: int|
        0 <= j < resources.len() && j != target && footprint_cell(
            (#[trigger] resources[j]).position,
            p,
        )
}

/// Where the player stands after consuming one step of a node's stored
/// route: its first cell, or in place when the route is empty.
pub open spec fn stepped_position(node: Resource, player_pos: Position) -> Position {
    if node.path@.len() > 0 {
        node.path@[0]
    } else {
        player_pos
    }
}

/// The rebuilt blocked set depends only on the nodes' anchors.
proof fn lemma_rebuilt_blocked_positions(r1: Seq<Resource>, r2: Seq<Resource>, target: int)
    requires
        r1.len() == r2.len(),
        0 <= target < r1.len(),
        forall|k: int| 0 <= k < r1.len() ==> (#[trigger] r1[k]).position == r2[k].position,
    ensures
        forall|p: Position| rebuilt_blocked(r1, target, p) <==> rebuilt_blocked(r2, target, p),
{
    assert forall|p: Position| rebuilt_blocked(r1, target, p) <==> rebuilt_blocked(
        r2,
        target,
        p,
    ) by {
        if rebuilt_blocked(r1, target, p) {
            let j = choose|j: int|
                0 <= j < r1.len() && j != target && footprint_cell(
                    (#[trigger] r1[j]).position,
                    p,
                );
            assert(footprint_cell(r2[j].position, p));
        }
        if rebuilt_blocked(r2, target, p) {
            let j = choose|j: int|
                0 <= j < r2.len() && j != target && footprint_cell(
                    (#[trigger] r2[j]).position,
                    p,
                );
            assert(footprint_cell(r1[j].position, p));
        }
    }
}

/// The route planning outcome of a word start: either a fresh valid route
/// to the acceptor's access coordinate was stored (and its first step
/// taken), or the access coordinate is unreachable on the rebuilt grid and
/// the node's previously stored route was consumed instead.
pub open spec fn planned_route_ok(g_pre: Game, g_post: Game, aa: int, route: Seq<Position>) -> bool {
    let node = g_pre.resources@[aa];
    let acc = access_of(node.position);
    &&& (valid_path(g_post.grid, g_pre.player.position, acc, route) || (!reachable(
        g_post.grid,
        g_pre.player.position,
        acc,
    ) && route == node.path@))
    &&& (route.len() == 0 ==> g_post.player.position == g_pre.player.position
        && g_post.resources@[aa].path@.len() == 0)
    &&& (route.len() > 0 ==> g_post.player.position == route[0] && g_post.resources@[aa].path@
        == route.drop_first())
}

/// Some node is the lone acceptor of this keystroke.
pub open spec fn some_lone_acceptor(g: Game, c: char) -> bool {
    exists|a: int| exactly_one_accepts(g, c, a)
}

/// The index of the lone acceptor.
pub open spec fn the_acceptor(g: Game, c: char) -> int {
    choose|a: int| exactly_one_accepts(g, c, a)
}

/// A lone acceptor is the acceptor: `the_acceptor` names any node shown to
/// be the only one that advances on the keystroke.
pub proof fn lemma_the_acceptor_is(g: Game, c: char, a: int)
    requires
        exactly_one_accepts(g, c, a),
    ensures
        some_lone_acceptor(g, c),
        the_acceptor(g, c) == a,
{
    assert(some_lone_acceptor(g, c));
    assert(exactly_one_accepts(g, c, the_acceptor(g, c)));
    if the_acceptor(g, c) != a {
        assert(!node_accepts(g.resources@[a], c));
    }
}

/// Whether a keystroke is the next letter of a recipe's craft sentence.
pub open spec fn recipe_accepts(r: crate::crafting::Recipe, c: char) -> bool {
    r.current_input@.len() < r.craft_sentence@.len() && r.craft_sentence@[r.current_input@.len() as int]
        == c
}

/// The first recipe (at or after `i`) that is unlocked, affordable with the
/// given totals, and advanced by this keystroke; -1 when there is none.
pub open spec fn first_engaged_recipe_from(
    cm: CraftingManager,
    wood: u32,
    copper: u32,
    c: char,
    i: int,
) -> int
    decreases cm.spec_recipes().len() - i
        when 0 <= i <= cm.spec_recipes().len()
{
    if i >= cm.spec_recipes().len() {
        -1
    } else if cm.spec_unlocked_at(i) && CraftingManager::spec_affordable(
        cm.spec_recipes()[i],
        wood,
        copper,
    ) && recipe_accepts(cm.spec_recipes()[i], c) {
        i
    } else {
        first_engaged_recipe_from(cm, wood, copper, c, i + 1)
    }
}

/// Whether the crafting pass claims this keystroke: some unlocked,
/// affordable recipe advances on it, which suppresses resource gathering.
pub open spec fn crafting_engages(g: Game, c: char) -> bool {
    first_engaged_recipe_from(g.crafting, g.player.wood, g.player.copper, c, 0) >= 0
}

/// The word difficulty tier a resource kind draws from.
pub open spec fn spec_difficulty_of(t: ResourceType) -> WordDifficulty {
    match t {
        ResourceType::Wood => WordDifficulty::Easy,
        ResourceType::Copper => WordDifficulty::Medium,
    }
}

/// What every newly spawned node looks like: nothing typed, no route, full
/// yield within the kind's base range, and a word pair drawn from the
/// kind's difficulty pool.
pub open spec fn freshly_spawned(words: WordList, r: Resource) -> bool {
    &&& r.current_input@.len() == 0
    &&& r.path@.len() == 0
    &&& r.word_start_time is None
    &&& r.harvests_remaining == r.max_harvests
    &&& (exists|k: int|
        0 <= k < words.pool(spec_difficulty_of(r.resource_type)).len() && r.craft_sentence@ == (
        #[trigger] words.pool(spec_difficulty_of(r.resource_type))[k])@)
    &&& (exists|k: int|
        0 <= k < words.pool(spec_difficulty_of(r.resource_type)).len()
            && r.next_craft_sentence@ == (#[trigger] words.pool(
            spec_difficulty_of(r.resource_type),
        )[k])@)
    &&& (r.resource_type == ResourceType::Wood ==> 6 <= r.max_harvests <= 10)
    &&& (r.resource_type == ResourceType::Copper ==> 4 <= r.max_harvests <= 7)
}

/// One harvestable node: its place on the grid, its typing progress, its
/// remaining yield, and the route assigned to the player while this node's
/// word is being typed.
pub struct Resource {
    pub position: Position,
    pub resource_type: ResourceType,
    /// The word currently being typed for this node.
    pub craft_sentence: String,
    /// The word that will replace it on completion.
    pub next_craft_sentence: String,
    /// The prefix of `craft_sentence` typed so far.
    pub current_input: String,
    pub harvests_remaining: u32,
    pub max_harvests: u32,
    /// The remaining route to this node's access coordinate.
    pub path: Vec<Position>,
    /// When this node's word was started, in clock milliseconds.
    pub word_start_time: Option<u64>,
}

/// The typing progress is a prefix of the target word, words have at least
/// two characters (so no word completes on the keystroke that starts it),
/// yield stays within its maximum and a live node always has some
/// left, the anchor lies in the spawnable band (so the whole footprint and
/// the access coordinate stay on the grid), and every assigned route cell is
/// on the grid.
pub open spec fn resource_wf(r: Resource) -> bool {
    &&& is_prefix(r.current_input@, r.craft_sentence@)
    &&& r.craft_sentence@.len() > 1
    &&& r.next_craft_sentence@.len() > 1
    &&& 1 <= r.harvests_remaining <= r.max_harvests
    &&& 4 <= r.position.x < 76
    &&& 4 <= r.position.y < 20
    &&& forall|i: int| 0 <= i < r.path@.len() ==> in_bounds(#[trigger] r.path@[i])
}

/// The player: position on the grid, an optional route of their own, and the
/// gathered resource totals.
pub struct Player {
    pub position: Position,
    pub path: Vec<Position>,
    pub target: Option<Position>,
    pub wood: u32,
    pub copper: u32,
}

impl Player {
    pub fn new(x: i32, y: i32) -> (r: Self)
        ensures
            r.position.x == x,
            r.position.y == y,
            r.path@.len() == 0,
            r.target is None,
            r.wood == 0,
            r.copper == 0,
    {
        Player {
            position: Position::new(x, y),
            path: Vec::new(),
            target: None,
            wood: 0,
            copper: 0,
        }
    }

    /// Consumes one step of the player's own route: the position becomes the
    /// route's first cell and the route shrinks by one; an empty route moves
    /// nothing.
    pub fn move_along_path(&mut self)
        ensures
            old(self).path@.len() == 0 ==> *final(self) == *old(self),
            old(self).path@.len() > 0 ==> final(self).position == old(self).path@[0]
                && final(self).path@ == old(self).path@.drop_first()
                && final(self).target == old(self).target
                && final(self).wood == old(self).wood
                && final(self).copper == old(self).copper,
    {
        if self.path.len() > 0 {
            let step = self.path.remove(0);
            self.position = step;
        }
    }
}

/// The one owned aggregate of all mutable game state: exactly one logical
/// owner, mutated in place, one keystroke at a time.
pub struct Game {
    pub player: Player,
    pub resources: Vec<Resource>,
    pub grid: Grid,
    pub resource_objects: ResourceObjects,
    pub island_manager: IslandManager,
    pub crafting: CraftingManager,
    pub word_list: WordList,
}

impl Game {
    /// Every live node is sound and any two are well separated; the player
    /// stands on the grid; every collaborator is sound; and the glyph
    /// catalog supplies the standard footprint for both node kinds.
    pub open spec fn wf(self) -> bool {
        &&& self.resources@.len() <= 0x1000
        &&& forall|i: int| 0 <= i < self.resources@.len() ==> resource_wf(#[trigger] self.resources@[i])
        &&& forall|i: int, j: int|
            0 <= i < j < self.resources@.len() ==> separated(
                (#[trigger] self.resources@[i]).position.x as int,
                self.resources@[i].position.y as int,
                (#[trigger] self.resources@[j]).position.x as int,
                self.resources@[j].position.y as int,
            )
        &&& in_bounds(self.player.position)
        &&& (forall|i: int|
            0 <= i < self.player.path@.len() ==> in_bounds(#[trigger] self.player.path@[i]))
        &&& self.island_manager.wf()
        &&& self.word_list.wf()
        &&& self.crafting.wf()
        &&& self.resource_objects.wf()
        &&& lookup(self.resource_objects.entries(), "tree"@) matches Some(o) && standard_glyph(o)
        &&& lookup(self.resource_objects.entries(), "copper"@) matches Some(o) && standard_glyph(
            o,
        )
    }

    /// The exec access coordinate of node `i`, through the glyph catalog.
    fn access_coordinate(&self, i: usize) -> (r: Position)
        requires
            self.wf(),
            i < self.resources@.len(),
        ensures
            r == access_of(self.resources@[i as int].position),
            in_bounds(r),
    {
        let res = &self.resources[i];
        let obj = match res.resource_type {
            ResourceType::Wood => self.resource_objects.get("tree"),
            ResourceType::Copper => self.resource_objects.get("copper"),
        };
        let obj = obj.unwrap();
        let (px, py) = obj.get_path_point(res.position.x as usize, res.position.y as usize);
        Position::new(px as i32, py as i32)
    }

    /// A fresh node at a spawn position: random kind by pool weight, random
    /// yield in the kind's range, and a word pair drawn from the kind's
    /// difficulty tier.
    fn create_resource(&self, x: i32, y: i32) -> (r: Resource)
        requires
            self.wf(),
            4 <= x < 76,
            4 <= y < 20,
        ensures
            resource_wf(r),
            freshly_spawned(self.word_list, r),
            r.position.x == x,
            r.position.y == y,
    {
        let resource_type = self.island_manager.get_random_resource_type();
        let difficulty = match resource_type {
            ResourceType::Wood => WordDifficulty::Easy,
            ResourceType::Copper => WordDifficulty::Medium,
        };
        let (min_harvests, max_harvests_bound) = resource_type.get_base_harvests();
        let max_harvests = rand_range(min_harvests as i64, max_harvests_bound as i64 + 1) as u32;
        let word = self.word_list.get_random_word(difficulty);
        let next_word = self.word_list.get_random_word(difficulty);
        let r = Resource {
            position: Position::new(x, y),
            resource_type,
            craft_sentence: word,
            next_craft_sentence: next_word,
            current_input: String::new(),
            harvests_remaining: max_harvests,
            max_harvests,
            path: Vec::new(),
            word_start_time: None,
        };
        proof {
            assert(r.current_input@ =~= r.craft_sentence@.subrange(0, 0));
        }
        r
    }

    /// The anchors of all live nodes, as plain pairs for the placement
    /// algorithm.
    fn node_positions(&self) -> (r: Vec<(i32, i32)>)
        requires
            self.wf(),
        ensures
            r@.len() == self.resources@.len(),
            forall|k: int|
                0 <= k < r@.len() ==> (#[trigger] r@[k]).0 == self.resources@[k].position.x
                    && r@[k].1 == self.resources@[k].position.y,
    {
        let mut r: Vec<(i32, i32)> = Vec::new();
        let mut i: usize = 0;
        while i < self.resources.len()
            invariant
                i <= self.resources@.len(),
                r@.len() == i,
                forall|k: int|
                    0 <= k < i ==> (#[trigger] r@[k]).0 == self.resources@[k].position.x && r@[k].1
                        == self.resources@[k].position.y,
            decreases self.resources@.len() - i,
        {
            r.push((self.resources[i].position.x, self.resources[i].position.y));
            i += 1;
        }
        r
    }

    /// Rebuilds the obstacle grid for a harvest attempt on node
    /// `target_idx`: every other live node's whole footprint is blocked,
    /// except that the target's access coordinate always stays open — even
    /// where another footprint covers it. Nothing outside a footprint is
    /// ever blocked.
    pub fn rebuild_obstacles(&mut self, target_idx: usize)
        requires
            old(self).wf(),
            target_idx < old(self).resources@.len(),
        ensures
            final(self).wf(),
            final(self).player == old(self).player,
            final(self).resources == old(self).resources,
            final(self).resource_objects == old(self).resource_objects,
            final(self).island_manager == old(self).island_manager,
            final(self).crafting == old(self).crafting,
            final(self).word_list == old(self).word_list,
            forall|p: Position|
                final(self).grid.is_blocked(p) <==> rebuilt_blocked(
                    old(self).resources@,
                    target_idx as int,
                    p,
                ),
            !final(self).grid.is_blocked(
                access_of(old(self).resources@[target_idx as int].position),
            ),
    {
        let target_pos = self.access_coordinate(target_idx);
        self.grid.clear_obstacles();
        let n = self.resources.len();
        let mut j: usize = 0;
        while j < n
            invariant
                self.wf(),
                *self == (Game { grid: self.grid, ..*old(self) }),
                n == self.resources@.len(),
                target_idx < n,
                j <= n,
                target_pos == access_of(self.resources@[target_idx as int].position),
                forall|p: Position|
                    self.grid.is_blocked(p) <==> (p != target_pos && exists|jj: int|
                        0 <= jj < j && jj != target_idx && footprint_cell(
                            (#[trigger] self.resources@[jj]).position,
                            p,
                        )),
            decreases n - j,
        {
            if j != target_idx {
                let anchor = Position::new(self.resources[j].position.x, self.resources[j].position.y);
                let mut dy: usize = 0;
                while dy < 4
                    invariant
                        self.wf(),
                        *self == (Game { grid: self.grid, ..*old(self) }),
                        n == self.resources@.len(),
                        target_idx < n,
                        j < n,
                        j != target_idx,
                        dy <= 4,
                        anchor == self.resources@[j as int].position,
                        target_pos == access_of(self.resources@[target_idx as int].position),
                        forall|p: Position|
                            self.grid.is_blocked(p) <==> (p != target_pos && ((exists|jj: int|
                                0 <= jj < j && jj != target_idx && footprint_cell(
                                    (#[trigger] self.resources@[jj]).position,
                                    p,
                                )) || (anchor.x <= p.x < anchor.x + 4 && anchor.y <= p.y
                                < anchor.y + dy))),
                    decreases 4 - dy,
                {
                    let mut dx: usize = 0;
                    while dx < 4
                        invariant
                            self.wf(),
                            *self == (Game { grid: self.grid, ..*old(self) }),
                            n == self.resources@.len(),
                            target_idx < n,
                            j < n,
                            j != target_idx,
                            dy < 4,
                            dx <= 4,
                            anchor == self.resources@[j as int].position,
                            4 <= anchor.x < 76 && 4 <= anchor.y < 20,
                            target_pos == access_of(self.resources@[target_idx as int].position),
                            forall|p: Position|
                                self.grid.is_blocked(p) <==> (p != target_pos && ((exists|jj: int|
                                    0 <= jj < j && jj != target_idx && footprint_cell(
                                        (#[trigger] self.resources@[jj]).position,
                                        p,
                                    )) || (anchor.x <= p.x < anchor.x + 4 && anchor.y <= p.y
                                    < anchor.y + dy) || (p.y == anchor.y + dy && anchor.x <= p.x
                                    < anchor.x + dx))),
                        decreases 4 - dx,
                    {
                        let cell = Position::new(
                            anchor.x + (dx as i32),
                            anchor.y + (dy as i32),
                        );
                        if !(cell.x == target_pos.x && cell.y == target_pos.y) {
                            self.grid.add_obstacle(cell);
                        }
                        dx += 1;
                    }
                    dy += 1;
                }
                proof {
                    assert forall|p: Position|
                        self.grid.is_blocked(p) implies (p != target_pos && ((exists|jj: int|
                        0 <= jj < j + 1 && jj != target_idx && footprint_cell(
                            (#[trigger] self.resources@[jj]).position,
                            p,
                        )))) by {
                        if footprint_cell(anchor, p) {
                            assert(footprint_cell(self.resources@[j as int].position, p));
                        }
                    }
                    assert forall|p: Position|
                        (p != target_pos && (exists|jj: int|
                            0 <= jj < j + 1 && jj != target_idx && footprint_cell(
                                (#[trigger] self.resources@[jj]).position,
                                p,
                            ))) implies self.grid.is_blocked(p) by {
                        let jj = choose|jj: int|
                            0 <= jj < j + 1 && jj != target_idx && footprint_cell(
                                (#[trigger] self.resources@[jj]).position,
                                p,
                            );
                        if jj == j {
                            assert(anchor.x <= p.x < anchor.x + 4 && anchor.y <= p.y < anchor.y
                                + 4);
                        }
                    }
                }
            } else {
                proof {
                    assert forall|p: Position|
                        self.grid.is_blocked(p) <==> (p != target_pos && exists|jj: int|
                        0 <= jj < j + 1 && jj != target_idx && footprint_cell(
                            (#[trigger] self.resources@[jj]).position,
                            p,
                        )) by {
                        if p != target_pos {
                            if exists|jj: int|
                                0 <= jj < j + 1 && jj != target_idx && footprint_cell(
                                    (#[trigger] self.resources@[jj]).position,
                                    p,
                                ) {
                                let jj = choose|jj: int|
                                    0 <= jj < j + 1 && jj != target_idx && footprint_cell(
                                        (#[trigger] self.resources@[jj]).position,
                                        p,
                                    );
                                assert(jj < j);
                            }
                        }
                    }
                }
            }
            j += 1;
        }
    }

    /// A word for a node of the given kind, drawn from the kind's
    /// difficulty tier.
    pub fn get_next_word(&self, resource_type: ResourceType) -> (r: String)
        requires
            self.wf(),
        ensures
            exists|k: int|
                0 <= k < self.word_list.pool(spec_difficulty_of(resource_type)).len() && r@ == (
                #[trigger] self.word_list.pool(spec_difficulty_of(resource_type))[k])@,
            r@.len() > 1,
    {
        let difficulty = match resource_type {
            ResourceType::Wood => WordDifficulty::Easy,
            ResourceType::Copper => WordDifficulty::Medium,
        };
        self.word_list.get_random_word(difficulty)
    }

    /// Rotates a node's word pair after a completion: the finished word is
    /// replaced by the pre-generated next word, a fresh next word is drawn,
    /// and the typing progress is cleared. An index that no longer points at
    /// a live node is a no-op, never an error.
    pub fn replace_word(&mut self, idx: usize)
        requires
            old(self).wf(),
        ensures
            final(self).wf(),
            idx >= old(self).resources@.len() ==> *final(self) == *old(self),
            idx < old(self).resources@.len() ==> {
                let node0 = old(self).resources@[idx as int];
                let node1 = final(self).resources@[idx as int];
                &&& final(self).player == old(self).player
                &&& final(self).crafting == old(self).crafting
                &&& final(self).grid == old(self).grid
                &&& final(self).island_manager == old(self).island_manager
                &&& final(self).word_list == old(self).word_list
                &&& final(self).resource_objects == old(self).resource_objects
                &&& final(self).resources@.len() == old(self).resources@.len()
                &&& (forall|k: int|
                    0 <= k < old(self).resources@.len() && k != idx ==> #[trigger] final(self).resources@[k] == old(self).resources@[k])
                &&& node1.craft_sentence@ == node0.next_craft_sentence@
                &&& node1.current_input@.len() == 0
                &&& node1.next_craft_sentence@.len() > 1
                &&& exists|k: int|
                    0 <= k < old(self).word_list.pool(spec_difficulty_of(node0.resource_type)).len()
                        && node1.next_craft_sentence@ == (#[trigger] old(self).word_list.pool(
                        spec_difficulty_of(node0.resource_type),
                    )[k])@
                &&& node1.position == node0.position
                &&& node1.resource_type == node0.resource_type
                &&& node1.harvests_remaining == node0.harvests_remaining
                &&& node1.max_harvests == node0.max_harvests
                &&& node1.path == node0.path
            },
    {
        if idx >= self.resources.len() {
            return ;
        }
        let resource_type = self.resources[idx].resource_type;
        let new_next = self.get_next_word(resource_type);
        let promoted = self.resources[idx].next_craft_sentence.clone();
        let rec = &mut self.resources[idx];
        rec.craft_sentence = promoted;
        rec.next_craft_sentence = new_next;
        rec.current_input = String::new();
        proof {
            let node1 = self.resources@[idx as int];
            assert(node1.current_input@ =~= node1.craft_sentence@.subrange(0, 0));
            assert(resource_wf(node1));
            assert forall|k: int|
                0 <= k < self.resources@.len() implies resource_wf(
                #[trigger] self.resources@[k],
            ) by {
                if k != idx {
                    assert(self.resources@[k] == old(self).resources@[k]);
                }
            }
        }
    }

    /// Plans a route for the player to an arbitrary target: rebuilds the
    /// obstacle set from every node's footprint (each node's own access
    /// coordinate left open) and assigns the path when one exists.
    /// Plans a route for the player to an arbitrary target: rebuilds the
    /// obstacle set from every node's footprint (each node's own access
    /// coordinate left open, nothing else ever blocked), and stores the route
    /// and the target exactly when the target is reachable on that grid.
    pub fn set_player_target(&mut self, target: Position)
        requires
            old(self).wf(),
            in_bounds(target),
        ensures
            final(self).wf(),
            final(self).resources == old(self).resources,
            final(self).crafting == old(self).crafting,
            final(self).island_manager == old(self).island_manager,
            final(self).word_list == old(self).word_list,
            final(self).resource_objects == old(self).resource_objects,
            final(self).player.position == old(self).player.position,
            final(self).player.wood == old(self).player.wood,
            final(self).player.copper == old(self).player.copper,
            forall|p: Position|
                final(self).grid.is_blocked(p) <==> exists|j: int|
                    0 <= j < old(self).resources@.len() && footprint_cell(
                        (#[trigger] old(self).resources@[j]).position,
                        p,
                    ) && p != access_of(old(self).resources@[j].position),
            reachable(final(self).grid, old(self).player.position, target) ==> valid_path(
                final(self).grid,
                old(self).player.position,
                target,
                final(self).player.path@,
            ) && final(self).player.target == Some(target),
            !reachable(final(self).grid, old(self).player.position, target) ==> final(self).player.path == old(self).player.path && final(self).player.target == old(self).player.target,
    {
        self.grid.clear_obstacles();
        let n = self.resources.len();
        let mut j: usize = 0;
        while j < n
            invariant
                self.wf(),
                *self == (Game { grid: self.grid, ..*old(self) }),
                n == self.resources@.len(),
                j <= n,
                forall|p: Position|
                    self.grid.is_blocked(p) <==> exists|jj: int|
                        0 <= jj < j && footprint_cell(
                            (#[trigger] self.resources@[jj]).position,
                            p,
                        ) && p != access_of(self.resources@[jj].position),
            decreases n - j,
        {
            let path_pos = self.access_coordinate(j);
            let anchor = Position::new(self.resources[j].position.x, self.resources[j].position.y);
            proof {
                assert(4 <= anchor.x < 76 && 4 <= anchor.y < 20);
            }
            let mut dy: usize = 0;
            while dy < 4
                invariant
                    self.wf(),
                    *self == (Game { grid: self.grid, ..*old(self) }),
                    n == self.resources@.len(),
                    j < n,
                    dy <= 4,
                    anchor == self.resources@[j as int].position,
                    path_pos == access_of(self.resources@[j as int].position),
                    4 <= anchor.x < 76 && 4 <= anchor.y < 20,
                    forall|p: Position|
                        self.grid.is_blocked(p) <==> ((exists|jj: int|
                            0 <= jj < j && footprint_cell(
                                (#[trigger] self.resources@[jj]).position,
                                p,
                            ) && p != access_of(self.resources@[jj].position)) || (anchor.x <= p.x
                            < anchor.x + 4 && anchor.y <= p.y < anchor.y + dy && p != path_pos)),
                decreases 4 - dy,
            {
                let mut dx: usize = 0;
                while dx < 4
                    invariant
                        self.wf(),
                        *self == (Game { grid: self.grid, ..*old(self) }),
                        n == self.resources@.len(),
                        j < n,
                        dy < 4,
                        dx <= 4,
                        anchor == self.resources@[j as int].position,
                        path_pos == access_of(self.resources@[j as int].position),
                        4 <= anchor.x < 76 && 4 <= anchor.y < 20,
                        forall|p: Position|
                            self.grid.is_blocked(p) <==> ((exists|jj: int|
                                0 <= jj < j && footprint_cell(
                                    (#[trigger] self.resources@[jj]).position,
                                    p,
                                ) && p != access_of(self.resources@[jj].position)) || ((anchor.x
                                <= p.x < anchor.x + 4 && anchor.y <= p.y < anchor.y + dy || (p.y
                                == anchor.y + dy && anchor.x <= p.x < anchor.x + dx)) && p
                                != path_pos)),
                    decreases 4 - dx,
                {
                    let cell = Position::new(anchor.x + (dx as i32), anchor.y + (dy as i32));
                    if !(cell.x == path_pos.x && cell.y == path_pos.y) {
                        self.grid.add_obstacle(cell);
                    }
                    dx += 1;
                }
                dy += 1;
            }
            proof {
                assert forall|p: Position|
                    self.grid.is_blocked(p) implies (exists|jj: int|
                    0 <= jj < j + 1 && footprint_cell(
                        (#[trigger] self.resources@[jj]).position,
                        p,
                    ) && p != access_of(self.resources@[jj].position)) by {
                    if footprint_cell(anchor, p) && p != path_pos {
                        assert(footprint_cell(self.resources@[j as int].position, p));
                    }
                }
                assert forall|p: Position|
                    (exists|jj: int|
                        0 <= jj < j + 1 && footprint_cell(
                            (#[trigger] self.resources@[jj]).position,
                            p,
                        ) && p != access_of(self.resources@[jj].position)) implies self.grid.is_blocked(
                    p,
                ) by {
                    let jj = choose|jj: int|
                        0 <= jj < j + 1 && footprint_cell(
                            (#[trigger] self.resources@[jj]).position,
                            p,
                        ) && p != access_of(self.resources@[jj].position);
                    if jj == j {
                        assert(anchor.x <= p.x < anchor.x + 4 && anchor.y <= p.y < anchor.y + 4);
                    }
                }
            }
            j += 1;
        }
        let maybe_path = self.grid.find_path(
            Position::new(self.player.position.x, self.player.position.y),
            target,
        );
        if let Some(path) = maybe_path {
            self.player.path = path;
            self.player.target = Some(target);
        }
    }

    /// Spawns `count` fresh nodes on an empty island, skipping any cycle
    /// where placement fails: used at game start and after a full clear.
    fn spawn_fresh_nodes(&mut self, count: u32)
        requires
            old(self).wf(),
            old(self).resources@.len() == 0,
            count <= 0x1000,
        ensures
            final(self).wf(),
            final(self).player == old(self).player,
            final(self).crafting == old(self).crafting,
            final(self).grid == old(self).grid,
            final(self).island_manager == old(self).island_manager,
            final(self).word_list == old(self).word_list,
            final(self).resource_objects == old(self).resource_objects,
            final(self).resources@.len() <= count,
            forall|k: int|
                0 <= k < final(self).resources@.len() ==> freshly_spawned(
                    old(self).word_list,
                    #[trigger] final(self).resources@[k],
                ) && inside_island(
                    final(self).resources@[k].position.x as int,
                    final(self).resources@[k].position.y as int,
                    80,
                    24,
                ),
    {
        let mut existing: Vec<(i32, i32)> = Vec::new();
        let mut i: u32 = 0;
        while i < count
            invariant
                self.wf(),
                *self == (Game { resources: self.resources, ..*old(self) }),
                count <= 0x1000,
                i <= count,
                self.resources@.len() <= i,
                existing@.len() == self.resources@.len(),
                forall|k: int|
                    0 <= k < existing@.len() ==> (#[trigger] existing@[k]).0
                        == self.resources@[k].position.x && existing@[k].1
                        == self.resources@[k].position.y,
                forall|k: int|
                    0 <= k < self.resources@.len() ==> freshly_spawned(
                        old(self).word_list,
                        #[trigger] self.resources@[k],
                    ) && inside_island(
                        self.resources@[k].position.x as int,
                        self.resources@[k].position.y as int,
                        80,
                        24,
                    ),
            decreases count - i,
        {
            proof {
                assert forall|k: int|
                    0 <= k < existing@.len() implies -0x10_0000 <= (#[trigger] existing@[k]).0
                    <= 0x10_0000 && -0x10_0000 <= existing@[k].1 <= 0x10_0000 by {
                    assert(resource_wf(self.resources@[k]));
                }
            }
            let placed = self.island_manager.find_spawn_position(existing.as_slice(), 80, 24);
            if let Some((x, y)) = placed {
                existing.push((x, y));
                let res = self.create_resource(x, y);
                self.resources.push(res);
                proof {
                    assert forall|a: int, b: int|
                        0 <= a < b < self.resources@.len() implies separated(
                        (#[trigger] self.resources@[a]).position.x as int,
                        self.resources@[a].position.y as int,
                        (#[trigger] self.resources@[b]).position.x as int,
                        self.resources@[b].position.y as int,
                    ) by {
                        if b == self.resources@.len() - 1 {
                            assert(existing@[a] == (self.resources@[a].position.x, self.resources@[a].position.y));
                        }
                    }
                }
            }
            i += 1;
        }
    }

    /// A fresh game: a new recipe book and word supply, the player at the
    /// center of the island, and half the island's node cap spawned.
    pub fn new() -> (r: Self)
        ensures
            r.wf(),
            r.player.position.x == 40,
            r.player.position.y == 12,
            r.player.wood == 0,
            r.player.copper == 0,
            !r.crafting.spec_has_workbench(),
            r.resources@.len() <= r.island_manager.spec_current().max_nodes / 2,
            forall|k: int|
                0 <= k < r.resources@.len() ==> freshly_spawned(
                    r.word_list,
                    #[trigger] r.resources@[k],
                ) && inside_island(
                    r.resources@[k].position.x as int,
                    r.resources@[k].position.y as int,
                    80,
                    24,
                ),
    {
        let word_list = WordList::new();
        let island_manager = IslandManager::new();
        let resource_objects = ResourceObjects::new();
        let crafting = CraftingManager::new();
        let grid = Grid::new();
        let player = Player::new(40, 12);
        let mut game = Game {
            player,
            resources: Vec::new(),
            grid,
            resource_objects,
            island_manager,
            crafting,
            word_list,
        };
        let initial_nodes = game.island_manager.get_current_island().max_nodes / 2;
        game.spawn_fresh_nodes(initial_nodes);
        let ghost spawned = game.resources@.len();
        let mut i: usize = 0;
        while i < game.resources.len()
            invariant
                game.wf(),
                game.resources@.len() == spawned,
                game.resources@.len() <= game.island_manager.spec_current().max_nodes / 2,
                forall|k: int|
                    0 <= k < game.resources@.len() ==> freshly_spawned(
                        game.word_list,
                        #[trigger] game.resources@[k],
                    ) && inside_island(
                        game.resources@[k].position.x as int,
                        game.resources@[k].position.y as int,
                        80,
                        24,
                    ),
                game.player.position.x == 40,
                game.player.position.y == 12,
                game.player.wood == 0,
                game.player.copper == 0,
                !game.crafting.spec_has_workbench(),
                i <= game.resources@.len(),
            decreases game.resources@.len() - i,
        {
            let anchor = Position::new(
                game.resources[i].position.x,
                game.resources[i].position.y,
            );
            game.grid.add_obstacle(anchor);
            proof {
                assert(game.wf());
            }
            i += 1;
        }
        game
    }

    /// The save snapshot of the current session, stamped with the given
    /// time: exactly the persistence-relevant state. Implausibly large
    /// resource totals are treated as corrupt and produce no snapshot, so a
    /// bad state is never written over a good save.
    pub fn save_snapshot(&self, timestamp: u64) -> (r: Option<SaveData>)
        requires
            self.wf(),
        ensures
            r is Some <==> self.player.wood <= 1000 && self.player.copper <= 1000,
            r matches Some(sd) ==> {
                &&& sd.version == 1
                &&& sd.player_wood == self.player.wood
                &&& sd.player_copper == self.player.copper
                &&& sd.has_workbench == self.crafting.spec_has_workbench()
                &&& sd.completed_items@.len() == self.crafting.spec_completed().len()
                &&& (forall|k: int|
                    0 <= k < sd.completed_items@.len() ==> (#[trigger] sd.completed_items@[k])@
                        == self.crafting.spec_completed()[k]@)
                &&& sd.axe_upgrade_count as int == self.crafting.spec_multiplier(
                    ResourceType::Wood,
                ) - 1
                &&& sd.pickaxe_upgrade_count as int == self.crafting.spec_multiplier(
                    ResourceType::Copper,
                ) - 1
                &&& sd.save_timestamp == timestamp
            },
    {
        if self.player.wood > 1000 || self.player.copper > 1000 {
            return None;
        }
        let completed_src = self.crafting.get_completed_items();
        let mut completed: Vec<String> = Vec::new();
        let mut i: usize = 0;
        while i < completed_src.len()
            invariant
                completed_src@ == self.crafting.spec_completed(),
                i <= completed_src@.len(),
                completed@.len() == i,
                forall|k: int|
                    0 <= k < i ==> (#[trigger] completed@[k])@ == completed_src@[k]@,
            decreases completed_src@.len() - i,
        {
            completed.push(completed_src[i].clone());
            i += 1;
        }
        let axe_multiplier = self.crafting.get_multiplier(&ResourceType::Wood);
        let pickaxe_multiplier = self.crafting.get_multiplier(&ResourceType::Copper);
        Some(
            SaveData {
                version: 1,
                player_wood: self.player.wood,
                player_copper: self.player.copper,
                completed_items: completed,
                has_workbench: self.crafting.workbench_built(),
                axe_upgrade_count: axe_multiplier - 1,
                pickaxe_upgrade_count: pickaxe_multiplier - 1,
                save_timestamp: timestamp,
            },
        )
    }

    /// Spawns one node at a sampled position, if the placement succeeds:
    /// the new node joins the obstacle grid and the live set.
    pub fn spawn_new_resource(&mut self)
        requires
            old(self).wf(),
        ensures
            final(self).wf(),
            final(self).player == old(self).player,
            final(self).crafting == old(self).crafting,
            final(self).island_manager == old(self).island_manager,
            final(self).word_list == old(self).word_list,
            final(self).resource_objects == old(self).resource_objects,
            forall|k: int|
                0 <= k < old(self).resources@.len() ==> #[trigger] final(self).resources@[k] == old(self).resources@[k],
            old(self).resources@.len() <= final(self).resources@.len() <= old(self).resources@.len() + 1,
            final(self).resources@.len() == old(self).resources@.len() + 1 ==> ({
                let nn = final(self).resources@[old(self).resources@.len() as int];
                &&& freshly_spawned(old(self).word_list, nn)
                &&& 4 <= nn.position.x < 76 && 4 <= nn.position.y < 20
                &&& inside_island(nn.position.x as int, nn.position.y as int, 80, 24)
                &&& (forall|k: int|
                    0 <= k < old(self).resources@.len() ==> separated(
                        nn.position.x as int,
                        nn.position.y as int,
                        (#[trigger] old(self).resources@[k]).position.x as int,
                        old(self).resources@[k].position.y as int,
                    ))
            }),
    {
        if self.resources.len() >= 0x1000 {
            return ;
        }
        let existing = self.node_positions();
        proof {
            assert forall|k: int|
                0 <= k < existing@.len() implies -0x10_0000 <= (#[trigger] existing@[k]).0
                <= 0x10_0000 && -0x10_0000 <= existing@[k].1 <= 0x10_0000 by {
                assert(resource_wf(self.resources@[k]));
            }
        }
        let placed = self.island_manager.find_spawn_position(existing.as_slice(), 80, 24);
        if let Some((x, y)) = placed {
            let res = self.create_resource(x, y);
            self.grid.add_obstacle(Position::new(x, y));
            self.resources.push(res);
            proof {
                assert forall|a: int, b: int|
                    0 <= a < b < self.resources@.len() implies separated(
                    (#[trigger] self.resources@[a]).position.x as int,
                    self.resources@[a].position.y as int,
                    (#[trigger] self.resources@[b]).position.x as int,
                    self.resources@[b].position.y as int,
                ) by {
                    if b == self.resources@.len() - 1 {
                        assert(existing@[a] == (self.resources@[a].position.x, self.resources@[a].position.y));
                    } else {
                        assert(self.resources@[a] == old(self).resources@[a]);
                        assert(self.resources@[b] == old(self).resources@[b]);
                    }
                }
                let nn = self.resources@[old(self).resources@.len() as int];
                assert(freshly_spawned(old(self).word_list, nn));
                assert(inside_island(nn.position.x as int, nn.position.y as int, 80, 24));
                assert forall|k: int|
                    0 <= k < old(self).resources@.len() implies separated(
                    nn.position.x as int,
                    nn.position.y as int,
                    (#[trigger] old(self).resources@[k]).position.x as int,
                    old(self).resources@[k].position.y as int,
                ) by {
                    assert(existing@[k] == (old(self).resources@[k].position.x, old(self).resources@[k].position.y));
                }
            }
        }
    }

    /// Rolls the island's spawn chance and, under the node cap, spawns one
    /// extra node.
    pub fn try_spawn_resource(&mut self)
        requires
            old(self).wf(),
        ensures
            final(self).wf(),
            final(self).player == old(self).player,
            final(self).crafting == old(self).crafting,
            final(self).island_manager == old(self).island_manager,
            final(self).word_list == old(self).word_list,
            final(self).resource_objects == old(self).resource_objects,
            forall|k: int|
                0 <= k < old(self).resources@.len() ==> #[trigger] final(self).resources@[k] == old(self).resources@[k],
            old(self).resources@.len() <= final(self).resources@.len() <= old(self).resources@.len() + 1,
            final(self).resources@.len() > old(self).resources@.len() ==> old(self).resources@.len() < old(self).island_manager.spec_current().max_nodes,
    {
        let max_nodes = self.island_manager.get_current_island().max_nodes;
        if (self.resources.len() as u64) < (max_nodes as u64) {
            if self.island_manager.should_spawn_node() {
                self.spawn_new_resource();
            }
        }
    }

    /// Executes a harvest: the first node whose word is fully typed with the
    /// player in range credits its yield (the kind's multiplier, at least
    /// one) to the player, loses one remaining harvest and its typing
    /// progress, and is retired at zero. Retiring the last node refills the
    /// island up to its node cap. Without such a node nothing changes.
    pub fn harvest_resource(&mut self)
        requires
            old(self).wf(),
        ensures
            final(self).wf(),
            final(self).crafting == old(self).crafting,
            final(self).island_manager == old(self).island_manager,
            final(self).word_list == old(self).word_list,
            final(self).resource_objects == old(self).resource_objects,
            final(self).player.position == old(self).player.position,
            first_harvestable_from(*old(self), 0) == -1 ==> final(self).resources == old(self).resources && final(self).player == old(self).player,
            first_harvestable_from(*old(self), 0) >= 0 ==> ({
                let h = first_harvestable_from(*old(self), 0);
                let node = old(self).resources@[h];
                let m = old(self).crafting.spec_multiplier(node.resource_type);
                &&& (node.resource_type == ResourceType::Wood ==> final(self).player.wood as int
                    == vstd::math::min(old(self).player.wood + m, u32::MAX as int) && final(self).player.copper == old(self).player.copper)
                &&& (node.resource_type == ResourceType::Copper ==> final(self).player.copper as int == vstd::math::min(old(self).player.copper + m, u32::MAX as int)
                    && final(self).player.wood == old(self).player.wood)
                &&& (node.harvests_remaining > 1 ==> {
                    &&& old(self).resources@.len() <= final(self).resources@.len() <= old(self).resources@.len() + 1
                    &&& (forall|k: int|
                        0 <= k < old(self).resources@.len() && k != h ==> #[trigger] final(self).resources@[k] == old(self).resources@[k])
                    &&& final(self).resources@[h].harvests_remaining == node.harvests_remaining
                        - 1
                    &&& final(self).resources@[h].current_input@.len() == 0
                    &&& final(self).resources@[h].position == node.position
                    &&& final(self).resources@[h].resource_type == node.resource_type
                    &&& final(self).resources@[h].craft_sentence@ == node.craft_sentence@
                    &&& final(self).resources@[h].next_craft_sentence@
                        == node.next_craft_sentence@
                    &&& final(self).resources@[h].max_harvests == node.max_harvests
                    &&& final(self).resources@[h].path == node.path
                })
                &&& (node.harvests_remaining == 1 && old(self).resources@.len() > 1 ==> {
                    &&& old(self).resources@.len() - 1 <= final(self).resources@.len() <= old(self).resources@.len()
                    &&& (forall|k: int|
                        0 <= k < h ==> #[trigger] final(self).resources@[k] == old(self).resources@[k])
                    &&& (forall|k: int|
                        h <= k < old(self).resources@.len() - 1 ==> #[trigger] final(self).resources@[k] == old(self).resources@[k + 1])
                })
                &&& (node.harvests_remaining == 1 && old(self).resources@.len() == 1 ==> final(self).resources@.len() <= old(self).island_manager.spec_current().max_nodes)
            }),
    {
        let n = self.resources.len();
        let mut i: usize = 0;
        let mut harvest_idx: usize = 0;
        let mut found = false;
        while i < n && !found
            invariant
                *self == *old(self),
                old(self).wf(),
                n == self.resources@.len(),
                i <= n,
                !found ==> first_harvestable_from(*self, 0) == first_harvestable_from(
                    *self,
                    i as int,
                ),
                found ==> harvest_idx < n && first_harvestable_from(*self, 0) == harvest_idx
                    && harvestable(*self, harvest_idx as int),
            decreases n - i, (if found { 0int } else { 1int }),
        {
            let target_pos = self.access_coordinate(i);
            let dist = self.player.position.manhattan_distance(&target_pos);
            let complete = {
                let rec = &self.resources[i];
                rec.current_input == rec.craft_sentence
            };
            if dist <= 2 && complete {
                found = true;
                harvest_idx = i;
                proof {
                    assert(harvestable(*self, i as int));
                    assert(first_harvestable_from(*self, i as int) == i);
                }
            } else {
                proof {
                    assert(!harvestable(*self, i as int));
                    assert(first_harvestable_from(*self, i as int) == first_harvestable_from(
                        *self,
                        i + 1,
                    ));
                }
                i += 1;
            }
        }
        if !found {
            proof {
                assert(first_harvestable_from(*self, n as int) == -1);
            }
            return ;
        }
        let idx = harvest_idx;

        // Credit the yield: the kind's current multiplier, at least one.
        let t = self.resources[idx].resource_type;
        let m = self.crafting.get_multiplier(&t);
        let amount = if m >= 1 {
            m
        } else {
            1
        };
        match t {
            ResourceType::Wood => {
                self.player.wood = self.player.wood.saturating_add(amount);
            },
            ResourceType::Copper => {
                self.player.copper = self.player.copper.saturating_add(amount);
            },
        }

        // Spend one harvest and reset the typing progress.
        let depleted = {
            let rec = &mut self.resources[idx];
            rec.harvests_remaining = rec.harvests_remaining - 1;
            rec.current_input = String::new();
            rec.harvests_remaining == 0
        };
        proof {
            assert(self.resources@[idx as int].current_input@
                =~= self.resources@[idx as int].craft_sentence@.subrange(0, 0));
        }

        if depleted {
            // Retire the depleted node; on a cleared island, refill it.
            let _ = self.resources.remove(idx);
            proof {
                assert forall|k: int|
                    0 <= k < self.resources@.len() implies resource_wf(
                    #[trigger] self.resources@[k],
                ) by {
                    if k < idx {
                        assert(self.resources@[k] == old(self).resources@[k]);
                    } else {
                        assert(self.resources@[k] == old(self).resources@[k + 1]);
                    }
                }
                assert forall|a: int, b: int|
                    0 <= a < b < self.resources@.len() implies separated(
                    (#[trigger] self.resources@[a]).position.x as int,
                    self.resources@[a].position.y as int,
                    (#[trigger] self.resources@[b]).position.x as int,
                    self.resources@[b].position.y as int,
                ) by {
                    let a0: int = if a < idx {
                        a
                    } else {
                        a + 1
                    };
                    let b0: int = if b < idx {
                        b
                    } else {
                        b + 1
                    };
                    assert(self.resources@[a] == old(self).resources@[a0]);
                    assert(self.resources@[b] == old(self).resources@[b0]);
                }
                assert(self.wf());
            }
            if self.resources.len() == 0 {
                let max_nodes = self.island_manager.get_current_island().max_nodes;
                self.spawn_fresh_nodes(max_nodes);
            }
        } else {
            proof {
                assert(resource_wf(self.resources@[idx as int]));
                assert forall|k: int|
                    0 <= k < self.resources@.len() implies resource_wf(
                    #[trigger] self.resources@[k],
                ) by {
                    if k != idx {
                        assert(self.resources@[k] == old(self).resources@[k]);
                    }
                }
                assert forall|a: int, b: int|
                    0 <= a < b < self.resources@.len() implies separated(
                    (#[trigger] self.resources@[a]).position.x as int,
                    self.resources@[a].position.y as int,
                    (#[trigger] self.resources@[b]).position.x as int,
                    self.resources@[b].position.y as int,
                ) by {
                    assert(self.resources@[a].position == old(self).resources@[a].position);
                    assert(self.resources@[b].position == old(self).resources@[b].position);
                }
                assert(self.wf());
            }
        }

        self.try_spawn_resource();
    }

    /// Handles one printable keystroke. The crafting pass runs first: if any
    /// unlocked, affordable recipe advances on the character, resource
    /// gathering is suppressed for this keystroke (and a finished sentence
    /// crafts the item and pays its costs). Otherwise every live node's
    /// typing machine sees the character independently: the expected letter
    /// advances the node and moves the player one route step (a fresh route
    /// is planned when the word starts, and again when it finishes out of
    /// range); a wrong letter abandons that node's attempt; a finished word
    /// within harvest range fires the harvest, and any finished word rotates
    /// the node's word pair and may spawn an extra node.
    #[verifier::rlimit(100)]
    #[verifier::spinoff_prover]
    pub fn handle_key(&mut self, c: char)
        requires
            old(self).wf(),
        ensures
            final(self).wf(),
            crafting_engages(*old(self), c) ==> final(self).resources == old(self).resources
                && final(self).player.position == old(self).player.position,
            !crafting_engages(*old(self), c) && no_node_accepts(*old(self), c) ==> ({
                &&& final(self).player == old(self).player
                &&& final(self).resources@.len() == old(self).resources@.len()
                &&& forall|k: int|
                    0 <= k < old(self).resources@.len() ==> {
                        let a = old(self).resources@[k];
                        let b = #[trigger] final(self).resources@[k];
                        &&& (a.current_input@.len() > 0 ==> reset_of(a, b))
                        &&& (a.current_input@.len() == 0 ==> b == a)
                    }
            }),
            !crafting_engages(*old(self), c) && (exists|a: int|
                #[trigger] lone_acceptor_ready(*old(self), c, a)) ==> spec_manhattan(
                old(self).player.position,
                final(self).player.position,
            ) <= 1,
            !crafting_engages(*old(self), c) && no_node_completes(*old(self), c) ==> final(self).player.wood == old(self).player.wood && final(self).player.copper == old(self).player.copper,
            !crafting_engages(*old(self), c) && some_lone_acceptor(*old(self), c) ==> ({
                let aa = the_acceptor(*old(self), c);
                let node = old(self).resources@[aa];
                let acc = access_of(node.position);
                let stepped = stepped_position(node, old(self).player.position);
                // The lone acceptor advances; every other node sees a wrong
                // letter (reset) or stays idle; the player consumes at most
                // the acceptor's route.
                &&& (!node_completes(node, c) ==> ({
                    &&& final(self).resources@.len() == old(self).resources@.len()
                    &&& (forall|k: int|
                        0 <= k < old(self).resources@.len() && k != aa ==> wrong_or_idle(
                            old(self).resources@[k],
                            #[trigger] final(self).resources@[k],
                        ))
                    &&& advanced_input(node, final(self).resources@[aa])
                    &&& final(self).player.wood == old(self).player.wood
                    &&& final(self).player.copper == old(self).player.copper
                    &&& (node.current_input@.len() > 0 ==> final(self).player.position == stepped
                        && (node.path@.len() > 0 ==> final(self).resources@[aa].path@
                        == node.path@.drop_first()) && (node.path@.len() == 0 ==> final(self).resources@[aa].path@.len() == 0))
                    &&& (node.current_input@.len() == 0 ==> ({
                        &&& (forall|p: Position|
                            final(self).grid.is_blocked(p) <==> rebuilt_blocked(
                                old(self).resources@,
                                aa,
                                p,
                            ))
                        &&& exists|route: Seq<Position>|
                            #[trigger] planned_route_ok(*old(self), *final(self), aa, route)
                    }))
                }))
                // A word finished within harvest range fires the harvest and
                // rotates the word pair.
                &&& (node_completes(node, c) && spec_manhattan(stepped, acc) <= 2 ==> ({
                    let m = old(self).crafting.spec_multiplier(node.resource_type);
                    &&& final(self).player.position == stepped
                    &&& (node.resource_type == ResourceType::Wood ==> final(self).player.wood as int
                        == vstd::math::min(old(self).player.wood + m, u32::MAX as int) && final(self).player.copper == old(self).player.copper)
                    &&& (node.resource_type == ResourceType::Copper ==> final(self).player.copper as int
                        == vstd::math::min(old(self).player.copper + m, u32::MAX as int) && final(self).player.wood == old(self).player.wood)
                    &&& (node.harvests_remaining > 1 ==> ({
                        &&& old(self).resources@.len() <= final(self).resources@.len() <= old(self).resources@.len() + 2
                        &&& (forall|k: int|
                            0 <= k < old(self).resources@.len() && k != aa ==> wrong_or_idle(
                                old(self).resources@[k],
                                #[trigger] final(self).resources@[k],
                            ))
                        &&& final(self).resources@[aa].harvests_remaining
                            == node.harvests_remaining - 1
                        &&& final(self).resources@[aa].craft_sentence@
                            == node.next_craft_sentence@
                        &&& final(self).resources@[aa].current_input@.len() == 0
                        &&& final(self).resources@[aa].position == node.position
                        &&& final(self).resources@[aa].resource_type == node.resource_type
                        &&& final(self).resources@[aa].max_harvests == node.max_harvests
                    }))
                    &&& (node.harvests_remaining == 1 ==> ({
                        &&& (old(self).resources@.len() > 1 ==> old(self).resources@.len() - 1
                            <= final(self).resources@.len() <= old(self).resources@.len() + 1)
                        &&& (old(self).resources@.len() == 1 ==> final(self).resources@.len()
                            <= old(self).island_manager.spec_current().max_nodes)
                    }))
                }))
                // A word finished out of range rotates the word pair, credits
                // nothing, and takes one catch-up step toward the access
                // coordinate when a fresh route exists.
                &&& (node_completes(node, c) && spec_manhattan(stepped, acc) > 2 ==> ({
                    &&& final(self).player.wood == old(self).player.wood
                    &&& final(self).player.copper == old(self).player.copper
                    &&& old(self).resources@.len() <= final(self).resources@.len() <= old(self).resources@.len() + 1
                    &&& (forall|k: int|
                        0 <= k < old(self).resources@.len() && k != aa ==> wrong_or_idle(
                            old(self).resources@[k],
                            #[trigger] final(self).resources@[k],
                        ))
                    &&& final(self).resources@[aa].craft_sentence@ == node.next_craft_sentence@
                    &&& final(self).resources@[aa].current_input@.len() == 0
                    &&& final(self).resources@[aa].position == node.position
                    &&& final(self).resources@[aa].resource_type == node.resource_type
                    &&& final(self).resources@[aa].harvests_remaining == node.harvests_remaining
                    &&& ((final(self).player.position == stepped && final(self).resources@[aa].path@.len() == 0) || adjacent(stepped, final(self).player.position))
                }))
            }),
    {
        let n_recipes = self.crafting.get_recipes().len();
        let mut crafting_completed = false;
        let mut completed_recipe_idx: usize = 0;
        let mut any_crafting_progress = false;
        let mut ridx: usize = 0;
        while ridx < n_recipes
            invariant
                old(self).wf(),
                self.wf(),
                n_recipes == self.crafting.spec_recipes().len(),
                n_recipes == old(self).crafting.spec_recipes().len(),
                ridx <= n_recipes,
                self.resources == old(self).resources,
                self.player.position == old(self).player.position,
                self.player.path == old(self).player.path,
                self.player.target == old(self).player.target,
                self.grid == old(self).grid,
                self.island_manager == old(self).island_manager,
                self.word_list == old(self).word_list,
                self.resource_objects == old(self).resource_objects,
                !any_crafting_progress ==> self.crafting.spec_has_workbench() == old(self).crafting.spec_has_workbench(),
                !any_crafting_progress ==> self.crafting.spec_unlocked() == old(self).crafting.spec_unlocked(),
                !any_crafting_progress ==> (forall|k: int|
                    ridx <= k < n_recipes ==> #[trigger] self.crafting.spec_recipes()[k] == old(self).crafting.spec_recipes()[k]),
                !any_crafting_progress ==> self.player.wood == old(self).player.wood
                    && self.player.copper == old(self).player.copper,
                !any_crafting_progress ==> first_engaged_recipe_from(
                    old(self).crafting,
                    old(self).player.wood,
                    old(self).player.copper,
                    c,
                    ridx as int,
                ) == first_engaged_recipe_from(
                    old(self).crafting,
                    old(self).player.wood,
                    old(self).player.copper,
                    c,
                    0,
                ),
                !any_crafting_progress ==> (forall|k: int|
                    0 <= k < n_recipes ==> crate::crafting::same_recipe_identity(
                        #[trigger] self.crafting.spec_recipes()[k],
                        old(self).crafting.spec_recipes()[k],
                    ) && self.crafting.spec_recipes()[k].upgrade_count == old(self).crafting.spec_recipes()[k].upgrade_count),
                any_crafting_progress ==> crafting_engages(*old(self), c),
                crafting_completed ==> any_crafting_progress,
            decreases n_recipes - ridx,
        {
            let ghost pre = *self;
            let unlocked = self.crafting.is_recipe_unlocked(ridx);
            let affordable = self.crafting.can_craft(ridx, self.player.wood, self.player.copper);
            let mut engaged_here = false;
            if unlocked && affordable {
                if self.crafting.handle_input(ridx, c) {
                    engaged_here = true;
                    proof {
                        if !any_crafting_progress {
                            crate::crafting::CraftingManager::lemma_unlocked_at_agrees(
                                pre.crafting,
                                old(self).crafting,
                                ridx as int,
                            );
                            assert(pre.crafting.spec_recipes()[ridx as int] == old(self).crafting.spec_recipes()[ridx as int]);
                            assert(recipe_accepts(
                                old(self).crafting.spec_recipes()[ridx as int],
                                c,
                            ));
                            assert(first_engaged_recipe_from(
                                old(self).crafting,
                                old(self).player.wood,
                                old(self).player.copper,
                                c,
                                ridx as int,
                            ) == ridx);
                            assert(crafting_engages(*old(self), c));
                        }
                    }
                    any_crafting_progress = true;
                    let crafted = self.crafting.craft_item(ridx);
                    if let Some((_recipe, costs)) = crafted {
                        let ghost engaged_recipe = pre.crafting.spec_recipes()[ridx as int];
                        let ghost post_craft = *self;
                        proof {
                            assert(costs@ == engaged_recipe.requirements@);
                            assert(CraftingManager::spec_affordable(
                                engaged_recipe,
                                self.player.wood,
                                self.player.copper,
                            ));
                        }
                        let mut ci: usize = 0;
                        while ci < costs.len()
                            invariant
                                self.wf(),
                                *self == (Game { player: self.player, ..post_craft }),
                                self.player == (Player {
                                    wood: self.player.wood,
                                    copper: self.player.copper,
                                    ..post_craft.player
                                }),
                                ci <= costs@.len(),
                                costs@ == engaged_recipe.requirements@,
                                forall|q1: int, q2: int|
                                    0 <= q1 < q2 < costs@.len() ==> (#[trigger] costs@[q1]).0 != (
                                    #[trigger] costs@[q2]).0,
                                forall|q: int|
                                    ci <= q < costs@.len() ==> ((#[trigger] costs@[q]).0
                                        == ResourceType::Wood ==> self.player.wood >= costs@[q].1)
                                        && (costs@[q].0 == ResourceType::Copper
                                        ==> self.player.copper >= costs@[q].1),
                            decreases costs@.len() - ci,
                        {
                            let (kind, amount) = costs[ci];
                            match kind {
                                ResourceType::Wood => {
                                    self.player.wood = self.player.wood - amount;
                                },
                                ResourceType::Copper => {
                                    self.player.copper = self.player.copper - amount;
                                },
                            }
                            ci += 1;
                        }
                        crafting_completed = true;
                        completed_recipe_idx = ridx;
                    }
                }
            }
            proof {
                if !any_crafting_progress {
                    assert(!engaged_here);
                    crate::crafting::CraftingManager::lemma_unlocked_at_agrees(
                        pre.crafting,
                        old(self).crafting,
                        ridx as int,
                    );
                    assert(pre.crafting.spec_recipes()[ridx as int] == old(self).crafting.spec_recipes()[ridx as int]);
                    assert(!(old(self).crafting.spec_unlocked_at(ridx as int)
                        && CraftingManager::spec_affordable(
                        old(self).crafting.spec_recipes()[ridx as int],
                        old(self).player.wood,
                        old(self).player.copper,
                    ) && recipe_accepts(old(self).crafting.spec_recipes()[ridx as int], c)));
                    assert(first_engaged_recipe_from(
                        old(self).crafting,
                        old(self).player.wood,
                        old(self).player.copper,
                        c,
                        ridx as int,
                    ) == first_engaged_recipe_from(
                        old(self).crafting,
                        old(self).player.wood,
                        old(self).player.copper,
                        c,
                        ridx + 1,
                    ));
                }
            }
            ridx += 1;
        }

        if crafting_completed {
            let mut k: usize = 0;
            while k < n_recipes
                invariant
                    self.wf(),
                    n_recipes == self.crafting.spec_recipes().len(),
                    self.resources == old(self).resources,
                    self.player.position == old(self).player.position,
                    crafting_engages(*old(self), c),
                decreases n_recipes - k,
            {
                if k != completed_recipe_idx {
                    self.crafting.clear_input(k);
                }
                k += 1;
            }
            return ;
        }
        if any_crafting_progress {
            return ;
        }
        proof {
            assert(first_engaged_recipe_from(
                old(self).crafting,
                old(self).player.wood,
                old(self).player.copper,
                c,
                n_recipes as int,
            ) == -1);
            assert(!crafting_engages(*old(self), c));
        }

        let mut should_harvest = false;
        let mut completed_pos: Option<Position> = None;
        let mut word_completed = false;
        let ghost crafting_at_pass = self.crafting;
        let ghost mut act_route: Seq<Position> = Seq::empty();
        proof {
            if some_lone_acceptor(*old(self), c) {
                assert(exactly_one_accepts(*old(self), c, the_acceptor(*old(self), c)));
            }
        }
        let n = self.resources.len();
        let mut i: usize = 0;
        while i < n
            invariant
                old(self).wf(),
                self.wf(),
                !crafting_engages(*old(self), c),
                self.crafting == crafting_at_pass,
                n == self.resources@.len(),
                n == old(self).resources@.len(),
                i <= n,
                self.island_manager == old(self).island_manager,
                self.word_list == old(self).word_list,
                self.resource_objects == old(self).resource_objects,
                self.player.wood == old(self).player.wood,
                self.player.copper == old(self).player.copper,
                forall|k: int| i <= k < n ==> #[trigger] self.resources@[k] == old(self).resources@[k],
                forall|k: int|
                    0 <= k < i ==> same_node_core(
                        old(self).resources@[k],
                        #[trigger] self.resources@[k],
                    ),
                no_node_accepts(*old(self), c) ==> self.player == old(self).player
                    && !should_harvest && completed_pos is None && !word_completed,
                no_node_accepts(*old(self), c) ==> (forall|k: int|
                    0 <= k < i ==> ((old(self).resources@[k].current_input@.len() > 0
                        ==> reset_of(old(self).resources@[k], #[trigger] self.resources@[k])) && (
                    old(self).resources@[k].current_input@.len() == 0 ==> self.resources@[k] == old(self).resources@[k]))),
                forall|a: int|
                    #[trigger] lone_acceptor_ready(*old(self), c, a) ==> ((i <= a
                        ==> self.player.position == old(self).player.position) && (i > a
                        ==> spec_manhattan(old(self).player.position, self.player.position) <= 1)
                        && !should_harvest && !word_completed),
                no_node_completes(*old(self), c) ==> !should_harvest && !word_completed
                    && completed_pos is None,
                some_lone_acceptor(*old(self), c) ==> ({
                    let aa = the_acceptor(*old(self), c);
                    &&& 0 <= aa < n
                    &&& exactly_one_accepts(*old(self), c, aa)
                }),
                some_lone_acceptor(*old(self), c) ==> ({
                    let aa = the_acceptor(*old(self), c);
                    i <= aa ==> self.player == old(self).player && !should_harvest
                        && completed_pos is None && !word_completed && self.grid == old(self).grid
                }),
                some_lone_acceptor(*old(self), c) ==> ({
                    let aa = the_acceptor(*old(self), c);
                    forall|k: int|
                        0 <= k < i && k != aa ==> wrong_or_idle(
                            old(self).resources@[k],
                            #[trigger] self.resources@[k],
                        )
                }),
                some_lone_acceptor(*old(self), c) ==> ({
                    let aa = the_acceptor(*old(self), c);
                    let node = old(self).resources@[aa];
                    i > aa && !node_completes(node, c) ==> !should_harvest && completed_pos is None
                        && !word_completed && advanced_input(node, self.resources@[aa])
                }),
                some_lone_acceptor(*old(self), c) ==> ({
                    let aa = the_acceptor(*old(self), c);
                    let node = old(self).resources@[aa];
                    let stepped = stepped_position(node, old(self).player.position);
                    i > aa && !node_completes(node, c) && node.current_input@.len() > 0
                        ==> self.player.position == stepped && (node.path@.len() > 0
                        ==> self.resources@[aa].path@ == node.path@.drop_first()) && (
                    node.path@.len() == 0 ==> self.resources@[aa].path@.len() == 0)
                }),
                some_lone_acceptor(*old(self), c) ==> ({
                    let aa = the_acceptor(*old(self), c);
                    let node = old(self).resources@[aa];
                    i > aa && !node_completes(node, c) && node.current_input@.len() == 0
                        ==> (forall|p: Position|
                        self.grid.is_blocked(p) <==> rebuilt_blocked(old(self).resources@, aa, p))
                }),
                some_lone_acceptor(*old(self), c) ==> ({
                    let aa = the_acceptor(*old(self), c);
                    let node = old(self).resources@[aa];
                    i > aa && !node_completes(node, c) && node.current_input@.len() == 0
                        ==> planned_route_ok(*old(self), *self, aa, act_route)
                }),
                some_lone_acceptor(*old(self), c) ==> ({
                    let aa = the_acceptor(*old(self), c);
                    let node = old(self).resources@[aa];
                    i > aa && node_completes(node, c) ==> word_completed && completed_pos == Some(
                        node.position,
                    ) && same_node_core(node, self.resources@[aa])
                        && self.resources@[aa].current_input@ == node.craft_sentence@
                }),
                some_lone_acceptor(*old(self), c) ==> ({
                    let aa = the_acceptor(*old(self), c);
                    let node = old(self).resources@[aa];
                    let acc = access_of(node.position);
                    let stepped = stepped_position(node, old(self).player.position);
                    i > aa && node_completes(node, c) && spec_manhattan(stepped, acc) <= 2
                        ==> should_harvest && self.player.position == stepped
                }),
                some_lone_acceptor(*old(self), c) ==> ({
                    let aa = the_acceptor(*old(self), c);
                    let node = old(self).resources@[aa];
                    let acc = access_of(node.position);
                    let stepped = stepped_position(node, old(self).player.position);
                    i > aa && node_completes(node, c) && spec_manhattan(stepped, acc) > 2
                        ==> !should_harvest && ((self.player.position == stepped
                        && self.resources@[aa].path@.len() == 0) || adjacent(
                        stepped,
                        self.player.position,
                    ))
                }),
            decreases n - i,
        {
            let ghost the_aa: int = if some_lone_acceptor(*old(self), c) {
                the_acceptor(*old(self), c)
            } else {
                -1
            };
            let cur_len = self.resources[i].current_input.as_str().unicode_len();
            let sent_len = self.resources[i].craft_sentence.as_str().unicode_len();
            let ghost before_node = self.resources@[i as int];
            proof {
                assert(before_node == old(self).resources@[i as int]);
                assert(resource_wf(before_node));
            }
            if cur_len == 0 {
                let expected = self.resources[i].craft_sentence.as_str().get_char(0);
                if expected == c {
                    proof {
                        assert(node_accepts(old(self).resources@[i as int], c));
                        if some_lone_acceptor(*old(self), c) {
                            assert(i == the_aa);
                        }
                    }
                    // Start this word: record the time, take the first
                    // letter, rebuild the grid around this target, plan a
                    // route, and take its first step.
                    let started = now_millis();
                    let first_letter = {
                        let rec = &self.resources[i];
                        rec.craft_sentence.as_str().substring_char(0, 1).to_owned()
                    };
                    {
                        let rec = &mut self.resources[i];
                        rec.word_start_time = Some(started);
                        rec.current_input = first_letter;
                    }
                    proof {
                        assert(is_prefix(
                            self.resources@[i as int].current_input@,
                            self.resources@[i as int].craft_sentence@,
                        ));
                        assert(resource_wf(self.resources@[i as int]));
                        assert forall|k: int|
                            0 <= k < self.resources@.len() implies resource_wf(
                            #[trigger] self.resources@[k],
                        ) by {
                            if k != i {
                                assert(self.resources@[k] == old(self).resources@[k]
                                    || same_node_core(old(self).resources@[k], self.resources@[k]));
                            }
                        }
                        assert(self.wf());
                    }
                    self.rebuild_obstacles(i);
                    proof {
                        if some_lone_acceptor(*old(self), c) {
                            assert forall|k: int|
                                0 <= k < self.resources@.len() implies (
                            #[trigger] self.resources@[k]).position == old(self).resources@[k].position by {
                                if k < i {
                                    assert(same_node_core(
                                        old(self).resources@[k],
                                        self.resources@[k],
                                    ) || self.resources@[k] == old(self).resources@[k]);
                                }
                            }
                            lemma_rebuilt_blocked_positions(
                                self.resources@,
                                old(self).resources@,
                                i as int,
                            );
                        }
                    }
                    let target_pos = self.access_coordinate(i);
                    let maybe_path = self.grid.find_path(
                        Position::new(self.player.position.x, self.player.position.y),
                        target_pos,
                    );
                    let ghost route_found = maybe_path is Some;
                    if let Some(path) = maybe_path {
                        {
                            let rec = &mut self.resources[i];
                            rec.path = path;
                        }
                        self.player.target = Some(target_pos);
                        proof {
                            assert(resource_wf(self.resources@[i as int]));
                            assert(self.wf());
                        }
                    }
                    let ghost route_used = self.resources@[i as int].path@;
                    if self.resources[i].path.len() > 0 {
                        let step = {
                            let rec = &mut self.resources[i];
                            rec.path.remove(0)
                        };
                        self.player.position = step;
                        proof {
                            assert(in_bounds(step));
                            assert(self.wf());
                        }
                    }
                    proof {
                        act_route = route_used;
                        if some_lone_acceptor(*old(self), c) {
                            let node = old(self).resources@[the_aa];
                            let acc = access_of(node.position);
                            if route_found {
                                assert(valid_path(
                                    self.grid,
                                    old(self).player.position,
                                    acc,
                                    route_used,
                                ));
                            } else {
                                assert(!reachable(self.grid, old(self).player.position, acc));
                                assert(route_used == node.path@);
                            }
                            assert(route_used.len() == 0 ==> self.player.position == old(self).player.position && self.resources@[i as int].path@.len() == 0);
                            assert(route_used.len() > 0 ==> self.player.position == route_used[0]
                                && self.resources@[i as int].path@ == route_used.drop_first());
                            assert(planned_route_ok(*old(self), *self, the_aa, act_route));
                        }
                    }
                }
            } else {
                let advance = if cur_len < sent_len {
                    let expected = self.resources[i].craft_sentence.as_str().get_char(cur_len);
                    expected == c
                } else {
                    false
                };
                if advance {
                    proof {
                        assert(node_accepts(old(self).resources@[i as int], c));
                        if some_lone_acceptor(*old(self), c) {
                            assert(i == the_aa);
                        }
                    }
                    let extended = {
                        let rec = &self.resources[i];
                        rec.craft_sentence.as_str().substring_char(0, cur_len + 1).to_owned()
                    };
                    {
                        let rec = &mut self.resources[i];
                        rec.current_input = extended;
                    }
                    proof {
                        assert(is_prefix(
                            self.resources@[i as int].current_input@,
                            self.resources@[i as int].craft_sentence@,
                        ));
                        assert(self.wf());
                    }
                    if self.resources[i].path.len() > 0 {
                        let step = {
                            let rec = &mut self.resources[i];
                            rec.path.remove(0)
                        };
                        self.player.position = step;
                        proof {
                            assert(in_bounds(step));
                            assert(self.wf());
                        }
                    }
                    if cur_len + 1 == sent_len {
                        // The word is finished: harvest when in range, else
                        // plan a fresh catch-up route and take its first
                        // step immediately.
                        proof {
                            assert(node_completes(old(self).resources@[i as int], c));
                            assert(self.resources@[i as int].current_input@
                                =~= self.resources@[i as int].craft_sentence@);
                            if some_lone_acceptor(*old(self), c) {
                                let node = old(self).resources@[the_aa];
                                assert(self.player.position == stepped_position(
                                    node,
                                    old(self).player.position,
                                ));
                            }
                        }
                        completed_pos = Some(
                            Position::new(
                                self.resources[i].position.x,
                                self.resources[i].position.y,
                            ),
                        );
                        word_completed = true;
                        {
                            let rec = &mut self.resources[i];
                            rec.word_start_time = None;
                        }
                        proof {
                            assert(self.wf());
                        }
                        let target_pos = self.access_coordinate(i);
                        let dist = self.player.position.manhattan_distance(&target_pos);
                        if dist <= 2 {
                            should_harvest = true;
                        } else {
                            {
                                let rec = &mut self.resources[i];
                                rec.path.clear();
                            }
                            proof {
                                assert(self.wf());
                            }
                            self.rebuild_obstacles(i);
                            let ghost at_completion = self.player.position;
                            let catch_up = self.grid.find_path(
                                Position::new(self.player.position.x, self.player.position.y),
                                target_pos,
                            );
                            let ghost route_found = catch_up is Some;
                            if let Some(path) = catch_up {
                                {
                                    let rec = &mut self.resources[i];
                                    rec.path = path;
                                }
                                self.player.target = Some(target_pos);
                                proof {
                                    assert(self.wf());
                                }
                            }
                            if self.resources[i].path.len() > 0 {
                                let step = {
                                    let rec = &mut self.resources[i];
                                    rec.path.remove(0)
                                };
                                self.player.position = step;
                                proof {
                                    assert(in_bounds(step));
                                    assert(self.wf());
                                    assert(adjacent(at_completion, step));
                                }
                            } else {
                                proof {
                                    assert(self.player.position == at_completion);
                                    assert(self.resources@[i as int].path@.len() == 0);
                                }
                            }
                        }
                    }
                } else {
                    // Wrong letter (or a word already full): the attempt is
                    // abandoned with no partial credit.
                    {
                        let rec = &mut self.resources[i];
                        rec.word_start_time = None;
                        rec.current_input = String::new();
                        rec.path.clear();
                    }
                    proof {
                        assert(self.resources@[i as int].current_input@
                            =~= self.resources@[i as int].craft_sentence@.subrange(0, 0));
                        assert(resource_wf(self.resources@[i as int]));
                        assert(self.wf());
                        assert(reset_of(old(self).resources@[i as int], self.resources@[i as int]));
                    }
                }
            }
            i += 1;
        }

        let ghost lone: bool = some_lone_acceptor(*old(self), c);
        let ghost aa: int = the_acceptor(*old(self), c);
        let ghost anode: Resource = if lone {
            old(self).resources@[aa]
        } else {
            old(self).resources@[0]
        };
        let ghost astepped: Position = stepped_position(anode, old(self).player.position);
        let ghost pre_harvest = *self;
        if should_harvest {
            proof {
                if lone {
                    // Only the lone acceptor can have its whole word typed
                    // after the pass, so the harvest strikes exactly it.
                    assert(node_completes(anode, c));
                    assert(spec_manhattan(astepped, access_of(anode.position)) <= 2);
                    assert(harvestable(*self, aa));
                    assert forall|k: int| 0 <= k < aa implies !harvestable(*self, k) by {
                        assert(wrong_or_idle(old(self).resources@[k], self.resources@[k]));
                        assert(resource_wf(old(self).resources@[k]));
                    }
                    lemma_first_harvestable_step(*self, 0, aa);
                    assert(first_harvestable_from(*self, 0) == aa);
                }
            }
            self.harvest_resource();
            self.player.target = None;
            proof {
                if lone {
                    assert forall|k: int|
                        0 <= k < pre_harvest.crafting.spec_recipes().len() implies (
                    #[trigger] pre_harvest.crafting.spec_recipes()[k]).name@ == old(self).crafting.spec_recipes()[k].name@
                        && pre_harvest.crafting.spec_recipes()[k].upgrade_count == old(self).crafting.spec_recipes()[k].upgrade_count by {
                        assert(crate::crafting::same_recipe_identity(
                            pre_harvest.crafting.spec_recipes()[k],
                            old(self).crafting.spec_recipes()[k],
                        ));
                    }
                    crate::crafting::CraftingManager::lemma_multiplier_agrees(
                        pre_harvest.crafting,
                        old(self).crafting,
                        anode.resource_type,
                    );
                }
            }
        }

        let ghost pre_rotate = *self;
        let ghost rotate_guard: bool = lone && node_completes(anode, c) && (spec_manhattan(
            astepped,
            access_of(anode.position),
        ) > 2 || anode.harvests_remaining > 1);
        if let Some(pos) = completed_pos {
            proof {
                if rotate_guard {
                    assert(pos == anode.position);
                    assert(aa < self.resources@.len());
                    assert(self.resources@[aa].position == anode.position);
                    assert forall|k: int|
                        0 <= k < self.resources@.len() && k != aa implies (
                    #[trigger] self.resources@[k]).position != anode.position by {
                        if k < aa {
                            assert(separated(
                                self.resources@[k].position.x as int,
                                self.resources@[k].position.y as int,
                                self.resources@[aa].position.x as int,
                                self.resources@[aa].position.y as int,
                            ));
                        } else {
                            assert(separated(
                                self.resources@[aa].position.x as int,
                                self.resources@[aa].position.y as int,
                                self.resources@[k].position.x as int,
                                self.resources@[k].position.y as int,
                            ));
                        }
                    }
                }
            }
            // The completed node may have been retired by the harvest; word
            // rotation for a node that no longer exists is a no-op.
            let mut ri: usize = 0;
            let mut rotate_found = false;
            let mut rotate_idx: usize = 0;
            while ri < self.resources.len()
                invariant
                    self.wf(),
                    rotate_found ==> rotate_idx < self.resources@.len(),
                    ri <= self.resources@.len(),
                    rotate_guard ==> 0 <= aa < self.resources@.len()
                        && self.resources@[aa].position == anode.position && pos == anode.position
                        && (forall|k: int|
                        0 <= k < self.resources@.len() && k != aa ==> (
                        #[trigger] self.resources@[k]).position != anode.position),
                    rotate_guard ==> (rotate_found ==> rotate_idx == aa) && (!rotate_found ==> ri
                        <= aa),
                decreases self.resources@.len() - ri, (if rotate_found { 0int } else { 1int }),
            {
                let matched = self.resources[ri].position.x == pos.x
                    && self.resources[ri].position.y == pos.y;
                proof {
                    if rotate_guard {
                        if matched {
                            assert(self.resources@[ri as int].position == pos);
                            assert(ri == aa);
                        } else {
                            assert(self.resources@[ri as int].position != anode.position);
                            assert(ri != aa);
                        }
                    }
                }
                if !rotate_found && matched {
                    rotate_found = true;
                    rotate_idx = ri;
                }
                ri += 1;
            }
            proof {
                if rotate_guard {
                    assert(rotate_found);
                    assert(rotate_idx == aa);
                }
            }
            if rotate_found {
                self.replace_word(rotate_idx);
            }
        }

        let ghost pre_spawn = *self;
        if word_completed {
            self.try_spawn_resource_on_word_completion();
        }
        proof {
            if !crafting_engages(*old(self), c) && lone {
                let acc = access_of(anode.position);
                let n0 = old(self).resources@.len();
                if !node_completes(anode, c) {
                    assert(*self == pre_harvest);
                    if anode.current_input@.len() == 0 {
                        assert(planned_route_ok(*old(self), *self, aa, act_route));
                    }
                } else {
                    // the completed word ran the harvest (in range) or the
                    // catch-up (out of range), then the rotation and spawn
                    if spec_manhattan(astepped, acc) <= 2 {
                        if anode.harvests_remaining > 1 {
                            assert(pre_rotate.resources@[aa].position == anode.position);
                            assert(pre_spawn.resources@[aa].craft_sentence@
                                == anode.next_craft_sentence@);
                            assert(self.resources@[aa] == pre_spawn.resources@[aa]);
                            assert forall|k: int|
                                0 <= k < n0 && k != aa implies wrong_or_idle(
                                old(self).resources@[k],
                                #[trigger] self.resources@[k],
                            ) by {
                                assert(wrong_or_idle(
                                    old(self).resources@[k],
                                    pre_harvest.resources@[k],
                                ));
                                assert(pre_rotate.resources@[k] == pre_harvest.resources@[k]);
                                assert(pre_spawn.resources@[k] == pre_rotate.resources@[k]);
                                assert(self.resources@[k] == pre_spawn.resources@[k]);
                            }
                        }
                    } else {
                        assert(pre_rotate == pre_harvest);
                        assert(pre_rotate.resources@[aa].position == anode.position);
                        assert(pre_spawn.resources@[aa].craft_sentence@
                            == anode.next_craft_sentence@);
                        assert(pre_spawn.resources@[aa].current_input@.len() == 0);
                        assert(pre_spawn.resources@[aa].harvests_remaining
                            == anode.harvests_remaining);
                        assert(pre_spawn.resources@[aa].path == pre_rotate.resources@[aa].path);
                        assert(pre_spawn.player == pre_rotate.player);
                        assert(self.resources@[aa] == pre_spawn.resources@[aa]);
                        assert(self.player == pre_spawn.player);
                        assert forall|k: int|
                            0 <= k < n0 && k != aa implies wrong_or_idle(
                            old(self).resources@[k],
                            #[trigger] self.resources@[k],
                        ) by {
                            assert(wrong_or_idle(
                                old(self).resources@[k],
                                pre_rotate.resources@[k],
                            ));
                            assert(pre_spawn.resources@[k] == pre_rotate.resources@[k]);
                            assert(self.resources@[k] == pre_spawn.resources@[k]);
                        }
                    }
                }
            }
        }
    }

    /// On a word completion there is an even chance to spawn one extra node
    /// under the node cap.
    pub fn try_spawn_resource_on_word_completion(&mut self)
        requires
            old(self).wf(),
        ensures
            final(self).wf(),
            final(self).player == old(self).player,
            final(self).crafting == old(self).crafting,
            final(self).island_manager == old(self).island_manager,
            final(self).word_list == old(self).word_list,
            final(self).resource_objects == old(self).resource_objects,
            forall|k: int|
                0 <= k < old(self).resources@.len() ==> #[trigger] final(self).resources@[k] == old(self).resources@[k],
            old(self).resources@.len() <= final(self).resources@.len() <= old(self).resources@.len() + 1,
            final(self).resources@.len() > old(self).resources@.len() ==> old(self).resources@.len() < old(self).island_manager.spec_current().max_nodes,
    {
        let max_nodes = self.island_manager.get_current_island().max_nodes;
        if (self.resources.len() as u64) < (max_nodes as u64) {
            let roll = rand_range(0, 100);
            if roll < 50 {
                self.spawn_new_resource();
            }
        }
    }
}

/// The prefix invariant: in every well-formed game state — which every
/// operation of this module establishes and preserves — each live node's
/// typed input is a prefix of its target word.
pub proof fn lemma_typed_prefix_invariant(g: Game)
    requires
        g.wf(),
    ensures
        forall|i: int|
            0 <= i < g.resources@.len() ==> is_prefix(
                (#[trigger] g.resources@[i]).current_input@,
                g.resources@[i].craft_sentence@,
            ),
{
}

/// The separation invariant: in every well-formed game state, any two
/// simultaneously live nodes differ by more than 6 columns or more than 4
/// rows.
pub proof fn lemma_node_separation_invariant(g: Game)
    requires
        g.wf(),
    ensures
        forall|i: int, j: int|
            0 <= i < g.resources@.len() && 0 <= j < g.resources@.len() && i != j ==> separated(
                (#[trigger] g.resources@[i]).position.x as int,
                g.resources@[i].position.y as int,
                (#[trigger] g.resources@[j]).position.x as int,
                g.resources@[j].position.y as int,
            ),
{
    assert forall|i: int, j: int|
        0 <= i < g.resources@.len() && 0 <= j < g.resources@.len() && i != j implies separated(
        (#[trigger] g.resources@[i]).position.x as int,
        g.resources@[i].position.y as int,
        (#[trigger] g.resources@[j]).position.x as int,
        g.resources@[j].position.y as int,
    ) by {
        if j < i {
            assert(separated(
                g.resources@[j].position.x as int,
                g.resources@[j].position.y as int,
                g.resources@[i].position.x as int,
                g.resources@[i].position.y as int,
            ));
        }
    }
}

} // verus!
