//! Crafting recipes and their typing-progress machine: each recipe tracks
//! how much of its craft sentence has been typed, and crafting completes
//! exactly when the whole sentence has been entered while the costs are
//! affordable.

use vstd::prelude::*;
use crate::resource_types::ResourceType;
use crate::save_system::SaveData;

verus! {

use vstd::string::StrSliceExecFns;
use vstd::string::StringExecFns;

/// `p` is an initial segment of `s`.
pub open spec fn is_prefix(p: Seq<char>, s: Seq<char>) -> bool {
    p.len() <= s.len() && p == s.subrange(0, p.len() as int)
}

/// Index of the first recipe carrying a name, or -1 when there is none.
pub open spec fn first_index_named(rs: Seq<Recipe>, name: Seq<char>) -> int
    decreases rs.len(),
{
    if rs.len() == 0 {
        -1
    } else if rs[0].name@ == name {
        0
    } else {
        let t = first_index_named(rs.drop_first(), name);
        if t == -1 {
            -1
        } else {
            t + 1
        }
    }
}

/// Which recipe a resource kind's harvest multiplier comes from.
pub open spec fn multiplier_recipe_name(t: ResourceType) -> Seq<char> {
    match t {
        ResourceType::Wood => "Upgrade Axe"@,
        ResourceType::Copper => "Upgrade Pickaxe"@,
    }
}

pub struct Recipe {
    pub name: String,
    pub description: String,
    /// A thematic sentence; typing it in full crafts the item.
    pub craft_sentence: String,
    /// How much of the sentence has been typed so far.
    pub current_input: String,
    /// Resource costs, one entry per resource kind.
    pub requirements: Vec<(ResourceType, u32)>,
    pub unlocks: Vec<String>,
    /// How many times this upgrade has been completed.
    pub upgrade_count: u32,
}

/// The typed input is always a prefix of the sentence, the sentence is never
/// empty, and the numeric fields stay small enough for the cost arithmetic.
pub open spec fn recipe_wf(r: Recipe) -> bool {
    &&& is_prefix(r.current_input@, r.craft_sentence@)
    &&& r.craft_sentence@.len() > 0
    &&& r.upgrade_count <= 100000
    &&& forall|k: int| 0 <= k < r.requirements@.len() ==> (#[trigger] r.requirements@[k]).1 <= 10000
    &&& forall|k1: int, k2: int|
        0 <= k1 < k2 < r.requirements@.len() ==> (#[trigger] r.requirements@[k1]).0 != (
        #[trigger] r.requirements@[k2]).0
}

/// Everything of two recipes agrees except possibly the typing progress and
/// the upgrade count.
pub open spec fn same_recipe_identity(a: Recipe, b: Recipe) -> bool {
    &&& a.name@ == b.name@
    &&& a.description@ == b.description@
    &&& a.craft_sentence@ == b.craft_sentence@
    &&& a.requirements@ == b.requirements@
}

impl Clone for Recipe {
    fn clone(&self) -> (r: Self)
        ensures
            same_recipe_identity(r, *self),
            r.current_input@ == self.current_input@,
            r.upgrade_count == self.upgrade_count,
    {
        let mut requirements: Vec<(ResourceType, u32)> = Vec::new();
        let mut i: usize = 0;
        while i < self.requirements.len()
            invariant
                i <= self.requirements@.len(),
                requirements@ =~= self.requirements@.subrange(0, i as int),
            decreases self.requirements@.len() - i,
        {
            requirements.push(self.requirements[i]);
            proof {
                assert(requirements@ =~= self.requirements@.subrange(0, i + 1));
            }
            i += 1;
        }
        proof {
            assert(requirements@ =~= self.requirements@);
        }
        let mut unlocks: Vec<String> = Vec::new();
        let mut j: usize = 0;
        while j < self.unlocks.len()
            invariant
                j <= self.unlocks@.len(),
            decreases self.unlocks@.len() - j,
        {
            unlocks.push(self.unlocks[j].clone());
            j += 1;
        }
        Recipe {
            name: self.name.clone(),
            description: self.description.clone(),
            craft_sentence: self.craft_sentence.clone(),
            current_input: self.current_input.clone(),
            requirements,
            unlocks,
            upgrade_count: self.upgrade_count,
        }
    }
}

/// Renaming none of the recipes leaves every name search unchanged.
proof fn lemma_first_index_same_names(rs1: Seq<Recipe>, rs2: Seq<Recipe>, name: Seq<char>)
    requires
        rs1.len() == rs2.len(),
        forall|k: int| 0 <= k < rs1.len() ==> (#[trigger] rs1[k]).name@ == rs2[k].name@,
    ensures
        first_index_named(rs1, name) == first_index_named(rs2, name),
    decreases rs1.len(),
{
    if rs1.len() > 0 {
        assert(rs1[0].name@ == rs2[0].name@);
        assert(forall|k: int|
            0 <= k < rs1.drop_first().len() ==> (#[trigger] rs1.drop_first()[k]).name@
                == rs2.drop_first()[k].name@);
        lemma_first_index_same_names(rs1.drop_first(), rs2.drop_first(), name);
    }
}

/// A found name's index is in range and carries the name; names before it
/// differ.
proof fn lemma_first_index_bounds(rs: Seq<Recipe>, name: Seq<char>)
    ensures
        first_index_named(rs, name) == -1 || (0 <= first_index_named(rs, name) < rs.len()
            && rs[first_index_named(rs, name)].name@ == name),
    decreases rs.len(),
{
    if rs.len() > 0 && rs[0].name@ != name {
        lemma_first_index_bounds(rs.drop_first(), name);
    }
}

/// When an index carries the name and no earlier one does, it is the first.
proof fn lemma_first_index_is(rs: Seq<Recipe>, name: Seq<char>, i: int)
    requires
        0 <= i < rs.len(),
        rs[i].name@ == name,
        forall|k: int| 0 <= k < i ==> (#[trigger] rs[k]).name@ != name,
    ensures
        first_index_named(rs, name) == i,
    decreases rs.len(),
{
    if i > 0 {
        assert(rs[0].name@ != name);
        assert(rs.drop_first()[i - 1].name@ == name);
        assert(forall|k: int|
            0 <= k < i - 1 ==> (#[trigger] rs.drop_first()[k]).name@ != name);
        lemma_first_index_is(rs.drop_first(), name, i - 1);
    }
}

/// When no recipe carries the name, the search yields -1.
proof fn lemma_first_index_none(rs: Seq<Recipe>, name: Seq<char>)
    requires
        forall|k: int| 0 <= k < rs.len() ==> (#[trigger] rs[k]).name@ != name,
    ensures
        first_index_named(rs, name) == -1,
    decreases rs.len(),
{
    if rs.len() > 0 {
        assert(forall|k: int|
            0 <= k < rs.drop_first().len() ==> (#[trigger] rs.drop_first()[k]).name@ != name);
        lemma_first_index_none(rs.drop_first(), name);
    }
}

/// The decimal digit character of `d`.
pub open spec fn spec_digit(d: int) -> char {
    if d == 0 {
        '0'
    } else if d == 1 {
        '1'
    } else if d == 2 {
        '2'
    } else if d == 3 {
        '3'
    } else if d == 4 {
        '4'
    } else if d == 5 {
        '5'
    } else if d == 6 {
        '6'
    } else if d == 7 {
        '7'
    } else if d == 8 {
        '8'
    } else {
        '9'
    }
}

/// The decimal rendering of a non-negative number, most significant digit
/// first.
pub open spec fn spec_decimal(v: int) -> Seq<char>
    decreases v
        when v >= 0
{
    if v < 10 {
        seq![spec_digit(v)]
    } else {
        spec_decimal(v / 10).push(spec_digit(v % 10))
    }
}

/// The digit characters of a digit list read back-to-front.
spec fn rev_digits(ds: Seq<u32>) -> Seq<char> {
    Seq::new(ds.len(), |i: int| spec_digit(ds[ds.len() - 1 - i] as int))
}

fn digit_str(d: u32) -> (r: &'static str)
    requires
        d < 10,
    ensures
        r@ == seq![spec_digit(d as int)],
{
    let r: &'static str = match d {
        0 => "0",
        1 => "1",
        2 => "2",
        3 => "3",
        4 => "4",
        5 => "5",
        6 => "6",
        7 => "7",
        8 => "8",
        _ => "9",
    };
    proof {
        reveal_strlit("0");
        reveal_strlit("1");
        reveal_strlit("2");
        reveal_strlit("3");
        reveal_strlit("4");
        reveal_strlit("5");
        reveal_strlit("6");
        reveal_strlit("7");
        reveal_strlit("8");
        reveal_strlit("9");
        assert(r@ =~= seq![spec_digit(d as int)]);
    }
    r
}

/// Renders a number in decimal.
fn u32_to_decimal(v: u32) -> (r: String)
    ensures
        r@ == spec_decimal(v as int),
{
    let mut digits: Vec<u32> = Vec::new();
    digits.push(v % 10);
    let mut x: u32 = v / 10;
    proof {
        assert(rev_digits(digits@) =~= seq![spec_digit((v % 10) as int)]);
        if v >= 10 {
            assert(spec_decimal(v as int) == spec_decimal(x as int).push(
                spec_digit((v % 10) as int),
            ));
            assert(spec_decimal(x as int) + rev_digits(digits@) =~= spec_decimal(v as int));
        } else {
            assert(spec_decimal(v as int) =~= rev_digits(digits@));
        }
    }
    while x > 0
        invariant
            digits@.len() >= 1,
            forall|k: int| 0 <= k < digits@.len() ==> (#[trigger] digits@[k]) < 10,
            x > 0 ==> spec_decimal(v as int) == spec_decimal(x as int) + rev_digits(digits@),
            x == 0 ==> spec_decimal(v as int) == rev_digits(digits@),
        decreases x,
    {
        let ghost pre = digits@;
        let ghost x0 = x;
        digits.push(x % 10);
        x = x / 10;
        proof {
            assert(rev_digits(digits@) =~= seq![spec_digit((x0 % 10) as int)] + rev_digits(pre));
            if x0 >= 10 {
                assert(spec_decimal(x0 as int) == spec_decimal((x0 / 10) as int).push(
                    spec_digit((x0 % 10) as int),
                ));
                assert(spec_decimal((x0 / 10) as int) + rev_digits(digits@) =~= spec_decimal(
                    x0 as int,
                ) + rev_digits(pre));
            } else {
                assert(spec_decimal(x0 as int) =~= seq![spec_digit((x0 % 10) as int)]);
                assert(rev_digits(digits@) =~= spec_decimal(x0 as int) + rev_digits(pre));
            }
        }
    }
    let mut r = String::new();
    let mut k: usize = digits.len();
    while k > 0
        invariant
            k <= digits@.len(),
            forall|q: int| 0 <= q < digits@.len() ==> (#[trigger] digits@[q]) < 10,
            r@ =~= rev_digits(digits@).take(digits@.len() - k),
        decreases k,
    {
        k -= 1;
        r.append(digit_str(digits[k]));
        proof {
            assert(r@ =~= rev_digits(digits@).take(digits@.len() - k));
        }
    }
    proof {
        assert(r@ =~= rev_digits(digits@));
    }
    r
}

/// The display text of one cost entry: the amount, a space, the kind's name.
pub open spec fn spec_entry_text(e: (ResourceType, u32)) -> Seq<char> {
    spec_decimal(e.1 as int) + seq![' '] + (match e.0 {
        ResourceType::Wood => "Wood"@,
        ResourceType::Copper => "Copper"@,
    })
}

/// The display text of the first `k` cost entries, joined by " + ".
pub open spec fn spec_requirements_text_prefix(reqs: Seq<(ResourceType, u32)>, k: int) -> Seq<char>
    decreases k
        when 0 <= k <= reqs.len()
{
    if k <= 0 {
        Seq::empty()
    } else if k == 1 {
        spec_entry_text(reqs[0])
    } else {
        spec_requirements_text_prefix(reqs, k - 1) + " + "@ + spec_entry_text(reqs[k - 1])
    }
}

pub struct CraftingManager {
    recipes: Vec<Recipe>,
    /// Parallel to `recipes`: whether each one is unlocked.
    unlocked_recipes: Vec<bool>,
    pub has_workbench: bool,
    completed_items: Vec<String>,
}

impl CraftingManager {
    pub closed spec fn spec_recipes(self) -> Seq<Recipe> {
        self.recipes@
    }

    pub closed spec fn spec_unlocked(self) -> Seq<bool> {
        self.unlocked_recipes@
    }

    pub closed spec fn spec_completed(self) -> Seq<String> {
        self.completed_items@
    }

    pub closed spec fn spec_has_workbench(self) -> bool {
        self.has_workbench
    }

    /// The unlock list mirrors the recipe list and every recipe is sound.
    pub open spec fn wf(self) -> bool {
        &&& self.spec_recipes().len() == self.spec_unlocked().len()
        &&& self.spec_recipes().len() < 0x1000_0000
        &&& forall|k: int|
            0 <= k < self.spec_recipes().len() ==> recipe_wf(#[trigger] self.spec_recipes()[k])
    }

    /// Whether a recipe may be shown and typed: the workbench only until it
    /// is built, everything else only once the workbench exists and the
    /// recipe was unlocked.
    pub closed spec fn spec_unlocked_at(self, index: int) -> bool {
        if index == 0 {
            !self.has_workbench
        } else {
            self.has_workbench && 0 <= index < self.spec_unlocked().len()
                && self.spec_unlocked()[index]
        }
    }

    /// Whether the given resource totals cover every cost entry of the
    /// recipe.
    pub open spec fn spec_affordable(recipe: Recipe, wood: u32, copper: u32) -> bool {
        forall|k: int|
            0 <= k < recipe.requirements@.len() ==> {
                let e = #[trigger] recipe.requirements@[k];
                &&& (e.0 == ResourceType::Wood ==> wood >= e.1)
                &&& (e.0 == ResourceType::Copper ==> copper >= e.1)
            }
    }

    /// The harvest multiplier a kind enjoys: one, plus one per completed
    /// upgrade of its tool.
    pub open spec fn spec_multiplier(self, t: ResourceType) -> int {
        let idx = first_index_named(self.spec_recipes(), multiplier_recipe_name(t));
        if idx == -1 {
            1
        } else {
            1 + self.spec_recipes()[idx].upgrade_count
        }
    }

    /// Which recipes are unlocked is decided by the workbench flag and the
    /// unlock list alone.
    pub proof fn lemma_unlocked_at_agrees(a: CraftingManager, b: CraftingManager, i: int)
        requires
            a.spec_has_workbench() == b.spec_has_workbench(),
            a.spec_unlocked() == b.spec_unlocked(),
        ensures
            a.spec_unlocked_at(i) == b.spec_unlocked_at(i),
    {
    }

    /// The harvest multiplier depends only on recipe names and upgrade
    /// counts.
    pub proof fn lemma_multiplier_agrees(a: CraftingManager, b: CraftingManager, t: ResourceType)
        requires
            a.spec_recipes().len() == b.spec_recipes().len(),
            forall|k: int|
                0 <= k < a.spec_recipes().len() ==> (#[trigger] a.spec_recipes()[k]).name@
                    == b.spec_recipes()[k].name@ && a.spec_recipes()[k].upgrade_count
                    == b.spec_recipes()[k].upgrade_count,
        ensures
            a.spec_multiplier(t) == b.spec_multiplier(t),
    {
        lemma_first_index_same_names(
            a.spec_recipes(),
            b.spec_recipes(),
            multiplier_recipe_name(t),
        );
        lemma_first_index_bounds(a.spec_recipes(), multiplier_recipe_name(t));
    }

    /// The starting recipe book: the workbench, available from the start,
    /// and the two tool upgrades it unlocks.
    pub fn new() -> (r: Self)
        ensures
            r.wf(),
            r.spec_recipes().len() == 3,
            r.spec_unlocked().len() == 3,
            r.spec_unlocked()[0] && !r.spec_unlocked()[1] && !r.spec_unlocked()[2],
            !r.spec_has_workbench(),
            r.spec_completed().len() == 0,
            r.spec_recipes()[0].name@ == "Workbench"@,
            r.spec_recipes()[1].name@ == "Upgrade Axe"@,
            r.spec_recipes()[2].name@ == "Upgrade Pickaxe"@,
            forall|k: int|
                0 <= k < 3 ==> (#[trigger] r.spec_recipes()[k]).current_input@.len() == 0
                    && r.spec_recipes()[k].upgrade_count == 0,
            first_index_named(r.spec_recipes(), "Upgrade Axe"@) == 1,
            first_index_named(r.spec_recipes(), "Upgrade Pickaxe"@) == 2,
            r.spec_recipes()[0].requirements@ =~= seq![
                (ResourceType::Wood, 15u32),
                (ResourceType::Copper, 10u32),
            ],
            r.spec_recipes()[1].requirements@ =~= seq![
                (ResourceType::Wood, 20u32),
                (ResourceType::Copper, 15u32),
            ],
            r.spec_recipes()[2].requirements@ =~= seq![
                (ResourceType::Wood, 15u32),
                (ResourceType::Copper, 20u32),
            ],
    {
        let mut recipes: Vec<Recipe> = Vec::new();
        let mut unlocked_recipes: Vec<bool> = Vec::new();

        let mut workbench_reqs: Vec<(ResourceType, u32)> = Vec::new();
        workbench_reqs.push((ResourceType::Wood, 15));
        workbench_reqs.push((ResourceType::Copper, 10));
        let mut workbench_unlocks: Vec<String> = Vec::new();
        workbench_unlocks.push("Advanced Tools".to_owned());
        recipes.push(
            Recipe {
                name: "Workbench".to_owned(),
                description: "A basic crafting station. Unlocks new recipes.".to_owned(),
                craft_sentence:
                    "I carefully assemble wooden planks and copper joints to build a sturdy workbench.".to_owned(),
                current_input: String::new(),
                requirements: workbench_reqs,
                unlocks: workbench_unlocks,
                upgrade_count: 0,
            },
        );
        unlocked_recipes.push(true);

        let mut axe_reqs: Vec<(ResourceType, u32)> = Vec::new();
        axe_reqs.push((ResourceType::Wood, 20));
        axe_reqs.push((ResourceType::Copper, 15));
        recipes.push(
            Recipe {
                name: "Upgrade Axe".to_owned(),
                description: "+1 Wood per harvest".to_owned(),
                craft_sentence:
                    "I sharpen my axe blade and reinforce the handle for better wood harvesting.".to_owned(),
                current_input: String::new(),
                requirements: axe_reqs,
                unlocks: Vec::new(),
                upgrade_count: 0,
            },
        );
        unlocked_recipes.push(false);

        let mut pickaxe_reqs: Vec<(ResourceType, u32)> = Vec::new();
        pickaxe_reqs.push((ResourceType::Wood, 15));
        pickaxe_reqs.push((ResourceType::Copper, 20));
        recipes.push(
            Recipe {
                name: "Upgrade Pickaxe".to_owned(),
                description: "+1 Copper per harvest".to_owned(),
                craft_sentence:
                    "I forge a stronger pickaxe head and balance it for efficient mining.".to_owned(),
                current_input: String::new(),
                requirements: pickaxe_reqs,
                unlocks: Vec::new(),
                upgrade_count: 0,
            },
        );
        unlocked_recipes.push(false);

        let r = CraftingManager {
            recipes,
            unlocked_recipes,
            has_workbench: false,
            completed_items: Vec::new(),
        };
        proof {
            reveal_strlit("Workbench");
            reveal_strlit("Upgrade Axe");
            reveal_strlit("Upgrade Pickaxe");
            reveal_strlit(
                "I carefully assemble wooden planks and copper joints to build a sturdy workbench.",
            );
            reveal_strlit(
                "I sharpen my axe blade and reinforce the handle for better wood harvesting.",
            );
            reveal_strlit("I forge a stronger pickaxe head and balance it for efficient mining.");
            let rs = r.spec_recipes();
            assert("Workbench"@.len() == 9);
            assert("Upgrade Axe"@.len() == 11);
            assert("Upgrade Pickaxe"@.len() == 15);
            assert(rs[0].name@ != "Upgrade Axe"@);
            assert(rs[0].name@ != "Upgrade Pickaxe"@);
            assert(rs[1].name@ != "Upgrade Pickaxe"@);
            lemma_first_index_is(rs, "Upgrade Axe"@, 1);
            lemma_first_index_is(rs, "Upgrade Pickaxe"@, 2);
            assert(rs[0].current_input@ =~= rs[0].craft_sentence@.subrange(0, 0));
            assert(rs[1].current_input@ =~= rs[1].craft_sentence@.subrange(0, 0));
            assert(rs[2].current_input@ =~= rs[2].craft_sentence@.subrange(0, 0));
            assert(forall|k: int| 0 <= k < 3 ==> recipe_wf(#[trigger] rs[k]));
        }
        r
    }

    pub fn get_recipes(&self) -> (r: &Vec<Recipe>)
        ensures
            r@ == self.spec_recipes(),
    {
        &self.recipes
    }

    pub fn is_recipe_unlocked(&self, index: usize) -> (r: bool)
        ensures
            r == self.spec_unlocked_at(index as int),
    {
        if index == 0 {
            !self.has_workbench
        } else {
            self.has_workbench && index < self.unlocked_recipes.len()
                && self.unlocked_recipes[index]
        }
    }

    /// Whether the workbench has been crafted.
    pub fn workbench_built(&self) -> (r: bool)
        ensures
            r == self.spec_has_workbench(),
    {
        self.has_workbench
    }

    pub fn get_completed_items(&self) -> (r: &Vec<String>)
        ensures
            r@ == self.spec_completed(),
    {
        &self.completed_items
    }

    /// Sets the upgrade count of the first recipe with the given name; a
    /// missing name is a no-op.
    fn set_upgrade_count(&mut self, name: &str, count: u32)
        requires
            old(self).wf(),
            count <= 100000,
        ensures
            final(self).wf(),
            final(self).spec_has_workbench() == old(self).spec_has_workbench(),
            final(self).spec_unlocked() == old(self).spec_unlocked(),
            final(self).spec_completed() == old(self).spec_completed(),
            final(self).spec_recipes().len() == old(self).spec_recipes().len(),
            forall|k: int|
                0 <= k < old(self).spec_recipes().len() ==> same_recipe_identity(
                    #[trigger] final(self).spec_recipes()[k],
                    old(self).spec_recipes()[k],
                ) && final(self).spec_recipes()[k].current_input@ == old(self).spec_recipes()[k].current_input@,
            ({
                let idx = first_index_named(old(self).spec_recipes(), name@);
                &&& (idx >= 0 ==> final(self).spec_recipes()[idx].upgrade_count == count)
                &&& forall|k: int|
                    0 <= k < old(self).spec_recipes().len() && k != idx ==> (#[trigger] final(self).spec_recipes()[k]).upgrade_count == old(self).spec_recipes()[k].upgrade_count
            }),
    {
        let needle: String = name.to_owned();
        let mut i: usize = 0;
        while i < self.recipes.len()
            invariant
                self == old(self),
                old(self).wf(),
                count <= 100000,
                needle@ == name@,
                i <= self.spec_recipes().len(),
                forall|k: int| 0 <= k < i ==> (#[trigger] self.spec_recipes()[k]).name@ != name@,
            decreases self.spec_recipes().len() - i,
        {
            if self.recipes[i].name == needle {
                proof {
                    lemma_first_index_is(self.spec_recipes(), name@, i as int);
                }
                let rec = &mut self.recipes[i];
                rec.upgrade_count = count;
                proof {
                    let idx = first_index_named(old(self).spec_recipes(), name@);
                    assert(idx == i);
                    assert forall|k: int|
                        0 <= k < self.spec_recipes().len() implies recipe_wf(
                        #[trigger] self.spec_recipes()[k],
                    ) by {
                        if k != idx {
                            assert(self.spec_recipes()[k] == old(self).spec_recipes()[k]);
                        }
                    }
                }
                return ;
            }
            i += 1;
        }
        proof {
            lemma_first_index_none(self.spec_recipes(), name@);
        }
    }

    /// Restores crafting progression from a loaded save: workbench status,
    /// completed one-time items, the two tools' upgrade counts, and the
    /// unlock flags the workbench implies.
    pub fn load_from_save(&mut self, save_data: &SaveData)
        requires
            old(self).wf(),
            save_data.axe_upgrade_count <= 100000,
            save_data.pickaxe_upgrade_count <= 100000,
        ensures
            final(self).wf(),
            final(self).spec_has_workbench() == save_data.has_workbench,
            final(self).spec_completed().len() == save_data.completed_items@.len(),
            forall|k: int|
                0 <= k < save_data.completed_items@.len() ==> (#[trigger] final(self).spec_completed()[k])@ == save_data.completed_items@[k]@,
            final(self).spec_recipes().len() == old(self).spec_recipes().len(),
            forall|k: int|
                0 <= k < old(self).spec_recipes().len() ==> same_recipe_identity(
                    #[trigger] final(self).spec_recipes()[k],
                    old(self).spec_recipes()[k],
                ) && final(self).spec_recipes()[k].current_input@ == old(self).spec_recipes()[k].current_input@,
            ({
                let axe = first_index_named(old(self).spec_recipes(), "Upgrade Axe"@);
                axe >= 0 ==> final(self).spec_recipes()[axe].upgrade_count
                    == save_data.axe_upgrade_count
            }),
            ({
                let pick = first_index_named(old(self).spec_recipes(), "Upgrade Pickaxe"@);
                pick >= 0 ==> final(self).spec_recipes()[pick].upgrade_count
                    == save_data.pickaxe_upgrade_count
            }),
            save_data.has_workbench ==> forall|k: int|
                1 <= k < final(self).spec_unlocked().len() ==> #[trigger] final(self).spec_unlocked()[k],
    {
        proof {
            reveal_strlit("Upgrade Axe");
            reveal_strlit("Upgrade Pickaxe");
            lemma_first_index_bounds(self.spec_recipes(), "Upgrade Axe"@);
            lemma_first_index_bounds(self.spec_recipes(), "Upgrade Pickaxe"@);
        }
        self.has_workbench = save_data.has_workbench;
        let mut completed: Vec<String> = Vec::new();
        let mut i: usize = 0;
        while i < save_data.completed_items.len()
            invariant
                i <= save_data.completed_items@.len(),
                completed@.len() == i,
                forall|k: int|
                    0 <= k < i ==> (#[trigger] completed@[k])@ == save_data.completed_items@[k]@,
            decreases save_data.completed_items@.len() - i,
        {
            completed.push(save_data.completed_items[i].clone());
            i += 1;
        }
        self.completed_items = completed;

        self.set_upgrade_count("Upgrade Axe", save_data.axe_upgrade_count);
        proof {
            lemma_first_index_same_names(
                self.spec_recipes(),
                old(self).spec_recipes(),
                "Upgrade Axe"@,
            );
            lemma_first_index_same_names(
                self.spec_recipes(),
                old(self).spec_recipes(),
                "Upgrade Pickaxe"@,
            );
            reveal_strlit("Upgrade Axe");
            reveal_strlit("Upgrade Pickaxe");
            assert("Upgrade Axe"@.len() == 11 && "Upgrade Pickaxe"@.len() == 15);
            assert("Upgrade Axe"@ != "Upgrade Pickaxe"@);
        }
        self.set_upgrade_count("Upgrade Pickaxe", save_data.pickaxe_upgrade_count);

        if self.has_workbench {
            let ghost before = *self;
            let mut k: usize = 1;
            while k < self.unlocked_recipes.len()
                invariant
                    1 <= k,
                    k <= self.spec_unlocked().len() || k == 1,
                    self.spec_recipes() == before.spec_recipes(),
                    self.spec_completed() == before.spec_completed(),
                    self.has_workbench == before.has_workbench,
                    self.spec_unlocked().len() == before.spec_unlocked().len(),
                    self.spec_unlocked()[0] == before.spec_unlocked()[0],
                    forall|j: int| 1 <= j < k ==> #[trigger] self.spec_unlocked()[j],
                decreases self.spec_unlocked().len() - k,
            {
                self.unlocked_recipes.set(k, true);
                k += 1;
            }
        }
    }

    /// The human-readable cost list of a recipe: each amount with its kind's
    /// name, joined by " + ".
    pub fn get_requirements_text(&self, recipe: &Recipe) -> (r: String)
        ensures
            r@ == spec_requirements_text_prefix(recipe.requirements@, recipe.requirements@.len() as int),
    {
        let mut r = String::new();
        let mut k: usize = 0;
        proof {
            reveal_strlit(" + ");
            reveal_strlit(" ");
            reveal_strlit("Wood");
            reveal_strlit("Copper");
        }
        while k < recipe.requirements.len()
            invariant
                k <= recipe.requirements@.len(),
                r@ == spec_requirements_text_prefix(recipe.requirements@, k as int),
            decreases recipe.requirements@.len() - k,
        {
            proof {
                reveal_strlit(" + ");
                reveal_strlit(" ");
                reveal_strlit("Wood");
                reveal_strlit("Copper");
            }
            if k > 0 {
                r.append(" + ");
            }
            let (kind, amount) = recipe.requirements[k];
            let number = u32_to_decimal(amount);
            r.append(number.as_str());
            r.append(" ");
            r.append(kind.get_display_name());
            proof {
                assert(" "@ =~= seq![' ']);
                assert(r@ =~= spec_requirements_text_prefix(recipe.requirements@, k + 1));
            }
            k += 1;
        }
        r
    }

    /// Whether a recipe is currently craftable: it exists, it is unlocked,
    /// and the given resource totals cover all of its costs.
    pub fn can_craft(&self, recipe_index: usize, wood: u32, copper: u32) -> (r: bool)
        requires
            self.wf(),
        ensures
            r == (recipe_index < self.spec_recipes().len() && self.spec_unlocked_at(
                recipe_index as int,
            ) && Self::spec_affordable(self.spec_recipes()[recipe_index as int], wood, copper)),
    {
        if recipe_index >= self.recipes.len() {
            return false;
        }
        if !self.is_recipe_unlocked(recipe_index) {
            return false;
        }
        let recipe = &self.recipes[recipe_index];
        let mut k: usize = 0;
        while k < recipe.requirements.len()
            invariant
                recipe_index < self.spec_recipes().len(),
                *recipe == self.spec_recipes()[recipe_index as int],
                self.spec_unlocked_at(recipe_index as int),
                k <= recipe.requirements@.len(),
                forall|j: int|
                    0 <= j < k ==> {
                        let e = #[trigger] recipe.requirements@[j];
                        &&& (e.0 == ResourceType::Wood ==> wood >= e.1)
                        &&& (e.0 == ResourceType::Copper ==> copper >= e.1)
                    },
            decreases recipe.requirements@.len() - k,
        {
            let (t, amount) = recipe.requirements[k];
            match t {
                ResourceType::Wood => {
                    if wood < amount {
                        proof {
                            assert(recipe.requirements@[k as int].0 == ResourceType::Wood
                                && wood < recipe.requirements@[k as int].1);
                            assert(!Self::spec_affordable(
                                self.spec_recipes()[recipe_index as int],
                                wood,
                                copper,
                            ));
                        }
                        return false;
                    }
                },
                ResourceType::Copper => {
                    if copper < amount {
                        proof {
                            assert(recipe.requirements@[k as int].0 == ResourceType::Copper
                                && copper < recipe.requirements@[k as int].1);
                            assert(!Self::spec_affordable(
                                self.spec_recipes()[recipe_index as int],
                                wood,
                                copper,
                            ));
                        }
                        return false;
                    }
                },
            }
            k += 1;
        }
        true
    }

    /// Completes a craft if its sentence is fully typed: clears the typing
    /// progress, unlocks the follow-up recipes when the workbench was built,
    /// bumps the upgrade count otherwise, and hands back the finished recipe
    /// with its costs. Anything else is a no-op returning `None`.
    pub fn craft_item(&mut self, recipe_index: usize) -> (r: Option<
        (Recipe, Vec<(ResourceType, u32)>),
    >)
        requires
            old(self).wf(),
        ensures
            final(self).wf(),
            r is None ==> *final(self) == *old(self) && (recipe_index >= old(self).spec_recipes().len()
                || old(self).spec_recipes()[recipe_index as int].current_input@ != old(self).spec_recipes()[recipe_index as int].craft_sentence@),
            r matches Some(t) ==> {
                let idx = recipe_index as int;
                let rs0 = old(self).spec_recipes();
                let rs1 = final(self).spec_recipes();
                &&& idx < rs0.len()
                &&& rs0[idx].current_input@ == rs0[idx].craft_sentence@
                &&& rs1.len() == rs0.len()
                &&& rs1[idx].current_input@.len() == 0
                &&& same_recipe_identity(rs1[idx], rs0[idx])
                &&& forall|k: int| 0 <= k < rs0.len() && k != idx ==> rs1[k] == rs0[k]
                &&& t.1@ == rs0[idx].requirements@
                &&& same_recipe_identity(t.0, rs0[idx])
                &&& t.0.current_input@.len() == 0
                &&& (idx == 0 ==> final(self).spec_has_workbench() && rs1[idx].upgrade_count
                    == rs0[idx].upgrade_count && final(self).spec_completed().len() == old(self).spec_completed().len() + 1 && (final(self).spec_completed().last())@
                    == "Workbench"@ && (forall|k: int|
                    1 <= k < final(self).spec_unlocked().len() ==> #[trigger] final(self).spec_unlocked()[k]))
                &&& (idx != 0 ==> final(self).spec_has_workbench() == old(self).spec_has_workbench() && final(self).spec_completed() == old(self).spec_completed() && final(self).spec_unlocked()
                    == old(self).spec_unlocked() && rs1[idx].upgrade_count as int == vstd::math::min(
                    rs0[idx].upgrade_count + 1,
                    100000,
                ))
            },
    {
        if recipe_index >= self.recipes.len() {
            return None;
        }
        let complete = {
            let recipe = &self.recipes[recipe_index];
            recipe.current_input == recipe.craft_sentence
        };
        if !complete {
            return None;
        }

        if recipe_index == 0 {
            self.has_workbench = true;
            self.completed_items.push("Workbench".to_owned());
            let mut k: usize = 1;
            while k < self.unlocked_recipes.len()
                invariant
                    1 <= k,
                    old(self).wf(),
                    self.spec_recipes() == old(self).spec_recipes(),
                    self.has_workbench,
                    self.spec_completed().len() == old(self).spec_completed().len() + 1,
                    (self.spec_completed().last())@ == "Workbench"@,
                    forall|j: int|
                        0 <= j < old(self).spec_completed().len() ==> #[trigger] self.spec_completed()[j]
                            == old(self).spec_completed()[j],
                    self.spec_unlocked().len() == old(self).spec_unlocked().len(),
                    forall|j: int| 1 <= j < k ==> #[trigger] self.spec_unlocked()[j],
                decreases self.spec_unlocked().len() - k,
            {
                self.unlocked_recipes.set(k, true);
                k += 1;
            }
        } else {
            let rec = &mut self.recipes[recipe_index];
            if rec.upgrade_count < 100000 {
                rec.upgrade_count = rec.upgrade_count + 1;
            }
        }

        let rec = &mut self.recipes[recipe_index];
        rec.current_input = String::new();
        let result_recipe = self.recipes[recipe_index].clone();
        let costs = {
            let recipe = &self.recipes[recipe_index];
            let mut costs: Vec<(ResourceType, u32)> = Vec::new();
            let mut k: usize = 0;
            while k < recipe.requirements.len()
                invariant
                    k <= recipe.requirements@.len(),
                    costs@ =~= recipe.requirements@.subrange(0, k as int),
                decreases recipe.requirements@.len() - k,
            {
                costs.push(recipe.requirements[k]);
                proof {
                    assert(costs@ =~= recipe.requirements@.subrange(0, k + 1));
                }
                k += 1;
            }
            proof {
                assert(costs@ =~= recipe.requirements@);
            }
            costs
        };
        proof {
            let idx = recipe_index as int;
            assert(self.spec_recipes()[idx].current_input@
                =~= self.spec_recipes()[idx].craft_sentence@.subrange(0, 0));
            assert(recipe_wf(self.spec_recipes()[idx]));
            assert forall|k: int|
                0 <= k < self.spec_recipes().len() implies recipe_wf(
                #[trigger] self.spec_recipes()[k],
            ) by {
                if k != idx {
                    assert(self.spec_recipes()[k] == old(self).spec_recipes()[k]);
                }
            }
        }
        Some((result_recipe, costs))
    }

    /// Feeds one keystroke to a recipe's typing progress: a matching next
    /// character extends the input and returns true; a wrong character
    /// clears the input; a finished or missing recipe is left alone.
    pub fn handle_input(&mut self, recipe_index: usize, c: char) -> (r: bool)
        requires
            old(self).wf(),
        ensures
            final(self).wf(),
            r == (recipe_index < old(self).spec_recipes().len() && {
                let rec = old(self).spec_recipes()[recipe_index as int];
                rec.current_input@.len() < rec.craft_sentence@.len()
                    && rec.craft_sentence@[rec.current_input@.len() as int] == c
            }),
            final(self).spec_has_workbench() == old(self).spec_has_workbench(),
            final(self).spec_unlocked() == old(self).spec_unlocked(),
            final(self).spec_completed() == old(self).spec_completed(),
            final(self).spec_recipes().len() == old(self).spec_recipes().len(),
            forall|k: int|
                0 <= k < old(self).spec_recipes().len() && k != recipe_index ==> #[trigger] final(self).spec_recipes()[k] == old(self).spec_recipes()[k],
            recipe_index < old(self).spec_recipes().len() ==> {
                let rec0 = old(self).spec_recipes()[recipe_index as int];
                let rec1 = final(self).spec_recipes()[recipe_index as int];
                &&& same_recipe_identity(rec1, rec0)
                &&& rec1.upgrade_count == rec0.upgrade_count
                &&& (r ==> rec1.current_input@ == rec0.craft_sentence@.subrange(
                    0,
                    rec0.current_input@.len() as int + 1,
                ))
                &&& (!r && rec0.current_input@.len() < rec0.craft_sentence@.len()
                    ==> rec1.current_input@.len() == 0)
                &&& (!r && rec0.current_input@.len() >= rec0.craft_sentence@.len() ==> rec1
                    == rec0)
            },
    {
        if recipe_index >= self.recipes.len() {
            return false;
        }
        let current_pos = self.recipes[recipe_index].current_input.as_str().unicode_len();
        let sentence_len = self.recipes[recipe_index].craft_sentence.as_str().unicode_len();
        if current_pos >= sentence_len {
            return false;
        }
        let expected = self.recipes[recipe_index].craft_sentence.as_str().get_char(current_pos);
        if expected == c {
            let next = {
                let recipe = &self.recipes[recipe_index];
                recipe.craft_sentence.as_str().substring_char(0, current_pos + 1).to_owned()
            };
            let rec = &mut self.recipes[recipe_index];
            rec.current_input = next;
            proof {
                let idx = recipe_index as int;
                let rec0 = old(self).spec_recipes()[idx];
                assert(self.spec_recipes()[idx].current_input@ == rec0.craft_sentence@.subrange(
                    0,
                    rec0.current_input@.len() as int + 1,
                ));
                assert(self.spec_recipes()[idx].current_input@
                    =~= self.spec_recipes()[idx].craft_sentence@.subrange(
                    0,
                    self.spec_recipes()[idx].current_input@.len() as int,
                ));
                assert(recipe_wf(self.spec_recipes()[idx]));
                assert forall|k: int|
                    0 <= k < self.spec_recipes().len() implies recipe_wf(
                    #[trigger] self.spec_recipes()[k],
                ) by {
                    if k != idx {
                        assert(self.spec_recipes()[k] == old(self).spec_recipes()[k]);
                    }
                }
            }
            true
        } else {
            let rec = &mut self.recipes[recipe_index];
            rec.current_input = String::new();
            proof {
                let idx = recipe_index as int;
                assert(self.spec_recipes()[idx].current_input@
                    =~= self.spec_recipes()[idx].craft_sentence@.subrange(0, 0));
                assert(recipe_wf(self.spec_recipes()[idx]));
                assert forall|k: int|
                    0 <= k < self.spec_recipes().len() implies recipe_wf(
                    #[trigger] self.spec_recipes()[k],
                ) by {
                    if k != idx {
                        assert(self.spec_recipes()[k] == old(self).spec_recipes()[k]);
                    }
                }
            }
            false
        }
    }

    /// Abandons a recipe's typing progress; a missing index is a no-op.
    pub fn clear_input(&mut self, recipe_index: usize)
        requires
            old(self).wf(),
        ensures
            final(self).wf(),
            final(self).spec_has_workbench() == old(self).spec_has_workbench(),
            final(self).spec_unlocked() == old(self).spec_unlocked(),
            final(self).spec_completed() == old(self).spec_completed(),
            final(self).spec_recipes().len() == old(self).spec_recipes().len(),
            forall|k: int|
                0 <= k < old(self).spec_recipes().len() && k != recipe_index ==> #[trigger] final(self).spec_recipes()[k] == old(self).spec_recipes()[k],
            recipe_index < old(self).spec_recipes().len() ==> {
                let rec0 = old(self).spec_recipes()[recipe_index as int];
                let rec1 = final(self).spec_recipes()[recipe_index as int];
                &&& same_recipe_identity(rec1, rec0)
                &&& rec1.upgrade_count == rec0.upgrade_count
                &&& rec1.current_input@.len() == 0
            },
    {
        if recipe_index < self.recipes.len() {
            let rec = &mut self.recipes[recipe_index];
            rec.current_input = String::new();
            proof {
                let idx = recipe_index as int;
                assert(self.spec_recipes()[idx].current_input@
                    =~= self.spec_recipes()[idx].craft_sentence@.subrange(0, 0));
                assert(recipe_wf(self.spec_recipes()[idx]));
                assert forall|k: int|
                    0 <= k < self.spec_recipes().len() implies recipe_wf(
                    #[trigger] self.spec_recipes()[k],
                ) by {
                    if k != idx {
                        assert(self.spec_recipes()[k] == old(self).spec_recipes()[k]);
                    }
                }
            }
        }
    }

    /// The current per-harvest multiplier of a resource kind: one plus the
    /// upgrade count of its tool recipe. The harvest applies the floor of the
    /// multiplier, never less than one, which is exactly the whole number
    /// returned here.
    pub fn get_multiplier(&self, resource_type: &ResourceType) -> (r: u32)
        requires
            self.wf(),
        ensures
            r == self.spec_multiplier(*resource_type),
            r >= 1,
    {
        proof {
            reveal_strlit("Upgrade Axe");
            reveal_strlit("Upgrade Pickaxe");
            lemma_first_index_bounds(
                self.spec_recipes(),
                multiplier_recipe_name(*resource_type),
            );
        }
        let name: &str = match resource_type {
            ResourceType::Wood => "Upgrade Axe",
            ResourceType::Copper => "Upgrade Pickaxe",
        };
        let needle: String = name.to_owned();
        let mut i: usize = 0;
        while i < self.recipes.len()
            invariant
                self.wf(),
                needle@ == multiplier_recipe_name(*resource_type),
                i <= self.spec_recipes().len(),
                forall|k: int| 0 <= k < i ==> (#[trigger] self.spec_recipes()[k]).name@ != needle@,
            decreases self.spec_recipes().len() - i,
        {
            if self.recipes[i].name == needle {
                proof {
                    lemma_first_index_is(self.spec_recipes(), needle@, i as int);
                }
                return 1 + self.recipes[i].upgrade_count;
            }
            i += 1;
        }
        proof {
            lemma_first_index_none(self.spec_recipes(), needle@);
        }
        1
    }

    /// The cost of the next completion of an upgrade recipe: each cost rises
    /// by half its base per completed upgrade. A missing recipe costs
    /// nothing.
    pub fn get_next_upgrade_cost(&self, recipe_index: usize) -> (r: Vec<(ResourceType, u32)>)
        requires
            self.wf(),
        ensures
            recipe_index >= self.spec_recipes().len() ==> r@.len() == 0,
            recipe_index < self.spec_recipes().len() ==> {
                let reqs = self.spec_recipes()[recipe_index as int].requirements@;
                let count = self.spec_recipes()[recipe_index as int].upgrade_count as int;
                r@.len() == reqs.len() && forall|k: int|
                    0 <= k < reqs.len() ==> (#[trigger] r@[k]).0 == reqs[k].0 && r@[k].1 as int
                        == reqs[k].1 + (reqs[k].1 * count) / 2
            },
    {
        let mut increased: Vec<(ResourceType, u32)> = Vec::new();
        if recipe_index < self.recipes.len() {
            let recipe = &self.recipes[recipe_index];
            let crafted_count = recipe.upgrade_count;
            let mut k: usize = 0;
            while k < recipe.requirements.len()
                invariant
                    self.wf(),
                    recipe == self.spec_recipes()[recipe_index as int],
                    recipe_index < self.spec_recipes().len(),
                    crafted_count == recipe.upgrade_count,
                    k <= recipe.requirements@.len(),
                    increased@.len() == k,
                    forall|j: int|
                        0 <= j < k ==> (#[trigger] increased@[j]).0 == recipe.requirements@[j].0
                            && increased@[j].1 as int == recipe.requirements@[j].1 + (
                        recipe.requirements@[j].1 * crafted_count as int) / 2,
                decreases recipe.requirements@.len() - k,
            {
                let (t, base_cost) = recipe.requirements[k];
                proof {
                    assert(base_cost <= 10000 && crafted_count <= 100000);
                    assert(base_cost * crafted_count <= 10000 * 100000) by (nonlinear_arith)
                        requires
                            0 <= base_cost <= 10000,
                            0 <= crafted_count <= 100000,
                    ;
                    assert(0 <= base_cost * crafted_count) by (nonlinear_arith)
                        requires
                            0 <= base_cost,
                            0 <= crafted_count,
                    ;
                }
                let extra = (base_cost * crafted_count) / 2;
                increased.push((t, base_cost + extra));
                k += 1;
            }
        }
        increased
    }
}

} // verus!
