use keycrafter::crafting::CraftingManager;
use keycrafter::resource_types::ResourceType;
use keycrafter::save_system::SaveData;

fn fresh_save() -> SaveData {
    SaveData {
        version: 1,
        player_wood: 0,
        player_copper: 0,
        completed_items: Vec::new(),
        has_workbench: false,
        axe_upgrade_count: 0,
        pickaxe_upgrade_count: 0,
        save_timestamp: 0,
    }
}

#[test]
fn starting_recipe_book() {
    let crafting = CraftingManager::new();
    let recipes = crafting.get_recipes();
    assert_eq!(recipes.len(), 3);
    assert_eq!(recipes[0].name, "Workbench");
    assert_eq!(recipes[1].name, "Upgrade Axe");
    assert_eq!(recipes[2].name, "Upgrade Pickaxe");
    assert!(crafting.is_recipe_unlocked(0));
    assert!(!crafting.is_recipe_unlocked(1));
    assert!(!crafting.is_recipe_unlocked(2));
    assert!(!crafting.workbench_built());
    assert!(crafting.get_completed_items().is_empty());
}

#[test]
fn typing_advances_and_resets() {
    let mut crafting = CraftingManager::new();
    assert!(crafting.handle_input(0, 'I'));
    assert_eq!(crafting.get_recipes()[0].current_input, "I");
    assert!(crafting.handle_input(0, ' '));
    assert_eq!(crafting.get_recipes()[0].current_input, "I ");
    // A wrong letter abandons the whole attempt.
    assert!(!crafting.handle_input(0, 'z'));
    assert_eq!(crafting.get_recipes()[0].current_input, "");
}

#[test]
fn craft_item_needs_a_finished_sentence() {
    let mut crafting = CraftingManager::new();
    assert!(crafting.craft_item(0).is_none());
    assert!(crafting.handle_input(0, 'I'));
    assert!(crafting.craft_item(0).is_none());
    assert!(crafting.craft_item(99).is_none());
}

#[test]
fn crafting_the_workbench_unlocks_upgrades() {
    let mut crafting = CraftingManager::new();
    let sentence = crafting.get_recipes()[0].craft_sentence.clone();
    for ch in sentence.chars() {
        assert!(crafting.handle_input(0, ch));
    }
    let (recipe, costs) = crafting.craft_item(0).expect("fully typed sentence crafts");
    assert_eq!(recipe.name, "Workbench");
    assert!(costs.contains(&(ResourceType::Wood, 15)));
    assert!(costs.contains(&(ResourceType::Copper, 10)));
    assert!(crafting.workbench_built());
    assert!(!crafting.is_recipe_unlocked(0));
    assert!(crafting.is_recipe_unlocked(1));
    assert!(crafting.is_recipe_unlocked(2));
    assert_eq!(crafting.get_completed_items(), &vec!["Workbench".to_string()]);
    assert_eq!(crafting.get_recipes()[0].current_input, "");
}

#[test]
fn upgrades_raise_the_multiplier() {
    let mut crafting = CraftingManager::new();
    assert_eq!(crafting.get_multiplier(&ResourceType::Wood), 1);
    assert_eq!(crafting.get_multiplier(&ResourceType::Copper), 1);
    let mut save = fresh_save();
    save.has_workbench = true;
    save.axe_upgrade_count = 2;
    save.pickaxe_upgrade_count = 1;
    crafting.load_from_save(&save);
    assert_eq!(crafting.get_multiplier(&ResourceType::Wood), 3);
    assert_eq!(crafting.get_multiplier(&ResourceType::Copper), 2);
    assert!(crafting.is_recipe_unlocked(1));
    assert!(crafting.is_recipe_unlocked(2));
}

#[test]
fn upgrade_cost_rises_by_half_the_base_per_level() {
    let mut crafting = CraftingManager::new();
    let base = crafting.get_next_upgrade_cost(1);
    assert!(base.contains(&(ResourceType::Wood, 20)));
    assert!(base.contains(&(ResourceType::Copper, 15)));
    let mut save = fresh_save();
    save.axe_upgrade_count = 2;
    crafting.load_from_save(&save);
    let raised = crafting.get_next_upgrade_cost(1);
    assert!(raised.contains(&(ResourceType::Wood, 40)));
    assert!(raised.contains(&(ResourceType::Copper, 30)));
    assert!(crafting.get_next_upgrade_cost(99).is_empty());
}

#[test]
fn can_craft_checks_unlock_and_costs() {
    let crafting = CraftingManager::new();
    assert!(crafting.can_craft(0, 15, 10));
    assert!(!crafting.can_craft(0, 14, 10));
    assert!(!crafting.can_craft(0, 15, 9));
    // Upgrades are locked until the workbench exists.
    assert!(!crafting.can_craft(1, 100, 100));
    assert!(!crafting.can_craft(99, 100, 100));
}

#[test]
fn requirements_render_as_joined_costs() {
    let crafting = CraftingManager::new();
    let recipes = crafting.get_recipes();
    assert_eq!(crafting.get_requirements_text(&recipes[0]), "15 Wood + 10 Copper");
    assert_eq!(crafting.get_requirements_text(&recipes[1]), "20 Wood + 15 Copper");
    assert_eq!(crafting.get_requirements_text(&recipes[2]), "15 Wood + 20 Copper");
}

#[test]
fn clear_input_abandons_progress() {
    let mut crafting = CraftingManager::new();
    assert!(crafting.handle_input(0, 'I'));
    crafting.clear_input(0);
    assert_eq!(crafting.get_recipes()[0].current_input, "");
    crafting.clear_input(42);
}
