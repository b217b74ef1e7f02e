use keycrafter::coastline::{Coastline, TileKind};
use keycrafter::islands::IslandManager;
use keycrafter::resource_types::ResourceType;
use keycrafter::word_lists::{WordDifficulty, WordList};

/// The exact containment check of the spawn interior: normalized elliptical
/// distance at most 0.9, with both sides scaled into the integers.
fn inside_interior(x: i64, y: i64, width: i64, height: i64) -> bool {
    let cx = width / 2;
    let cy = height / 2;
    let rx = width * 3 / 5;
    let ry = height * 3 / 5;
    let dxr = (x - cx) * ry;
    let dyr = (y - cy) * rx;
    let rr = rx * ry;
    100 * (dxr * dxr) + 100 * (dyr * dyr) <= 81 * (rr * rr)
}

#[test]
fn placement_respects_containment() {
    let manager = IslandManager::new();
    let existing: Vec<(i32, i32)> = Vec::new();
    for _ in 0..50 {
        if let Some((x, y)) = manager.find_spawn_position(&existing, 80, 24) {
            assert!(x >= 4 && x < 76);
            assert!(y >= 4 && y < 20);
            assert!(inside_interior(x as i64, y as i64, 80, 24));
        }
    }
}

#[test]
fn placement_respects_separation() {
    let manager = IslandManager::new();
    let existing = vec![(40, 12), (20, 8)];
    for _ in 0..50 {
        if let Some((x, y)) = manager.find_spawn_position(&existing, 80, 24) {
            for (ex, ey) in &existing {
                let dx = (x - ex).abs();
                let dy = (y - ey).abs();
                assert!(dx > 6 || dy > 4);
            }
        }
    }
}

#[test]
fn starter_island_shape() {
    let manager = IslandManager::new();
    let island = manager.get_current_island();
    assert_eq!(island.max_nodes, 6);
    assert_eq!(island.spawn_chance_percent, 15);
    assert_eq!(island.resource_pools.len(), 2);
    assert_eq!(island.resource_pools[0].resource_type, ResourceType::Wood);
    assert_eq!(island.resource_pools[0].weight, 60);
    assert_eq!(island.resource_pools[1].resource_type, ResourceType::Copper);
    assert_eq!(island.resource_pools[1].weight, 50);
}

#[test]
fn kind_draw_comes_from_the_pools() {
    let manager = IslandManager::new();
    for _ in 0..20 {
        let kind = manager.get_random_resource_type();
        assert!(kind == ResourceType::Wood || kind == ResourceType::Copper);
    }
}

#[test]
fn resource_type_tables() {
    assert_eq!(ResourceType::Wood.get_base_harvests(), (6, 10));
    assert_eq!(ResourceType::Copper.get_base_harvests(), (4, 7));
    assert_eq!(ResourceType::Wood.get_display_name(), "Wood");
    assert_eq!(ResourceType::Copper.get_display_name(), "Copper");
    assert_eq!(ResourceType::Wood.get_symbol(), "/\\");
    assert_eq!(ResourceType::Copper.get_symbol(), "Cu");
}

#[test]
fn coastline_bands() {
    let coast = Coastline::new();
    assert_eq!(coast.tile_kind(40, 12, 80, 24), TileKind::Land);
    assert_eq!(coast.tile_kind(0, 0, 80, 24), TileKind::Coast);
    assert_eq!(coast.tile_kind(-50, 12, 80, 24), TileKind::DeepWater);
}

#[test]
fn coastline_wave_frames() {
    let mut coast = Coastline::new();
    let w = coast.current_wave();
    assert!(w == "~" || w == "≈");
    coast.update();
    let w2 = coast.current_wave();
    assert!(w2 == "~" || w2 == "≈");
}

#[test]
fn words_come_from_the_requested_pool() {
    let words = WordList::new();
    let easy = ["tree", "wood", "leaf", "bark", "twig", "moss"];
    let medium = ["copper", "planks", "timber", "lumber", "branch", "forest"];
    let hard = ["program", "workbench", "minerals", "smelting"];
    for _ in 0..20 {
        let w = words.get_random_word(WordDifficulty::Easy);
        assert!(easy.contains(&w.as_str()));
        let m = words.get_random_word(WordDifficulty::Medium);
        assert!(medium.contains(&m.as_str()));
        let h = words.get_random_word(WordDifficulty::Hard);
        assert!(hard.contains(&h.as_str()));
    }
}
