use keycrafter::ascii_objects::{AsciiObject, ResourceObjects};
use keycrafter::save_system::{SaveData, SaveManager};
use keycrafter::updater::VersionInfo;

#[test]
fn glyph_rows_are_padded_to_the_widest_line() {
    let obj = AsciiObject::new(vec!["ab", "a"], (1, 0));
    assert_eq!(obj.dimensions(), (2, 2));
    let cells = obj.render_at(5, 5);
    assert_eq!(cells.len(), 3);
    assert!(cells.contains(&(5, 5, 'a')));
    assert!(cells.contains(&(6, 5, 'b')));
    assert!(cells.contains(&(5, 6, 'a')));
}

#[test]
fn render_skips_spaces() {
    let obj = AsciiObject::new(vec![" x ", "y z"], (0, 0));
    let cells = obj.render_at(0, 0);
    assert_eq!(cells.len(), 3);
    assert!(cells.contains(&(1, 0, 'x')));
    assert!(cells.contains(&(0, 1, 'y')));
    assert!(cells.contains(&(2, 1, 'z')));
}

#[test]
fn path_point_is_anchored() {
    let obj = AsciiObject::new(vec!["abc"], (2, 0));
    assert_eq!(obj.get_path_point(10, 20), (12, 20));
}

#[test]
fn catalog_standard_footprints() {
    let objects = ResourceObjects::new();
    let tree = objects.get("tree").expect("the tree glyph is built in");
    assert_eq!(tree.dimensions(), (4, 4));
    assert_eq!(tree.get_path_point(10, 7), (12, 10));
    let copper = objects.get("copper").expect("the copper glyph is built in");
    assert_eq!(copper.dimensions(), (4, 4));
    assert!(objects.get("granite").is_none());
}

#[test]
fn catalog_add_registers_and_replaces() {
    let mut objects = ResourceObjects::new();
    objects.add("rock".to_string(), vec!["##", "##"], (0, 1));
    let rock = objects.get("rock").expect("just registered");
    assert_eq!(rock.dimensions(), (2, 2));
    objects.add("rock".to_string(), vec!["###"], (1, 0));
    let rock = objects.get("rock").expect("still registered");
    assert_eq!(rock.dimensions(), (3, 1));
}

#[test]
fn auto_save_rule() {
    let manager = SaveManager::new();
    // Immediately after creation no interval has passed.
    assert!(!manager.should_auto_save());
    assert!(!manager.auto_save_due(0));
    assert!(manager.auto_save_due(u64::MAX));
}

#[test]
fn default_save_is_empty() {
    let sd = SaveData::default();
    assert_eq!(sd.version, 1);
    assert_eq!(sd.player_wood, 0);
    assert_eq!(sd.player_copper, 0);
    assert!(sd.completed_items.is_empty());
    assert!(!sd.has_workbench);
    assert_eq!(sd.axe_upgrade_count, 0);
    assert_eq!(sd.pickaxe_upgrade_count, 0);
}

#[test]
fn update_message_lists_the_changes() {
    let info = VersionInfo {
        version: "1.2.3".to_string(),
        required: true,
        changes: vec!["faster paths".to_string(), "new island".to_string()],
        download_url: "https://example.invalid/download".to_string(),
    };
    let message = info.get_update_message();
    assert_eq!(
        message,
        "New version 1.2.3 available!\nThis update is required.\n\nChanges:\n- faster paths\n- new island\n\nPress 'u' to update now."
    );
    let optional = VersionInfo {
        version: "1.2.4".to_string(),
        required: false,
        changes: Vec::new(),
        download_url: String::new(),
    };
    assert_eq!(
        optional.get_update_message(),
        "New version 1.2.4 available!\n\nChanges:\n\nPress 'u' to update now."
    );
}

#[test]
fn mark_saved_resets_the_timer() {
    let mut manager = SaveManager::new();
    manager.mark_saved();
    assert!(!manager.should_auto_save());
}
