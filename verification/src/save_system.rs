//! The save snapshot the core exposes to the persistence collaborator, and
//! the auto-save scheduler. Serialization and file I/O stay outside the
//! core; everything here works on plain values.

use vstd::prelude::*;
use crate::clock::now_millis;

verus! {

/// The persistence-relevant state of a session: player resource totals and
/// the crafting progression counters.
pub struct SaveData {
    pub version: u32,
    pub player_wood: u32,
    pub player_copper: u32,
    pub completed_items: Vec<String>,
    pub has_workbench: bool,
    pub axe_upgrade_count: u32,
    pub pickaxe_upgrade_count: u32,
    pub save_timestamp: u64,
}

impl Default for SaveData {
    /// A fresh save: nothing gathered, nothing crafted, stamped with the
    /// current wall clock.
    fn default() -> (r: SaveData)
        ensures
            r.version == 1,
            r.player_wood == 0,
            r.player_copper == 0,
            r.completed_items@.len() == 0,
            !r.has_workbench,
            r.axe_upgrade_count == 0,
            r.pickaxe_upgrade_count == 0,
    {
        SaveData {
            version: 1,
            player_wood: 0,
            player_copper: 0,
            completed_items: Vec::new(),
            has_workbench: false,
            axe_upgrade_count: 0,
            pickaxe_upgrade_count: 0,
            save_timestamp: now_millis() / 1000,
        }
    }
}

/// Decides when the game auto-saves; writing the file is the caller's
/// business.
pub struct SaveManager {
    save_file_path: String,
    backup_file_path: String,
    auto_save_interval_secs: u64,
    last_save_secs: u64,
}

impl SaveManager {
    pub closed spec fn spec_save_path(self) -> Seq<char> {
        self.save_file_path@
    }

    pub closed spec fn spec_backup_path(self) -> Seq<char> {
        self.backup_file_path@
    }

    pub closed spec fn spec_interval_secs(self) -> u64 {
        self.auto_save_interval_secs
    }

    pub closed spec fn spec_last_save_secs(self) -> u64 {
        self.last_save_secs
    }

    /// Saves are written beside the executable and auto-saved twice a
    /// minute.
    pub fn new() -> (r: Self)
        ensures
            r.spec_save_path() == "keycrafter_save.json"@,
            r.spec_backup_path() == "keycrafter_save.backup.json"@,
            r.spec_interval_secs() == 30,
    {
        SaveManager {
            save_file_path: "keycrafter_save.json".to_owned(),
            backup_file_path: "keycrafter_save.backup.json".to_owned(),
            auto_save_interval_secs: 30,
            last_save_secs: now_millis() / 1000,
        }
    }

    /// The auto-save rule: due once a full interval has passed since the
    /// last save (a clock that moved backwards counts as no time passed).
    pub open spec fn due_at(self, now_secs: u64) -> bool {
        (if now_secs >= self.spec_last_save_secs() {
            now_secs - self.spec_last_save_secs()
        } else {
            0
        }) >= self.spec_interval_secs()
    }

    /// Applies the auto-save rule to a given clock reading.
    pub fn auto_save_due(&self, now_secs: u64) -> (r: bool)
        ensures
            r == self.due_at(now_secs),
    {
        now_secs.saturating_sub(self.last_save_secs) >= self.auto_save_interval_secs
    }

    /// Reads the wall clock and applies the auto-save rule to it.
    pub fn should_auto_save(&self) -> (r: bool)
        ensures
            exists|now: u64| r == #[trigger] self.due_at(now),
    {
        let now = now_millis() / 1000;
        let r = self.auto_save_due(now);
        proof {
            assert(r == self.due_at(now));
        }
        r
    }

    /// Records that a save was just written, resetting the auto-save timer.
    pub fn mark_saved(&mut self)
        ensures
            final(self).spec_save_path() == old(self).spec_save_path(),
            final(self).spec_backup_path() == old(self).spec_backup_path(),
            final(self).spec_interval_secs() == old(self).spec_interval_secs(),
    {
        self.last_save_secs = now_millis() / 1000;
    }
}

} // verus!
