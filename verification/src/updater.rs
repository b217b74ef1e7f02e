//! Update metadata: the version report an update service answers with, and
//! the notification text shown for it. Checking for, downloading and applying
//! updates is network and process work that stays outside the core.

use vstd::prelude::*;

verus! {

use vstd::string::StringExecFns;

/// What an update service reports: the available version, whether updating
/// is mandatory, its change list, and where to fetch it.
pub struct VersionInfo {
    pub version: String,
    pub required: bool,
    pub changes: Vec<String>,
    pub download_url: String,
}

/// The bullet list of the first `k` changes, one "- ..." line each.
pub open spec fn spec_changes_text(changes: Seq<String>, k: int) -> Seq<char>
    decreases k
        when 0 <= k <= changes.len()
{
    if k <= 0 {
        Seq::empty()
    } else {
        spec_changes_text(changes, k - 1) + "- "@ + changes[k - 1]@ + "\n"@
    }
}

/// The full notification text for an available update.
pub open spec fn spec_update_message(v: VersionInfo) -> Seq<char> {
    "New version "@ + v.version@ + " available!\n"@ + (if v.required {
        "This update is required.\n"@
    } else {
        Seq::<char>::empty()
    }) + "\nChanges:\n"@ + spec_changes_text(v.changes@, v.changes@.len() as int)
        + "\nPress 'u' to update now."@
}

impl VersionInfo {
    /// The notification text for this update: the version line, the
    /// mandatory-update notice when one applies, the change list, and the
    /// key prompt.
    pub fn get_update_message(&self) -> (r: String)
        ensures
            r@ == spec_update_message(*self),
    {
        let mut message = String::new();
        message.append("New version ");
        message.append(self.version.as_str());
        message.append(" available!\n");
        if self.required {
            message.append("This update is required.\n");
        }
        message.append("\nChanges:\n");
        let mut k: usize = 0;
        while k < self.changes.len()
            invariant
                k <= self.changes@.len(),
                message@ == "New version "@ + self.version@ + " available!\n"@ + (if self.required {
                    "This update is required.\n"@
                } else {
                    Seq::<char>::empty()
                }) + "\nChanges:\n"@ + spec_changes_text(self.changes@, k as int),
            decreases self.changes@.len() - k,
        {
            message.append("- ");
            message.append(self.changes[k].as_str());
            message.append("\n");
            k += 1;
        }
        message.append("\nPress 'u' to update now.");
        message
    }
}

} // verus!
