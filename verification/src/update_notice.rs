//! The "New Release Available" window: the installed and the latest version.

use vstd::prelude::*;
use crate::text::version_label;

verus! {

/// The version rows of the update notice.
pub struct UpdateNotice {
    /// `v` followed by the installed version.
    pub installed: String,
    /// `v` followed by the latest published version.
    pub latest: String,
}

/// The update notice's version rows for the latest published version
/// `latest` and the installed version `installed`.
pub fn view_window(latest: &str, installed: &str) -> (n: UpdateNotice)
    ensures
        n.installed@ == seq!['v'] + installed@,
        n.latest@ == seq!['v'] + latest@,
{
    UpdateNotice { installed: version_label(installed), latest: version_label(latest) }
}

} // verus!
