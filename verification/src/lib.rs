//! Verified core of the H7CAD helper library: ACI colour codes, the colour
//! selector's choices and palette layout, release-tag extraction and the
//! version order for the
//! update check, and the text that the plugin manager and the update notice
//! show.

pub mod text;
pub mod color_select;
pub mod update_check;
pub mod version;
pub mod plugin_manager;
pub mod update_notice;
