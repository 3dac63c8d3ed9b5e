//! Finds application bundles, the data they leave behind in the per-user
//! library directories, what all of it weighs, and the order in which it is
//! deleted. Every function works on plain values: directory listings, trees
//! of sizes and the results of the steps that the caller carried out.

pub mod catalog;
pub mod details;
pub mod identity;
pub mod listing;
pub mod order;
pub mod paths;
pub mod progress;
pub mod removal;
pub mod residual;
pub mod size;
pub mod text;

pub use catalog::{
    application_roots, find_app, get_home, get_installed_apps, search_apps, sort_by_stem,
};
pub use details::{
    get_installed_app_infos, select_app, total_size, AppInfo, BundleScan, ResidualEntry,
    SelectedDetails,
};
pub use identity::{get_bundle_id, info_plist_path, MetadataRead};
pub use listing::DirListing;
pub use order::sort_dedup;
pub use progress::{is_affirmative, poll_log, LogMsg};
pub use removal::{
    failures, is_app_running, process_pattern_for, quit_script_for, Action, Event, Phase, Removal,
    RemovalOutcome, RemovalResult, GRACE_SECONDS,
};
pub use residual::{find_related_files, matches_term, preferences_file_path, residual_search_dirs};
pub use size::{dir_size, format_size, size_fits, size_or_zero, FsNode, SizeError};
