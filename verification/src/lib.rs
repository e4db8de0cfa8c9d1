use vstd::prelude::*;

pub mod app_blocker;
pub mod app_watcher;
pub mod control;
pub mod daemon;
pub mod notifications;
pub mod numeric;
pub mod pf_blocker;
pub mod process_freezer;
pub mod process_utils;
pub mod screen_lock;
pub mod sni;
pub mod strset;
pub mod text;
pub mod ui;

verus! {
}
