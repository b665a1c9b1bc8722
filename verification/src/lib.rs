//! TabFlow core: the rules that decide how windows, browser tabs and
//! Explorer tabs are identified, grouped into duplicates, matched against a
//! search query and presented, independent of the desktop shell around them.

pub mod actions;
pub mod browser;
pub mod cdp;
pub mod db;
pub mod duplicate;
pub mod explorer;
pub mod icons;
pub mod launch;
pub mod monitor;
pub mod order;
pub mod platform;
pub mod search;
pub mod shell;
pub mod text;
pub mod windows;
