//! The desktop shell's few decisions of its own: what the tray menu entries
//! and tray clicks do, and the global search shortcut.

use crate::text::{chars_eq, chars_of};
use vstd::prelude::*;

verus! {

/// What a tray interaction does.
#[derive(Debug, Clone, Copy, PartialEq, Eq, Structural)]
pub enum TrayCommand {
    /// Bring the main window back (show, unminimize, focus).
    ShowWindow,
    /// Exit the application.
    Quit,
    /// Nothing.
    Ignore,
}

/// The tray menu entry ids: `show` restores the window, `quit` exits.
pub open spec fn tray_menu_command(id: Seq<char>) -> TrayCommand {
    if id == "show"@ {
        TrayCommand::ShowWindow
    } else if id == "quit"@ {
        TrayCommand::Quit
    } else {
        TrayCommand::Ignore
    }
}

/// What the tray menu entry with this id does.
pub fn tray_command(menu_id: &str) -> (r: TrayCommand)
    ensures
        r == tray_menu_command(menu_id@),
{
    let id = chars_of(menu_id);
    if chars_eq(&id, &chars_of("show")) {
        TrayCommand::ShowWindow
    } else if chars_eq(&id, &chars_of("quit")) {
        TrayCommand::Quit
    } else {
        TrayCommand::Ignore
    }
}

/// A click on the tray icon: releasing the left button restores the main
/// window; other buttons open the menu, which the shell shows itself.
pub fn tray_click(left_button: bool, released: bool) -> (r: TrayCommand)
    ensures
        r == (if left_button && released {
            TrayCommand::ShowWindow
        } else {
            TrayCommand::Ignore
        }),
{
    if left_button && released {
        TrayCommand::ShowWindow
    } else {
        TrayCommand::Ignore
    }
}

/// The system-wide shortcut that toggles the search overlay.
pub const SEARCH_SHORTCUT: &'static str = "ctrl+shift+f";

/// The event the search shortcut sends to the webview.
pub const SEARCH_EVENT: &'static str = "toggle-search";

/// The event that tells the webview the tracked list changed.
pub const ITEMS_CHANGED_EVENT: &'static str = "windows-updated";

} // verus!
