//! The menu-bar icon: its menu, and what each menu item and click does.

use crate::text::str_equal;
use vstd::prelude::*;

verus! {

/// What a tray event asks of the main window.
#[derive(Clone, Copy, PartialEq, Eq, Structural, Debug)]
pub enum TrayAction {
    /// Bring the window back and focus it.
    ShowWindow,
    /// Show the window and reload the page.
    Reload,
    /// Show the window and open the settings panel.
    OpenSettings,
    /// Quit the application.
    Quit,
    /// Nothing.
    Ignore,
}

/// The menu's items, in order: identifier and label.
pub open spec fn tray_menu_spec() -> Seq<(Seq<char>, Seq<char>)> {
    seq![
        ("tray_show"@, "显示窗口"@),
        ("tray_reload"@, "刷新"@),
        ("tray_settings"@, "设置"@),
        ("tray_quit"@, "退出"@),
    ]
}

/// The menu's items, in order: identifier and label.
pub fn tray_menu_items() -> (res: Vec<(&'static str, &'static str)>)
    ensures
        res@.map_values(|p: (&'static str, &'static str)| (p.0@, p.1@)) =~= tray_menu_spec(),
{
    let mut v: Vec<(&'static str, &'static str)> = Vec::new();
    v.push(("tray_show", "显示窗口"));
    v.push(("tray_reload", "刷新"));
    v.push(("tray_settings", "设置"));
    v.push(("tray_quit", "退出"));
    v
}

/// The action for a menu item identifier.
pub open spec fn menu_action_spec(id: Seq<char>) -> TrayAction {
    if id == "tray_show"@ {
        TrayAction::ShowWindow
    } else if id == "tray_reload"@ {
        TrayAction::Reload
    } else if id == "tray_settings"@ {
        TrayAction::OpenSettings
    } else if id == "tray_quit"@ {
        TrayAction::Quit
    } else {
        TrayAction::Ignore
    }
}

/// The action for a menu item identifier.
pub fn tray_menu_action(id: &str) -> (res: TrayAction)
    ensures
        res == menu_action_spec(id@),
{
    if str_equal(id, "tray_show") {
        TrayAction::ShowWindow
    } else if str_equal(id, "tray_reload") {
        TrayAction::Reload
    } else if str_equal(id, "tray_settings") {
        TrayAction::OpenSettings
    } else if str_equal(id, "tray_quit") {
        TrayAction::Quit
    } else {
        TrayAction::Ignore
    }
}

/// A click on the icon shows the window exactly when the left button is
/// released; other clicks are left to the menu.
pub fn tray_click_action(left_button: bool, released: bool) -> (res: TrayAction)
    ensures
        res == (if left_button && released {
            TrayAction::ShowWindow
        } else {
            TrayAction::Ignore
        }),
{
    if left_button && released {
        TrayAction::ShowWindow
    } else {
        TrayAction::Ignore
    }
}

/// Whether an action brings the window back (unminimise, show, focus).
pub fn shows_window(action: TrayAction) -> (res: bool)
    ensures
        res == (action == TrayAction::ShowWindow || action == TrayAction::Reload || action
            == TrayAction::OpenSettings),
{
    match action {
        TrayAction::ShowWindow | TrayAction::Reload | TrayAction::OpenSettings => true,
        _ => false,
    }
}

/// The script an action runs in the page once the window is shown.
pub fn page_script(action: TrayAction) -> (res: Option<&'static str>)
    ensures
        action == TrayAction::Reload ==> (res matches Some(s) && s@ == "location.reload()"@),
        action == TrayAction::OpenSettings ==> (res matches Some(s) && s@
            == "document.getElementById('btnSettings')?.click()"@),
        action != TrayAction::Reload && action != TrayAction::OpenSettings ==> res is None,
{
    match action {
        TrayAction::Reload => Some("location.reload()"),
        TrayAction::OpenSettings => Some("document.getElementById('btnSettings')?.click()"),
        _ => None,
    }
}

} // verus!
