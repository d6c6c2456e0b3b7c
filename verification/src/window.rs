//! What the picker window does in response to desktop events: it hides when
//! it loses focus, and the tray, a second launch, and the global shortcut
//! toggle it.
use vstd::prelude::*;

use crate::text::{chars_of, eq_chars};

verus! {

/// Something that happens to the picker window.
pub enum WindowEvent {
    /// The window lost focus.
    Blurred,
    /// The window gained focus.
    Focused,
    /// Another launch of the app, or the global shortcut pressed.
    Summon,
    /// The global shortcut released.
    ShortcutReleased,
    /// A tray menu item chosen, by its id.
    Menu(String),
    /// The tray icon clicked: with the left button or not, on release or on press.
    TrayClick { left: bool, released: bool },
}

/// What to do with the window.
#[derive(Debug, Clone, Copy, PartialEq, Eq, Structural)]
pub enum WindowAction {
    Hide,
    ShowAndFocus,
    Quit,
    Ignore,
}

/// Toggling hides a visible window and shows (and focuses) a hidden one.
pub open spec fn toggled(visible: bool) -> WindowAction {
    if visible {
        WindowAction::Hide
    } else {
        WindowAction::ShowAndFocus
    }
}

/// The action for an event, given whether the window is visible.
pub open spec fn action_for(event: WindowEvent, visible: bool) -> WindowAction {
    match event {
        WindowEvent::Blurred => WindowAction::Hide,
        WindowEvent::Focused => WindowAction::Ignore,
        WindowEvent::Summon => toggled(visible),
        WindowEvent::ShortcutReleased => WindowAction::Ignore,
        WindowEvent::Menu(id) => if id@ == "toggle"@ {
            toggled(visible)
        } else if id@ == "quit"@ {
            WindowAction::Quit
        } else {
            WindowAction::Ignore
        },
        WindowEvent::TrayClick { left, released } => if left && released {
            toggled(visible)
        } else {
            WindowAction::Ignore
        },
    }
}

/// Whether the window is visible after an action.
pub open spec fn visible_after(visible: bool, a: WindowAction) -> bool {
    match a {
        WindowAction::Hide => false,
        WindowAction::ShowAndFocus => true,
        WindowAction::Quit => false,
        WindowAction::Ignore => visible,
    }
}

/// The window's behaviour: losing focus always hides it; focus and the
/// shortcut's release change nothing; a summon (second launch or shortcut),
/// the tray's toggle item, and a left click released on the tray icon show
/// a hidden window and hide a visible one, so doing one twice returns the
/// window to how it was; the tray's quit item quits; other menu items and
/// other clicks change nothing.
pub proof fn lemma_window_laws(visible: bool, id: String, left: bool, released: bool)
    ensures
        action_for(WindowEvent::Blurred, visible) == WindowAction::Hide,
        action_for(WindowEvent::Focused, visible) == WindowAction::Ignore,
        action_for(WindowEvent::ShortcutReleased, visible) == WindowAction::Ignore,
        visible_after(visible, action_for(WindowEvent::Summon, visible)) == !visible,
        visible ==> action_for(WindowEvent::Summon, visible) == WindowAction::Hide,
        !visible ==> action_for(WindowEvent::Summon, visible) == WindowAction::ShowAndFocus,
        visible_after(
            visible_after(visible, action_for(WindowEvent::Summon, visible)),
            action_for(WindowEvent::Summon, visible_after(visible, action_for(WindowEvent::Summon, visible))),
        ) == visible,
        id@ == "toggle"@ ==> visible_after(visible, action_for(WindowEvent::Menu(id), visible)) == !visible,
        id@ == "quit"@ ==> action_for(WindowEvent::Menu(id), visible) == WindowAction::Quit,
        id@ != "toggle"@ && id@ != "quit"@ ==> action_for(WindowEvent::Menu(id), visible)
            == WindowAction::Ignore,
        left && released ==> visible_after(
            visible,
            action_for(WindowEvent::TrayClick { left, released }, visible),
        ) == !visible,
        !(left && released) ==> action_for(WindowEvent::TrayClick { left, released }, visible)
            == WindowAction::Ignore,
{
    if id@ == "quit"@ {
        reveal_strlit("quit");
        reveal_strlit("toggle");
        assert("quit"@ != "toggle"@) by {
            assert("quit"@[0] != "toggle"@[0]);
        }
    }
}

fn toggle(visible: bool) -> (r: WindowAction)
    ensures
        r == toggled(visible),
{
    if visible {
        WindowAction::Hide
    } else {
        WindowAction::ShowAndFocus
    }
}

/// Decide what the window does for an event.
pub fn window_action(event: &WindowEvent, visible: bool) -> (r: WindowAction)
    ensures
        r == action_for(*event, visible),
{
    match event {
        WindowEvent::Blurred => WindowAction::Hide,
        WindowEvent::Focused => WindowAction::Ignore,
        WindowEvent::Summon => toggle(visible),
        WindowEvent::ShortcutReleased => WindowAction::Ignore,
        WindowEvent::Menu(id) => {
            let c = chars_of(id.as_str());
            let t = chars_of("toggle");
            let q = chars_of("quit");
            if eq_chars(&c, &t) {
                toggle(visible)
            } else if eq_chars(&c, &q) {
                WindowAction::Quit
            } else {
                WindowAction::Ignore
            }
        },
        WindowEvent::TrayClick { left, released } => {
            if *left && *released {
                toggle(visible)
            } else {
                WindowAction::Ignore
            }
        },
    }
}

} // verus!
