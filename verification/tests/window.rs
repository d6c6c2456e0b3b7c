use memebin::window::{window_action, WindowAction, WindowEvent};

#[test]
fn blur_hides_the_window() {
    assert_eq!(window_action(&WindowEvent::Blurred, true), WindowAction::Hide);
    assert_eq!(window_action(&WindowEvent::Focused, true), WindowAction::Ignore);
}

#[test]
fn summon_toggles() {
    assert_eq!(window_action(&WindowEvent::Summon, true), WindowAction::Hide);
    assert_eq!(window_action(&WindowEvent::Summon, false), WindowAction::ShowAndFocus);
    assert_eq!(window_action(&WindowEvent::ShortcutReleased, false), WindowAction::Ignore);
}

#[test]
fn tray_menu_and_clicks() {
    assert_eq!(window_action(&WindowEvent::Menu("toggle".into()), false), WindowAction::ShowAndFocus);
    assert_eq!(window_action(&WindowEvent::Menu("quit".into()), true), WindowAction::Quit);
    assert_eq!(window_action(&WindowEvent::Menu("other".into()), true), WindowAction::Ignore);
    assert_eq!(window_action(&WindowEvent::TrayClick { left: true, released: true }, true), WindowAction::Hide);
    assert_eq!(window_action(&WindowEvent::TrayClick { left: true, released: false }, true), WindowAction::Ignore);
    assert_eq!(window_action(&WindowEvent::TrayClick { left: false, released: true }, false), WindowAction::Ignore);
}
