use trajview::console::Console;
use trajview::keymap::KeyMap;

#[test]
fn new_console_is_empty_and_wants_focus() {
    let c = Console::new();
    assert_eq!(c.input().as_str(), "");
    assert!(c.history().is_empty());
    assert!(c.refocus());
}

#[test]
fn entered_line_moves_to_history_and_clears_input() {
    let mut c = Console::new();
    c.on_input(String::from("load file"), false);
    assert_eq!(c.input().as_str(), "load file");
    assert!(!c.refocus());
    c.on_input(String::from("load file"), true);
    assert_eq!(c.history().len(), 1);
    assert_eq!(c.history()[0], "load file");
    assert_eq!(c.input().as_str(), "");
    assert!(c.refocus());
    c.on_input(String::from("play"), true);
    assert_eq!(c.history().len(), 2);
    assert_eq!(c.history()[1], "play");
}

#[test]
fn keymap_records_presses_until_the_frame_ends() {
    let mut m = KeyMap::new();
    assert!(m.pressed_keys().is_empty());
    m.handle_event(Some(32));
    m.handle_event(None);
    m.handle_event(Some(17));
    assert_eq!(m.pressed_keys(), &vec![32, 17]);
    m.begin_frame();
    assert!(m.pressed_keys().is_empty());
}
