use thyme::input::InputState;
use thyme::state::{next_frame_closing_modal, push_focused_character, PersistentStates};

#[test]
fn widgets_without_state_read_as_default() {
    let states: PersistentStates<(i32, i32)> = PersistentStates::new((0, 0));
    let s = states.state("window");
    assert!(s.is_open);
    assert!(s.expanded);
    assert_eq!(s.scroll, (0, 0));
    assert_eq!(s.base_time_millis, 0);
    assert!(s.characters.is_empty());
    assert!(s.text.is_none());
    assert!(!states.has_state("window"));
}

#[test]
fn a_read_gives_back_the_last_write() {
    let mut states = PersistentStates::new((0, 0));
    states.set_open("popup".to_string(), false);
    states.set_expanded("tree".to_string(), false);
    states.set_scroll("pane".to_string(), (3, -4));
    states.set_base_time_millis("spinner".to_string(), 1500);
    states.push_character("field".to_string(), 'h');
    states.push_character("field".to_string(), 'i');
    assert!(!states.state("popup").is_open);
    assert!(states.state("popup").expanded);
    assert!(!states.state("tree").expanded);
    assert_eq!(states.state("pane").scroll, (3, -4));
    assert_eq!(states.base_time_millis_for("spinner"), 1500);
    assert_eq!(states.base_time_millis_for("other"), 0);
    assert_eq!(states.state("field").characters, vec!['h', 'i']);
    states.set_open("popup".to_string(), true);
    assert!(states.state("popup").is_open);
}

#[test]
fn clearing_restores_the_default() {
    let mut states = PersistentStates::new(0u8);
    states.set_expanded("tree".to_string(), false);
    states.set_open("other".to_string(), false);
    states.clear_state("tree");
    assert!(!states.has_state("tree"));
    assert!(states.state("tree").expanded);
    assert!(!states.state("other").is_open);
}

#[test]
fn init_state_only_sets_a_missing_state() {
    let mut states = PersistentStates::new(0u8);
    states.init_state("tree".to_string(), true, false);
    assert!(!states.state("tree").expanded);
    states.set_expanded("tree".to_string(), true);
    states.init_state("tree".to_string(), false, false);
    assert!(states.state("tree").expanded);
    assert!(states.state("tree").is_open);
}

#[test]
fn take_and_put_move_a_state() {
    let mut states = PersistentStates::new(0u8);
    states.push_character("field".to_string(), 'x');
    let mut s = states.take("field");
    assert!(!states.has_state("field"));
    assert_eq!(s.characters, vec!['x']);
    s.text = Some("x".to_string());
    s.characters.clear();
    states.put("field".to_string(), s);
    assert_eq!(states.state("field").text.as_deref(), Some("x"));
    assert!(states.state("field").characters.is_empty());
}

#[test]
fn a_modal_closed_by_a_click_outside_is_recorded_closed() {
    let mut input = InputState::new();
    let mut states: PersistentStates<(i32, i32)> = PersistentStates::new((0, 0));
    states.set_open("popup".to_string(), true);
    input.set_modal("popup".to_string());
    input.close_modal_on_click_outside();
    assert_eq!(next_frame_closing_modal(&mut input, &mut states, None, None, false), None);
    assert!(states.state("popup").is_open);
    input.set_mouse_pressed(true, 0);
    input.set_mouse_pressed(false, 0);
    assert_eq!(next_frame_closing_modal(&mut input, &mut states, None, None, false).as_deref(), Some("popup"));
    assert!(!input.has_modal());
    assert!(!states.state("popup").is_open);
}

#[test]
fn typed_characters_go_to_the_focused_widget() {
    let mut input = InputState::new();
    let mut states = PersistentStates::new((0, 0));
    push_focused_character(&input, &mut states, 'x');
    assert!(!states.has_state("field"));
    input.set_focus_keyboard("field".to_string());
    push_focused_character(&input, &mut states, 'o');
    push_focused_character(&input, &mut states, 'k');
    assert_eq!(states.state("field").characters, vec!['o', 'k']);
    assert!(!states.has_state("other"));
}
