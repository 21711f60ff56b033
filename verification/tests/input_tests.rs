use thyme::groups::{RendGroup, RendGroupDef};
use thyme::input::{ErrorLog, InputModifiers, InputState, MouseOutcome};

#[test]
fn a_release_after_a_press_is_a_click() {
    let mut input = InputState::new();
    assert!(!input.mouse_pressed(0));
    input.set_mouse_pressed(true, 0);
    assert!(input.mouse_pressed(0));
    assert!(!input.mouse_clicked(0));
    input.set_mouse_pressed(false, 0);
    assert!(!input.mouse_pressed(0));
    assert!(input.mouse_clicked(0));
    input.next_frame(None, None, false);
    assert!(!input.mouse_clicked(0));
}

#[test]
fn a_press_outside_any_widget_is_remembered_until_release() {
    let mut input = InputState::new();
    input.set_mouse_pressed(true, 1);
    assert!(input.mouse_pressed_outside());
    input.set_mouse_pressed(false, 1);
    assert!(!input.mouse_pressed_outside());
    input.set_mouse_pressed(true, 7);
    assert!(!input.mouse_pressed_outside());
}

#[test]
fn a_click_clears_keyboard_focus() {
    let mut input = InputState::new();
    input.set_focus_keyboard("field".to_string());
    assert!(input.is_focus_keyboard("field"));
    assert!(!input.is_focus_keyboard("other"));
    assert!(input.wants_keyboard());
    input.set_mouse_pressed(true, 0);
    input.set_mouse_pressed(false, 0);
    assert!(input.keyboard_focus().is_none());
    assert!(!input.wants_keyboard());
}

#[test]
fn modifiers_are_kept() {
    let mut input = InputState::new();
    assert!(!input.input_modifiers().shift);
    input.set_input_modifiers(InputModifiers { shift: true, ctrl: false, alt: true });
    assert_eq!(input.input_modifiers(), InputModifiers { shift: true, ctrl: false, alt: true });
}

#[test]
fn a_modal_opens_and_closes() {
    let mut input = InputState::new();
    assert!(!input.has_modal());
    input.set_modal("dialog".to_string());
    assert!(input.has_modal());
    assert_eq!(input.modal_id(), Some("dialog"));
    assert!(input.wants_mouse());
    input.clear_modal_if_match("other");
    assert!(input.has_modal());
    input.clear_modal_if_match("dialog");
    assert!(!input.has_modal());
}

#[test]
fn a_modal_closes_on_a_click_outside_after_its_first_frame() {
    let mut input = InputState::new();
    input.set_modal("popup".to_string());
    input.close_modal_on_click_outside();
    input.set_mouse_pressed(true, 0);
    input.set_mouse_pressed(false, 0);
    // the frame the modal opened on keeps it open
    assert_eq!(input.next_frame(None, None, false), None);
    assert!(input.has_modal());
    input.set_mouse_pressed(true, 0);
    input.set_mouse_pressed(false, 0);
    assert_eq!(input.next_frame(None, None, true), None);
    assert!(input.has_modal());
    input.set_mouse_pressed(true, 0);
    input.set_mouse_pressed(false, 0);
    assert_eq!(input.next_frame(None, None, false).as_deref(), Some("popup"));
    assert!(!input.has_modal());
}

#[test]
fn a_widget_that_kept_the_mouse_is_pressed_and_comes_on_top() {
    let mut input = InputState::new();
    let group = RendGroup::new(2);
    input.next_frame(Some(("button".to_string(), group)), Some(group), false);
    assert_eq!(input.mouse_taken_last_frame_id(), Some("button"));
    input.set_mouse_pressed(true, 0);
    let outcome = input.check_mouse(true, false, group, "button", true, true);
    assert_eq!(outcome, MouseOutcome::Pressed { clicked: false });
    assert_eq!(input.top_rend_group(), group);
    let other = input.check_mouse(true, false, group, "label", true, true);
    assert_eq!(other, MouseOutcome::NotTaken);
}

#[test]
fn the_mouse_over_a_widget_hovers_it() {
    let mut input = InputState::new();
    let group = RendGroup::new(0);
    let outcome = input.check_mouse(true, false, group, "label", true, true);
    assert_eq!(outcome, MouseOutcome::Hovered { clicked: false });
    assert_eq!(input.check_mouse(true, false, group, "label", true, false), MouseOutcome::NotTaken);
    assert_eq!(input.check_mouse(true, true, group, "label", true, true), MouseOutcome::NotTaken);
    input.set_modal("dialog".to_string());
    assert_eq!(input.check_mouse(false, false, group, "label", true, true), MouseOutcome::NotTaken);
}

#[test]
fn the_wheel_goes_to_the_widget_under_the_mouse() {
    let mut input = InputState::new();
    let g0 = RendGroup::new(0);
    let g1 = RendGroup::new(1);
    assert!(input.receives_wheel(true, g0, true));
    assert!(!input.receives_wheel(true, g0, false));
    input.next_frame(None, Some(g1), false);
    assert!(!input.receives_wheel(true, g0, true));
    assert!(input.receives_wheel(true, g1, true));
}

#[test]
fn a_requested_group_is_brought_to_the_top() {
    let mut input = InputState::new();
    let defs = vec![
        RendGroupDef { rect: 0u32, id: "root".to_string(), group: RendGroup::new(0), start: 0, num: 0, always_top: false },
        RendGroupDef { rect: 0u32, id: "window".to_string(), group: RendGroup::new(1), start: 0, num: 0, always_top: false },
    ];
    input.set_top_rend_group_id("window");
    input.check_set_rend_group_top(&defs);
    assert_eq!(input.top_rend_group(), RendGroup::new(1));
    input.set_top_rend_group(RendGroup::new(0));
    assert_eq!(input.top_rend_group(), RendGroup::new(0));
}

#[test]
fn a_message_is_logged_only_once() {
    let mut log = ErrorLog::new();
    assert!(log.report("missing theme".to_string()));
    assert!(!log.report("missing theme".to_string()));
    assert!(log.report("other".to_string()));
    assert!(!log.report("other".to_string()));
}
