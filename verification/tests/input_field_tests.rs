use thyme::input_field::{apply_frame_input, apply_typed_characters, InputFieldKeyboard, BACKSPACE};
use thyme::input::KeyEvent;

#[test]
fn typed_characters_edit_the_text() {
    let mut text: Option<String> = None;
    let mut chars = vec!['a', 'b', BACKSPACE, 'c'];
    let changed = apply_typed_characters(&mut text, &mut chars, Some("x".to_string()));
    assert_eq!(text.as_deref(), Some("xac"));
    assert_eq!(changed.as_deref(), Some("xac"));
    assert!(chars.is_empty());
}

#[test]
fn no_typed_characters_leave_the_text() {
    let mut text = Some("hello".to_string());
    let mut chars: Vec<char> = Vec::new();
    let changed = apply_typed_characters(&mut text, &mut chars, Some("ignored".to_string()));
    assert_eq!(changed, None);
    assert_eq!(text.as_deref(), Some("hello"));
}

#[test]
fn backspace_on_empty_text_does_nothing() {
    let mut text: Option<String> = None;
    let mut chars = vec![BACKSPACE, BACKSPACE, 'z'];
    let changed = apply_typed_characters(&mut text, &mut chars, None);
    assert_eq!(text.as_deref(), Some("z"));
    assert_eq!(changed.as_deref(), Some("z"));
}

#[test]
fn last_character_of_the_frame_is_applied() {
    let mut text: Option<String> = None;
    let mut chars = vec!['a', 'b'];
    let mut keys: Vec<KeyEvent> = vec![KeyEvent::Left];
    let keyboard = apply_frame_input(&mut text, &mut chars, &mut keys, Some("in".to_string()), false);
    assert_eq!(keyboard, Some(InputFieldKeyboard::Char('b')));
    assert_eq!(text.as_deref(), Some("inb"));
    assert_eq!(chars, vec!['a']);
    assert_eq!(keys, vec![KeyEvent::Left]);
}

#[test]
fn enter_gives_a_newline_only_where_allowed() {
    let mut text = Some("line".to_string());
    let mut chars = vec!['\r'];
    let mut keys: Vec<KeyEvent> = vec![KeyEvent::Return];
    let keyboard = apply_frame_input(&mut text, &mut chars, &mut keys, None, true);
    assert_eq!(keyboard, Some(InputFieldKeyboard::Char('\n')));
    assert_eq!(text.as_deref(), Some("line\n"));

    let mut text = Some("line".to_string());
    let mut chars = vec!['\r'];
    let mut keys: Vec<KeyEvent> = vec![KeyEvent::Return];
    let keyboard = apply_frame_input(&mut text, &mut chars, &mut keys, None, false);
    assert_eq!(keyboard, Some(InputFieldKeyboard::KeyEvent(KeyEvent::Return)));
    assert_eq!(text.as_deref(), Some("line"));
    assert!(keys.is_empty());
}

#[test]
fn backspace_removes_the_last_character_and_reports_a_key() {
    let mut text = Some("ab".to_string());
    let mut chars = vec![BACKSPACE];
    let mut keys: Vec<KeyEvent> = vec![KeyEvent::Back];
    let keyboard = apply_frame_input(&mut text, &mut chars, &mut keys, None, false);
    assert_eq!(text.as_deref(), Some("a"));
    assert_eq!(keyboard, Some(InputFieldKeyboard::KeyEvent(KeyEvent::Back)));
}

#[test]
fn nothing_typed_gives_no_keyboard_input() {
    let mut text: Option<String> = None;
    let mut chars: Vec<char> = Vec::new();
    let mut keys: Vec<KeyEvent> = Vec::new();
    let keyboard = apply_frame_input(&mut text, &mut chars, &mut keys, None, false);
    assert_eq!(keyboard, None);
    assert_eq!(text.as_deref(), Some(""));
}
