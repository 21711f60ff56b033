//! Text editing in input fields: the characters typed into a focused input field
//! are applied to its text, with backspace removing the last character.

use vstd::prelude::*;

use crate::input::KeyEvent;

verus! {

/// The backspace character.
pub const BACKSPACE: char = '\x08';

/// The carriage return character, sent by the enter key.
pub const CARRIAGE_RETURN: char = '\r';

/// Keyboard input received by an input field on a frame.
#[derive(Copy, Clone, Debug, PartialEq, Eq, Structural)]
pub enum InputFieldKeyboard {
    /// A character was added to the text
    Char(char),
    /// A key was pressed
    KeyEvent(KeyEvent),
}

/// The text after typing one character: backspace removes the last character, if
/// there is one, and any other character is appended.
pub open spec fn type_char(text: Seq<char>, c: char) -> Seq<char> {
    if c == BACKSPACE {
        if text.len() > 0 {
            text.drop_last()
        } else {
            text
        }
    } else {
        text.push(c)
    }
}

/// The text after typing the characters in order.
pub open spec fn type_chars(text: Seq<char>, chars: Seq<char>) -> Seq<char>
    decreases chars.len(),
{
    if chars.len() == 0 {
        text
    } else {
        type_char(type_chars(text, chars.drop_last()), chars.last())
    }
}

/// The text an input field starts from: its current text, or else the initial value,
/// or else nothing.
pub open spec fn start_text(text: Option<String>, initial_value: Option<String>) -> Seq<char> {
    match text {
        Some(t) => t@,
        None => match initial_value {
            Some(v) => v@,
            None => Seq::empty(),
        },
    }
}

fn start_text_of(text: &mut Option<String>, initial_value: Option<String>)
    ensures
        (*final(text)) is Some,
        (*final(text)).unwrap()@ == start_text(*old(text), initial_value),
{
    if text.is_none() {
        *text = Some(match initial_value {
            Some(v) => v,
            None => String::new(),
        });
    }
}

/// Applies all characters typed into an input field since the last frame to its
/// text, which starts from `initial_value` if the field has no text yet.  The
/// typed characters are used up.  Returns the new text if any character was typed.
pub fn apply_typed_characters(
    text: &mut Option<String>,
    characters: &mut Vec<char>,
    initial_value: Option<String>,
) -> (changed: Option<String>)
    ensures
        (*final(text)) is Some,
        (*final(text)).unwrap()@ == type_chars(start_text(*old(text), initial_value), old(characters)@),
        final(characters)@ == Seq::<char>::empty(),
        (match changed {
            Some(t) => old(characters)@.len() > 0 && t@ == (*final(text)).unwrap()@,
            None => old(characters)@.len() == 0,
        }),
{
    start_text_of(text, initial_value);
    let mut current = match text.take() {
        Some(t) => t,
        None => String::new(),
    };
    let ghost start = current@;
    let mut i: usize = 0;
    proof {
        assert(characters@.take(0) =~= seq![]);
    }
    while i < characters.len()
        invariant
            i <= characters@.len(),
            current@ == type_chars(start, characters@.take(i as int)),
        decreases characters@.len() - i,
    {
        let c = characters[i];
        proof {
            assert(characters@.take(i + 1).drop_last() =~= characters@.take(i as int));
        }
        if c == BACKSPACE {
            current.pop();
        } else {
            current.push(c);
        }
        i = i + 1;
    }
    proof {
        assert(characters@.take(characters@.len() as int) =~= characters@);
    }
    let typed = characters.len() > 0;
    characters.clear();
    let changed = if typed {
        Some(current.clone())
    } else {
        None
    };
    *text = Some(current);
    changed
}

/// The keyboard input that one typed character gives an input field, if any: a
/// backspace gives none, enter gives a newline only where newlines are allowed,
/// and any other character is itself.
pub open spec fn typed_input(c: char, allow_newline: bool) -> Option<char> {
    if c == BACKSPACE {
        None
    } else if c == CARRIAGE_RETURN {
        if allow_newline {
            Some('\n')
        } else {
            None
        }
    } else {
        Some(c)
    }
}

/// The text after the input one typed character gives: backspace removes the last
/// character, and any other input is appended.
pub open spec fn apply_typed(text: Seq<char>, c: char, allow_newline: bool) -> Seq<char> {
    if c == BACKSPACE {
        if text.len() > 0 {
            text.drop_last()
        } else {
            text
        }
    } else {
        match typed_input(c, allow_newline) {
            Some(x) => text.push(x),
            None => text,
        }
    }
}

/// Handles one frame of keyboard input for an input field: the most recently typed
/// character, if any, is applied to the text (which starts from `initial_value` if
/// the field has no text yet).  If it gives no keyboard input, the most recent key
/// event, if any, is reported instead.  Each input used is removed.
pub fn apply_frame_input(
    text: &mut Option<String>,
    characters: &mut Vec<char>,
    key_events: &mut Vec<KeyEvent>,
    initial_value: Option<String>,
    allow_newline: bool,
) -> (keyboard: Option<InputFieldKeyboard>)
    ensures
        (*final(text)) is Some,
        old(characters)@.len() == 0 ==> final(characters)@ == old(characters)@
            && (*final(text)).unwrap()@ == start_text(*old(text), initial_value),
        old(characters)@.len() > 0 ==> final(characters)@ == old(characters)@.drop_last()
            && (*final(text)).unwrap()@ == apply_typed(
            start_text(*old(text), initial_value),
            old(characters)@.last(),
            allow_newline,
        ),
        ({
            let typed = if old(characters)@.len() > 0 {
                typed_input(old(characters)@.last(), allow_newline)
            } else {
                None
            };
            match typed {
                Some(c) => keyboard == Some(InputFieldKeyboard::Char(c)) && final(key_events)@ == old(key_events)@,
                None => if old(key_events)@.len() > 0 {
                    keyboard == Some(InputFieldKeyboard::KeyEvent(old(key_events)@.last()))
                        && final(key_events)@ == old(key_events)@.drop_last()
                } else {
                    keyboard is None && final(key_events)@ == old(key_events)@
                },
            }
        }),
{
    start_text_of(text, initial_value);
    let mut current = match text.take() {
        Some(t) => t,
        None => String::new(),
    };
    let mut keyboard: Option<InputFieldKeyboard> = None;
    if let Some(c) = characters.pop() {
        if c == BACKSPACE {
            current.pop();
        } else if c == CARRIAGE_RETURN {
            if allow_newline {
                keyboard = Some(InputFieldKeyboard::Char('\n'));
                current.push('\n');
            }
        } else {
            keyboard = Some(InputFieldKeyboard::Char(c));
            current.push(c);
        }
    }
    if keyboard.is_none() {
        if let Some(e) = key_events.pop() {
            keyboard = Some(InputFieldKeyboard::KeyEvent(e));
        }
    }
    *text = Some(current);
    keyboard
}

} // verus!
