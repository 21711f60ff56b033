//! The input state a context keeps between frames: mouse buttons, keyboard focus,
//! keyboard modifiers, the open modal, and which render group is on top; and the
//! decisions made from it, such as whether a widget takes the mouse.

use vstd::prelude::*;

use crate::groups::{check_set_rend_group_top, first_with_id, RendGroup, RendGroupDef};
use crate::text::str_eq;

verus! {

/// The number of mouse buttons tracked: left, right and middle.
pub const MOUSE_BUTTONS: usize = 3;

/// The current state of the keyboard modifier keys - Shift, Control, and Alt.
#[derive(Copy, Clone, Debug, PartialEq, Eq, Structural)]
pub struct InputModifiers {
    /// Whether the Shift key is pressed
    pub shift: bool,
    /// Whether the Control key is pressed
    pub ctrl: bool,
    /// Whether the Alt key is pressed
    pub alt: bool,
}

impl Default for InputModifiers {
    fn default() -> (m: InputModifiers)
        ensures
            !m.shift && !m.ctrl && !m.alt,
    {
        InputModifiers { shift: false, ctrl: false, alt: false }
    }
}

/// A keyboard key event, representing a virtual key code
#[derive(Copy, Clone, Debug, PartialEq, Eq, Structural)]
pub enum KeyEvent {
    Insert,
    Home,
    Delete,
    End,
    PageDown,
    PageUp,
    Left,
    Up,
    Right,
    Down,
    Back,
    Return,
    Space,
    Escape,
    Tab,
    F1,
    F2,
    F3,
    F4,
    F5,
    F6,
    F7,
    F8,
    F9,
    F10,
    F11,
    F12,
}

/// The open modal widget: while it is open only it and its children get input.
/// Its bounds are kept by whoever lays out the widgets.
pub struct Modal {
    pub id: String,
    pub close_on_click_outside: bool,
    pub prevent_close: bool,
}

/// What a widget gets from the mouse on this frame.
#[derive(Copy, Clone, Debug, PartialEq, Eq, Structural)]
pub enum MouseOutcome {
    /// The widget does not take the mouse.
    NotTaken,
    /// The left button is held on the widget, which it has kept since the last
    /// frame; it may be dragged.
    Pressed { clicked: bool },
    /// The mouse is over the widget.
    Hovered { clicked: bool },
}

/// The input state, with strings taken as character sequences.
pub struct InputModel {
    pub mouse_taken_last_frame: Option<(Seq<char>, RendGroup)>,
    pub mouse_in_rend_group_last_frame: Option<RendGroup>,
    pub top_rend_group: RendGroup,
    pub check_set_top_rend_group: Option<Seq<char>>,
    pub modal: Option<(Seq<char>, bool, bool)>,
    pub mouse_pressed_outside: Seq<bool>,
    pub keyboard_focus_widget: Option<Seq<char>>,
    pub mouse_pressed: Seq<bool>,
    pub mouse_clicked: Seq<bool>,
    pub input_modifiers: InputModifiers,
}

pub open spec fn opt_view(s: Option<String>) -> Option<Seq<char>> {
    match s {
        Some(s) => Some(s@),
        None => None,
    }
}

/// How a mouse button changing state updates the input: a press that starts while
/// no widget holds the mouse is marked as outside, a release ends that mark, and a
/// release of a held button is a click, which also drops keyboard focus.  Buttons
/// beyond the tracked ones are ignored.
pub open spec fn mouse_button_step(m: InputModel, pressed: bool, index: nat) -> InputModel {
    if index >= MOUSE_BUTTONS {
        m
    } else {
        let i = index as int;
        let outside = if pressed && m.mouse_taken_last_frame is None {
            m.mouse_pressed_outside.update(i, true)
        } else if !pressed && m.mouse_pressed_outside[i] {
            m.mouse_pressed_outside.update(i, false)
        } else {
            m.mouse_pressed_outside
        };
        let released = m.mouse_pressed[i] && !pressed;
        InputModel {
            mouse_pressed_outside: outside,
            mouse_clicked: if released { m.mouse_clicked.update(i, true) } else { m.mouse_clicked },
            keyboard_focus_widget: if released { None } else { m.keyboard_focus_widget },
            mouse_pressed: m.mouse_pressed.update(i, pressed),
            ..m
        }
    }
}

/// Whether some button press started outside of any widget.
pub open spec fn any_pressed_outside(m: InputModel) -> bool {
    exists|i: int| 0 <= i < m.mouse_pressed_outside.len() && m.mouse_pressed_outside[i]
}

/// What a widget gets from the mouse.  `in_modal_tree` tells whether the widget is
/// the open modal or inside it, `taken_this_frame` whether another widget already
/// took the mouse on this frame, and `inside_clip` and `inside_bounds` whether the
/// mouse is inside the widget's clip area and inside the widget.
pub open spec fn mouse_outcome(
    m: InputModel,
    in_modal_tree: bool,
    taken_this_frame: bool,
    group: RendGroup,
    id: Seq<char>,
    inside_clip: bool,
    inside_bounds: bool,
) -> MouseOutcome {
    let was_taken_last = m.mouse_taken_last_frame matches Some(t) && t.0 == id;
    if m.modal is Some && !in_modal_tree {
        MouseOutcome::NotTaken
    } else if m.mouse_in_rend_group_last_frame matches Some(g) && g != group {
        MouseOutcome::NotTaken
    } else if any_pressed_outside(m) || taken_this_frame || !inside_clip {
        MouseOutcome::NotTaken
    } else if m.mouse_pressed[0] {
        if was_taken_last {
            MouseOutcome::Pressed { clicked: m.mouse_clicked[0] }
        } else {
            MouseOutcome::NotTaken
        }
    } else if !inside_bounds {
        MouseOutcome::NotTaken
    } else {
        MouseOutcome::Hovered { clicked: was_taken_last && m.mouse_clicked[0] }
    }
}

/// A widget that the mouse can reach (no modal shuts it out, the mouse was in its
/// render group, no press started outside any widget, no other widget took the
/// mouse on this frame, and the mouse is within its clip area) and that the mouse
/// is over while the left button is not held is hovered; it is clicked exactly when
/// it held the mouse on the last frame and the left button was released on this one.
pub proof fn lemma_hovered_click(
    m: InputModel,
    in_modal_tree: bool,
    group: RendGroup,
    id: Seq<char>,
)
    requires
        m.modal is None || in_modal_tree,
        m.mouse_in_rend_group_last_frame is None || m.mouse_in_rend_group_last_frame == Some(group),
        forall|i: int| 0 <= i < m.mouse_pressed_outside.len() ==> !m.mouse_pressed_outside[i],
        !m.mouse_pressed[0],
    ensures
        mouse_outcome(m, in_modal_tree, false, group, id, true, true) == (MouseOutcome::Hovered {
            clicked: (m.mouse_taken_last_frame matches Some(t) && t.0 == id) && m.mouse_clicked[0],
        }),
{
}

/// What a widget gets from the mouse is reported as a click only when the widget
/// held the mouse on the last frame and the left button was released on this one;
/// it holds the left button only when it held the mouse on the last frame and the
/// button is still down, and it gets nothing while a modal it is outside of is open
/// or another widget already took the mouse.
pub proof fn lemma_click_needs_release(
    m: InputModel,
    in_modal_tree: bool,
    taken_this_frame: bool,
    group: RendGroup,
    id: Seq<char>,
    inside_clip: bool,
    inside_bounds: bool,
)
    ensures
        ({
            let r = mouse_outcome(m, in_modal_tree, taken_this_frame, group, id, inside_clip, inside_bounds);
            let held_last = m.mouse_taken_last_frame matches Some(t) && t.0 == id;
            &&& (r matches MouseOutcome::Hovered { clicked } ==> (clicked <==> held_last && m.mouse_clicked[0]))
            &&& (r matches MouseOutcome::Hovered { .. } ==> inside_bounds && inside_clip && !m.mouse_pressed[0])
            &&& (r matches MouseOutcome::Pressed { clicked } ==> clicked == m.mouse_clicked[0] && held_last
                && m.mouse_pressed[0] && inside_clip)
            &&& (m.modal is Some && !in_modal_tree ==> r is NotTaken)
            &&& (taken_this_frame ==> r is NotTaken)
        }),
{
}

/// A press of a tracked button followed by its release is a click of that button,
/// and leaves it released; a press alone is no click.
pub proof fn lemma_press_release_clicks(m: InputModel, index: nat)
    requires
        index < MOUSE_BUTTONS,
        m.mouse_pressed.len() == MOUSE_BUTTONS,
        m.mouse_clicked.len() == MOUSE_BUTTONS,
        m.mouse_pressed_outside.len() == MOUSE_BUTTONS,
    ensures
        mouse_button_step(m, true, index).mouse_clicked == m.mouse_clicked,
        mouse_button_step(m, true, index).mouse_pressed[index as int],
        mouse_button_step(mouse_button_step(m, true, index), false, index).mouse_clicked[index as int],
        !mouse_button_step(mouse_button_step(m, true, index), false, index).mouse_pressed[index as int],
        mouse_button_step(mouse_button_step(m, true, index), false, index).keyboard_focus_widget is None,
{
}

/// The state of the modal and of the mouse at the start of the next frame.  A modal
/// that was just opened survives its first frame; after that it closes when it is
/// set to close on a click outside and the left button was clicked outside it.
/// Returns the id of the modal that closed, if one did.
pub open spec fn next_frame_step(
    m: InputModel,
    mouse_taken: Option<(Seq<char>, RendGroup)>,
    mouse_in_rend_group: Option<RendGroup>,
    mouse_in_modal: bool,
) -> (InputModel, Option<Seq<char>>) {
    let (modal, closed) = match m.modal {
        None => (None, None),
        Some((id, close_on_click_outside, prevent_close)) => if prevent_close {
            (Some((id, close_on_click_outside, false)), None)
        } else if close_on_click_outside && m.mouse_clicked[0] && !mouse_in_modal {
            (None, Some(id))
        } else {
            (m.modal, None)
        },
    };
    (
        InputModel {
            modal,
            mouse_clicked: seq![false, false, false],
            mouse_taken_last_frame: mouse_taken,
            mouse_in_rend_group_last_frame: mouse_in_rend_group,
            ..m
        },
        closed,
    )
}

/// The input state kept by a context between frames.
pub struct InputState {
    mouse_taken_last_frame: Option<(String, RendGroup)>,
    mouse_in_rend_group_last_frame: Option<RendGroup>,
    top_rend_group: RendGroup,
    check_set_top_rend_group: Option<String>,
    modal: Option<Modal>,
    mouse_pressed_outside: [bool; 3],
    keyboard_focus_widget: Option<String>,
    mouse_pressed: [bool; 3],
    mouse_clicked: [bool; 3],
    input_modifiers: InputModifiers,
}

impl View for InputState {
    type V = InputModel;

    closed spec fn view(&self) -> InputModel {
        InputModel {
            mouse_taken_last_frame: match self.mouse_taken_last_frame {
                Some((id, g)) => Some((id@, g)),
                None => None,
            },
            mouse_in_rend_group_last_frame: self.mouse_in_rend_group_last_frame,
            top_rend_group: self.top_rend_group,
            check_set_top_rend_group: opt_view(self.check_set_top_rend_group),
            modal: match self.modal {
                Some(modal) => Some((modal.id@, modal.close_on_click_outside, modal.prevent_close)),
                None => None,
            },
            mouse_pressed_outside: self.mouse_pressed_outside@,
            keyboard_focus_widget: opt_view(self.keyboard_focus_widget),
            mouse_pressed: self.mouse_pressed@,
            mouse_clicked: self.mouse_clicked@,
            input_modifiers: self.input_modifiers,
        }
    }
}

impl InputState {
    /// The three tracked buttons are always present.
    pub open spec fn well_formed(&self) -> bool {
        &&& self@.mouse_pressed.len() == MOUSE_BUTTONS
        &&& self@.mouse_clicked.len() == MOUSE_BUTTONS
        &&& self@.mouse_pressed_outside.len() == MOUSE_BUTTONS
    }

    /// The input state of a new context: no button pressed, nothing focused, no
    /// modal, and the root render group on top.
    pub fn new() -> (s: InputState)
        ensures
            s.well_formed(),
            s@.mouse_taken_last_frame is None,
            s@.mouse_in_rend_group_last_frame is None,
            s@.top_rend_group.spec_index() == 0,
            s@.check_set_top_rend_group is None,
            s@.modal is None,
            s@.keyboard_focus_widget is None,
            s@.mouse_pressed == seq![false, false, false],
            s@.mouse_clicked == seq![false, false, false],
            s@.mouse_pressed_outside == seq![false, false, false],
            s@.input_modifiers == (InputModifiers { shift: false, ctrl: false, alt: false }),
    {
        let s = InputState {
            mouse_taken_last_frame: None,
            mouse_in_rend_group_last_frame: None,
            top_rend_group: RendGroup::new(0),
            check_set_top_rend_group: None,
            modal: None,
            mouse_pressed_outside: [false; 3],
            keyboard_focus_widget: None,
            mouse_pressed: [false; 3],
            mouse_clicked: [false; 3],
            input_modifiers: InputModifiers::default(),
        };
        proof {
            assert(s@.mouse_pressed =~= seq![false, false, false]);
            assert(s@.mouse_clicked =~= seq![false, false, false]);
            assert(s@.mouse_pressed_outside =~= seq![false, false, false]);
        }
        s
    }

    /// Whether the UI wants to use the mouse this frame: a widget took it on the
    /// last frame, or a modal is open.
    pub fn wants_mouse(&self) -> (r: bool)
        ensures
            r == (self@.mouse_taken_last_frame is Some || self@.modal is Some),
    {
        self.mouse_taken_last_frame.is_some() || self.modal.is_some()
    }

    /// Whether the UI wants the keyboard this frame: a modal is open, or a widget has
    /// keyboard focus.
    pub fn wants_keyboard(&self) -> (r: bool)
        ensures
            r == (self@.modal is Some || self@.keyboard_focus_widget is Some),
    {
        self.modal.is_some() || self.keyboard_focus_widget.is_some()
    }

    /// Sets whether the mouse button `index` (0 = left, 1 = right, 2 = middle) is pressed.
    pub fn set_mouse_pressed(&mut self, pressed: bool, index: usize)
        requires
            old(self).well_formed(),
        ensures
            final(self).well_formed(),
            final(self)@ == mouse_button_step(old(self)@, pressed, index as nat),
    {
        if index >= 3 {
            return;
        }
        if pressed && self.mouse_taken_last_frame.is_none() {
            self.mouse_pressed_outside[index] = true;
        }
        if !pressed && self.mouse_pressed_outside[index] {
            self.mouse_pressed_outside[index] = false;
        }
        if self.mouse_pressed[index] && !pressed {
            self.mouse_clicked[index] = true;
            self.keyboard_focus_widget = None;
        }
        self.mouse_pressed[index] = pressed;
        proof {
            assert(self@ =~= mouse_button_step(old(self)@, pressed, index as nat));
        }
    }

    /// Whether the mouse button `index` is pressed.
    pub fn mouse_pressed(&self, index: usize) -> (r: bool)
        requires
            self.well_formed(),
            index < MOUSE_BUTTONS,
        ensures
            r == self@.mouse_pressed[index as int],
    {
        self.mouse_pressed[index]
    }

    /// Whether the mouse button `index` was released on this frame.
    pub fn mouse_clicked(&self, index: usize) -> (r: bool)
        requires
            self.well_formed(),
            index < MOUSE_BUTTONS,
        ensures
            r == self@.mouse_clicked[index as int],
    {
        self.mouse_clicked[index]
    }

    /// Whether some button press started outside of any widget.
    pub fn mouse_pressed_outside(&self) -> (r: bool)
        requires
            self.well_formed(),
        ensures
            r == any_pressed_outside(self@),
    {
        let mut i: usize = 0;
        while i < 3
            invariant
                i <= 3,
                self.well_formed(),
                forall|j: int| 0 <= j < i ==> !self@.mouse_pressed_outside[j],
            decreases 3 - i,
        {
            if self.mouse_pressed_outside[i] {
                return true;
            }
            i = i + 1;
        }
        false
    }

    pub fn input_modifiers(&self) -> (m: InputModifiers)
        ensures
            m == self@.input_modifiers,
    {
        self.input_modifiers
    }

    pub fn set_input_modifiers(&mut self, modifiers: InputModifiers)
        ensures
            final(self)@ == (InputModel { input_modifiers: modifiers, ..old(self)@ }),
    {
        self.input_modifiers = modifiers;
    }

    /// Gives keyboard focus to the widget `id`.
    pub fn set_focus_keyboard(&mut self, id: String)
        ensures
            final(self)@ == (InputModel { keyboard_focus_widget: Some(id@), ..old(self)@ }),
    {
        self.keyboard_focus_widget = Some(id);
    }

    /// Whether the widget `id` has keyboard focus.
    pub fn is_focus_keyboard(&self, id: &str) -> (r: bool)
        ensures
            r == (self@.keyboard_focus_widget == Some(id@)),
    {
        match &self.keyboard_focus_widget {
            None => false,
            Some(focus) => str_eq(focus.as_str(), id),
        }
    }

    /// The widget with keyboard focus, which typed characters go to.
    pub fn keyboard_focus(&self) -> (r: Option<&String>)
        ensures
            match r {
                Some(s) => self@.keyboard_focus_widget == Some(s@),
                None => self@.keyboard_focus_widget is None,
            },
    {
        self.keyboard_focus_widget.as_ref()
    }

    /// The id of the widget that took the mouse on the last frame.
    pub fn mouse_taken_last_frame_id(&self) -> (r: Option<&str>)
        ensures
            match r {
                Some(s) => self@.mouse_taken_last_frame matches Some(t) && t.0 == s@,
                None => self@.mouse_taken_last_frame is None,
            },
    {
        match &self.mouse_taken_last_frame {
            Some((id, _)) => Some(id.as_str()),
            None => None,
        }
    }

    /// The render group the mouse was over on the last frame.
    pub fn mouse_in_rend_group_last_frame(&self) -> (r: Option<RendGroup>)
        ensures
            r == self@.mouse_in_rend_group_last_frame,
    {
        self.mouse_in_rend_group_last_frame
    }

    pub fn top_rend_group(&self) -> (g: RendGroup)
        ensures
            g == self@.top_rend_group,
    {
        self.top_rend_group
    }

    pub fn set_top_rend_group(&mut self, group: RendGroup)
        ensures
            final(self)@ == (InputModel { top_rend_group: group, ..old(self)@ }),
    {
        self.top_rend_group = group;
    }

    /// Asks for the render group started by the widget `id` to come on top at the end of the frame.
    pub fn set_top_rend_group_id(&mut self, id: &str)
        ensures
            final(self)@ == (InputModel { check_set_top_rend_group: Some(id@), ..old(self)@ }),
    {
        self.check_set_top_rend_group = Some(String::from_str(id));
    }

    /// Settles a pending request to bring a render group on top, given the frame's groups.
    pub fn check_set_rend_group_top<R>(&mut self, groups: &Vec<RendGroupDef<R>>)
        ensures
            (match old(self)@.check_set_top_rend_group {
                None => final(self)@ == old(self)@,
                Some(id) => match first_with_id(groups@, id) {
                    Some(i) => final(self)@ == (InputModel {
                        top_rend_group: groups@[i].group,
                        check_set_top_rend_group: None,
                        ..old(self)@
                    }),
                    None => final(self)@ == old(self)@,
                },
            }),
    {
        let mut pending: Option<String> = None;
        std::mem::swap(&mut pending, &mut self.check_set_top_rend_group);
        let (top, still_pending) = check_set_rend_group_top(pending, self.top_rend_group, groups);
        self.top_rend_group = top;
        self.check_set_top_rend_group = still_pending;
        proof {
            assert(self@ =~= final(self)@);
        }
    }

    /// Whether a modal is open.
    pub fn has_modal(&self) -> (r: bool)
        ensures
            r == self@.modal is Some,
    {
        self.modal.is_some()
    }

    /// The id of the open modal.
    pub fn modal_id(&self) -> (r: Option<&str>)
        ensures
            match r {
                Some(s) => self@.modal matches Some(m) && m.0 == s@,
                None => self@.modal is None,
            },
    {
        match &self.modal {
            Some(modal) => Some(modal.id.as_str()),
            None => None,
        }
    }

    /// Opens the widget `id` as the modal, replacing any open modal.  It is not
    /// closed on a click outside, and survives the end of the current frame.
    pub fn set_modal(&mut self, id: String)
        ensures
            final(self)@ == (InputModel { modal: Some((id@, false, true)), ..old(self)@ }),
    {
        self.modal = Some(Modal { id, close_on_click_outside: false, prevent_close: true });
    }

    /// Closes the modal if it is the widget `id`.
    pub fn clear_modal_if_match(&mut self, id: &str)
        ensures
            final(self)@ == (if old(self)@.modal matches Some(m) && m.0 == id@ {
                InputModel { modal: None, ..old(self)@ }
            } else {
                old(self)@
            }),
    {
        let matches = match &self.modal {
            Some(modal) => str_eq(modal.id.as_str(), id),
            None => false,
        };
        if matches {
            self.modal = None;
        }
    }

    /// Makes the open modal, if any, close when the mouse is clicked outside of it.
    pub fn close_modal_on_click_outside(&mut self)
        ensures
            final(self)@ == (match old(self)@.modal {
                Some((id, _, prevent)) => InputModel { modal: Some((id, true, prevent)), ..old(self)@ },
                None => old(self)@,
            }),
    {
        match &mut self.modal {
            Some(modal) => {
                modal.close_on_click_outside = true;
            },
            None => {},
        }
    }

    /// Decides what a widget gets from the mouse, and records the decision: a widget
    /// that gets the mouse while the left button is held comes on top.  See
    /// `mouse_outcome` for the meaning of the arguments.
    pub fn check_mouse(
        &mut self,
        in_modal_tree: bool,
        taken_this_frame: bool,
        group: RendGroup,
        id: &str,
        inside_clip: bool,
        inside_bounds: bool,
    ) -> (r: MouseOutcome)
        requires
            old(self).well_formed(),
        ensures
            final(self).well_formed(),
            r == mouse_outcome(old(self)@, in_modal_tree, taken_this_frame, group, id@, inside_clip, inside_bounds),
            final(self)@ == (if r is Pressed {
                InputModel { top_rend_group: group, ..old(self)@ }
            } else {
                old(self)@
            }),
    {
        if self.modal.is_some() && !in_modal_tree {
            return MouseOutcome::NotTaken;
        }
        if let Some(g) = self.mouse_in_rend_group_last_frame {
            if g != group {
                return MouseOutcome::NotTaken;
            }
        }
        if self.mouse_pressed_outside() || taken_this_frame || !inside_clip {
            return MouseOutcome::NotTaken;
        }
        let was_taken_last = match self.mouse_taken_last_frame_id() {
            Some(taken) => str_eq(taken, id),
            None => false,
        };
        if self.mouse_pressed[0] {
            if was_taken_last {
                self.top_rend_group = group;
                return MouseOutcome::Pressed { clicked: self.mouse_clicked[0] };
            } else {
                return MouseOutcome::NotTaken;
            }
        }
        if !inside_bounds {
            return MouseOutcome::NotTaken;
        }
        MouseOutcome::Hovered { clicked: was_taken_last && self.mouse_clicked[0] }
    }

    /// Whether a widget receives the mouse wheel: the mouse is over it, in its render
    /// group, and no modal keeps it from input.
    pub fn receives_wheel(&self, in_modal_tree: bool, group: RendGroup, inside_bounds: bool) -> (r: bool)
        ensures
            r == (!(self@.modal is Some && !in_modal_tree)
                && !(self@.mouse_in_rend_group_last_frame matches Some(g) && g != group)
                && inside_bounds),
    {
        if self.modal.is_some() && !in_modal_tree {
            return false;
        }
        if let Some(g) = self.mouse_in_rend_group_last_frame {
            if g != group {
                return false;
            }
        }
        inside_bounds
    }

    /// Moves on to the next frame, recording which widget took the mouse and which
    /// render group the mouse is over.  `mouse_in_modal` tells whether the mouse is
    /// inside the open modal.  Returns the id of the modal if it closed.
    pub fn next_frame(
        &mut self,
        mouse_taken: Option<(String, RendGroup)>,
        mouse_in_rend_group: Option<RendGroup>,
        mouse_in_modal: bool,
    ) -> (closed: Option<String>)
        requires
            old(self).well_formed(),
        ensures
            final(self).well_formed(),
            (final(self)@, opt_view(closed)) == next_frame_step(
                old(self)@,
                match mouse_taken {
                    Some((id, g)) => Some((id@, g)),
                    None => None,
                },
                mouse_in_rend_group,
                mouse_in_modal,
            ),
    {
        let mut closed: Option<String> = None;
        let mut modal: Option<Modal> = None;
        std::mem::swap(&mut modal, &mut self.modal);
        match modal {
            None => {},
            Some(mut m) => {
                if m.prevent_close {
                    m.prevent_close = false;
                    self.modal = Some(m);
                } else if m.close_on_click_outside && self.mouse_clicked[0] && !mouse_in_modal {
                    closed = Some(m.id);
                } else {
                    self.modal = Some(m);
                }
            },
        }
        self.mouse_clicked = [false; 3];
        self.mouse_taken_last_frame = mouse_taken;
        self.mouse_in_rend_group_last_frame = mouse_in_rend_group;
        proof {
            assert(self@.mouse_clicked =~= seq![false, false, false]);
        }
        closed
    }
}

/// A message that has been logged once is not logged again.
pub open spec fn first_report(seen: Set<Seq<char>>, message: Seq<char>) -> bool {
    !seen.contains(message)
}

/// The messages a context has already logged.
pub struct ErrorLog {
    seen: Vec<String>,
}

impl View for ErrorLog {
    type V = Set<Seq<char>>;

    closed spec fn view(&self) -> Set<Seq<char>> {
        self.seen@.map_values(|s: String| s@).to_set()
    }
}

impl ErrorLog {
    pub fn new() -> (l: ErrorLog)
        ensures
            l@ == Set::<Seq<char>>::empty(),
    {
        let l = ErrorLog { seen: Vec::new() };
        proof {
            assert(l@ =~= Set::<Seq<char>>::empty());
        }
        l
    }

    /// Records `message` and returns whether it should be logged now: only the
    /// first time it is seen.
    pub fn report(&mut self, message: String) -> (r: bool)
        ensures
            r == first_report(old(self)@, message@),
            final(self)@ == old(self)@.insert(message@),
    {
        let ghost before = self.seen@.map_values(|s: String| s@);
        let mut i: usize = 0;
        while i < self.seen.len()
            invariant
                i <= self.seen@.len(),
                before == self.seen@.map_values(|s: String| s@),
                forall|j: int| 0 <= j < i ==> before[j] != message@,
            decreases self.seen@.len() - i,
        {
            if self.seen[i] == message {
                proof {
                    assert(before[i as int] == message@);
                    assert(before.to_set().contains(message@));
                    assert(before.to_set().insert(message@) =~= before.to_set());
                }
                return false;
            }
            i = i + 1;
        }
        proof {
            assert(!before.contains(message@)) by {
                if before.contains(message@) {
                    let k = choose|k: int| 0 <= k < before.len() && before[k] == message@;
                    assert(before[k] != message@);
                }
            }
        }
        self.seen.push(message);
        proof {
            let after = self.seen@.map_values(|s: String| s@);
            assert(after =~= before.push(message@));
            assert(after.to_set() =~= before.to_set().insert(message@)) by {
                assert forall|x: Seq<char>| after.to_set().contains(x) <==> before.to_set().insert(message@).contains(x) by {
                    if after.contains(x) && x != message@ {
                        let k = choose|k: int| 0 <= k < after.len() && after[k] == x;
                        assert(k < before.len());
                        assert(before[k] == x);
                    }
                    if before.contains(x) {
                        let k = choose|k: int| 0 <= k < before.len() && before[k] == x;
                        assert(after[k] == x);
                    }
                    if x == message@ {
                        assert(after[before.len() as int] == x);
                    }
                }
            }
        }
        true
    }
}

/// A message is logged at most once: after it has been reported, reporting it again
/// does not log it, whatever was reported in between.
pub proof fn lemma_logged_once(seen: Set<Seq<char>>, message: Seq<char>, later: Seq<Seq<char>>)
    ensures
        !first_report(later.fold_left(seen.insert(message), |s: Set<Seq<char>>, m: Seq<char>| s.insert(m)), message),
    decreases later.len(),
{
    if later.len() > 0 {
        lemma_logged_once(seen, message, later.drop_last());
        let f = |s: Set<Seq<char>>, m: Seq<char>| s.insert(m);
        assert(later.fold_left(seen.insert(message), f) == f(later.drop_last().fold_left(seen.insert(message), f), later.last()));
    }
}

} // verus!
