//! The state that each widget keeps between frames, by widget identifier: whether
//! it is open or expanded, how it was resized, moved or scrolled, the base time of
//! its timed images, the characters typed into it and its text.  A widget that has
//! no stored state reads as the default state.

use vstd::prelude::*;

use crate::groups::RendGroup;
use crate::input::{next_frame_step, opt_view, InputState};
use crate::text::str_eq;

verus! {

/// The state a widget keeps between frames.  `P` is the type of the points by
/// which a widget is resized, moved and scrolled.
pub struct PersistentState<P> {
    /// Whether the widget will be shown.  Defaults to true.
    pub is_open: bool,
    /// Whether a tree or similar widget is expanded, showing all children.
    /// Defaults to true.
    pub expanded: bool,
    /// How much the widget has been resized by.  Defaults to zero.
    pub resize: P,
    /// How much the widget has been moved by.  Defaults to zero.
    pub moved: P,
    /// How much the content of the widget has been scrolled by.  Defaults to zero.
    pub scroll: P,
    /// The zero time of timed images of the widget.  Defaults to zero.
    pub base_time_millis: u32,
    /// The characters typed into the widget and not yet used.  Defaults to none.
    pub characters: Vec<char>,
    /// The text of the widget, in place of its theme's text.  Defaults to `None`.
    pub text: Option<String>,
}

/// What a widget's state holds.
pub struct StateView<P> {
    pub is_open: bool,
    pub expanded: bool,
    pub resize: P,
    pub moved: P,
    pub scroll: P,
    pub base_time_millis: u32,
    pub characters: Seq<char>,
    pub text: Option<Seq<char>>,
}

impl<P> View for PersistentState<P> {
    type V = StateView<P>;

    open spec fn view(&self) -> StateView<P> {
        StateView {
            is_open: self.is_open,
            expanded: self.expanded,
            resize: self.resize,
            moved: self.moved,
            scroll: self.scroll,
            base_time_millis: self.base_time_millis,
            characters: self.characters@,
            text: opt_view(self.text),
        }
    }
}

/// The state of a widget that has none stored: open, expanded, not resized, moved
/// or scrolled (each by `zero`), with base time zero, no characters and no text.
pub open spec fn default_state<P>(zero: P) -> StateView<P> {
    StateView {
        is_open: true,
        expanded: true,
        resize: zero,
        moved: zero,
        scroll: zero,
        base_time_millis: 0,
        characters: Seq::empty(),
        text: None,
    }
}

/// The state that `id` reads as in `states`: the stored one, or the default one.
pub open spec fn state_in<P>(states: Map<Seq<char>, StateView<P>>, zero: P, id: Seq<char>) -> StateView<P> {
    if states.dom().contains(id) {
        states[id]
    } else {
        default_state(zero)
    }
}

/// The stored states by identifier; a later entry for an identifier overrides an
/// earlier one.
pub open spec fn entries_map<P>(entries: Seq<(String, PersistentState<P>)>) -> Map<Seq<char>, StateView<P>>
    decreases entries.len(),
{
    if entries.len() == 0 {
        Map::empty()
    } else {
        entries_map(entries.drop_last()).insert(entries.last().0@, entries.last().1@)
    }
}

/// Whether no two entries have the same identifier.
pub open spec fn distinct_keys<P>(entries: Seq<(String, PersistentState<P>)>) -> bool {
    forall|i: int, j: int|
        0 <= i < entries.len() && 0 <= j < entries.len() && i != j ==> (#[trigger] entries[i]).0@
            != (#[trigger] entries[j]).0@
}

proof fn lemma_map_dom<P>(entries: Seq<(String, PersistentState<P>)>, key: Seq<char>)
    ensures
        entries_map(entries).dom().contains(key) <==> exists|i: int|
            0 <= i < entries.len() && (#[trigger] entries[i]).0@ == key,
    decreases entries.len(),
{
    if entries.len() > 0 {
        let rest = entries.drop_last();
        lemma_map_dom(rest, key);
        if entries_map(rest).dom().contains(key) {
            let i = choose|i: int| 0 <= i < rest.len() && (#[trigger] rest[i]).0@ == key;
            assert(entries[i] == rest[i]);
        }
        if exists|i: int| 0 <= i < entries.len() && (#[trigger] entries[i]).0@ == key {
            let i = choose|i: int| 0 <= i < entries.len() && (#[trigger] entries[i]).0@ == key;
            if i < entries.len() - 1 {
                assert(rest[i] == entries[i]);
            }
        }
    }
}

proof fn lemma_map_value<P>(entries: Seq<(String, PersistentState<P>)>, i: int)
    requires
        distinct_keys(entries),
        0 <= i < entries.len(),
    ensures
        entries_map(entries).dom().contains(entries[i].0@),
        entries_map(entries)[entries[i].0@] == entries[i].1@,
    decreases entries.len(),
{
    let rest = entries.drop_last();
    if i < entries.len() - 1 {
        assert(distinct_keys(rest)) by {
            assert forall|a: int, b: int|
                0 <= a < rest.len() && 0 <= b < rest.len() && a != b implies (#[trigger] rest[a]).0@
                    != (#[trigger] rest[b]).0@ by {
                assert(rest[a] == entries[a] && rest[b] == entries[b]);
            }
        }
        lemma_map_value(rest, i);
        assert(rest[i] == entries[i]);
        assert(entries[i].0@ != entries[entries.len() - 1].0@);
    }
}

proof fn lemma_map_remove<P>(entries: Seq<(String, PersistentState<P>)>, i: int)
    requires
        distinct_keys(entries),
        0 <= i < entries.len(),
    ensures
        entries_map(entries.remove(i)) == entries_map(entries).remove(entries[i].0@),
        distinct_keys(entries.remove(i)),
    decreases entries.len(),
{
    let rest = entries.drop_last();
    let key = entries[i].0@;
    assert(distinct_keys(rest)) by {
        assert forall|a: int, b: int|
            0 <= a < rest.len() && 0 <= b < rest.len() && a != b implies (#[trigger] rest[a]).0@
                != (#[trigger] rest[b]).0@ by {
            assert(rest[a] == entries[a] && rest[b] == entries[b]);
        }
    }
    let removed = entries.remove(i);
    assert(distinct_keys(removed)) by {
        assert forall|a: int, b: int|
            0 <= a < removed.len() && 0 <= b < removed.len() && a != b implies (#[trigger] removed[a]).0@
                != (#[trigger] removed[b]).0@ by {
            let a2 = if a < i { a } else { a + 1 };
            let b2 = if b < i { b } else { b + 1 };
            assert(removed[a] == entries[a2] && removed[b] == entries[b2]);
        }
    }
    if i == entries.len() - 1 {
        assert(removed =~= rest);
        lemma_map_dom(rest, key);
        assert forall|a: int| 0 <= a < rest.len() implies (#[trigger] rest[a]).0@ != key by {
            assert(rest[a] == entries[a]);
        }
        assert(entries_map(rest) =~= entries_map(entries).remove(key));
    } else {
        let last = entries.last();
        assert(removed =~= rest.remove(i).push(last));
        lemma_map_remove(rest, i);
        assert(rest[i] == entries[i]);
        assert(last.0@ != key);
        assert(removed.drop_last() =~= rest.remove(i));
        assert(removed.last() == last);
        assert(entries_map(removed) == entries_map(rest.remove(i)).insert(last.0@, last.1@));
        assert(entries_map(entries) == entries_map(rest).insert(last.0@, last.1@));
        assert(entries_map(removed) =~= entries_map(entries).remove(key));
    }
}

/// The states that widgets keep between frames, by widget identifier.
pub struct PersistentStates<P> {
    entries: Vec<(String, PersistentState<P>)>,
    zero: P,
}

impl<P> PersistentStates<P> {
    #[verifier::type_invariant]
    spec fn keys_distinct(self) -> bool {
        distinct_keys(self.entries@)
    }

    /// The stored states by identifier.
    pub closed spec fn states(&self) -> Map<Seq<char>, StateView<P>> {
        entries_map(self.entries@)
    }

    /// The point by which a widget with no stored state is resized, moved and
    /// scrolled.
    pub closed spec fn zero(&self) -> P {
        self.zero
    }

    /// The state that the widget `id` reads as.
    pub open spec fn get(&self, id: Seq<char>) -> StateView<P> {
        state_in(self.states(), self.zero(), id)
    }
}

impl<P: Copy> PersistentStates<P> {
    /// No stored state; `zero` is the point by which a widget with no stored state
    /// is resized, moved and scrolled.
    pub fn new(zero: P) -> (s: PersistentStates<P>)
        ensures
            s.states() == Map::<Seq<char>, StateView<P>>::empty(),
            s.zero() == zero,
    {
        let s = PersistentStates { entries: Vec::new(), zero };
        proof {
            assert(s.entries@ =~= Seq::<(String, PersistentState<P>)>::empty());
        }
        s
    }

    fn position(&self, id: &str) -> (r: Option<usize>)
        ensures
            match r {
                Some(i) => i < self.entries@.len() && self.entries@[i as int].0@ == id@,
                None => forall|i: int| 0 <= i < self.entries@.len() ==> (#[trigger] self.entries@[i]).0@ != id@,
            },
    {
        let mut i: usize = 0;
        while i < self.entries.len()
            invariant
                i <= self.entries@.len(),
                forall|j: int| 0 <= j < i ==> (#[trigger] self.entries@[j]).0@ != id@,
            decreases self.entries@.len() - i,
        {
            if str_eq(self.entries[i].0.as_str(), id) {
                return Some(i);
            }
            i = i + 1;
        }
        None
    }

    fn default_state_value(&self) -> (s: PersistentState<P>)
        ensures
            s@ == default_state(self.zero()),
    {
        let s = PersistentState {
            is_open: true,
            expanded: true,
            resize: self.zero,
            moved: self.zero,
            scroll: self.zero,
            base_time_millis: 0,
            characters: Vec::new(),
            text: None,
        };
        proof {
            assert(s.characters@ =~= Seq::<char>::empty());
        }
        s
    }

    /// Whether the widget `id` has a stored state.
    pub fn has_state(&self, id: &str) -> (r: bool)
        ensures
            r == self.states().dom().contains(id@),
    {
        proof {
            lemma_map_dom(self.entries@, id@);
        }
        self.position(id).is_some()
    }

    /// Removes the stored state of the widget `id`, if any, and returns the state
    /// it read as.
    pub fn take(&mut self, id: &str) -> (s: PersistentState<P>)
        ensures
            s@ == old(self).get(id@),
            final(self).states() == old(self).states().remove(id@),
            final(self).zero() == old(self).zero(),
    {
        proof {
            use_type_invariant(&*self);
            lemma_map_dom(self.entries@, id@);
        }
        match self.position(id) {
            Some(i) => {
                proof {
                    lemma_map_value(self.entries@, i as int);
                    lemma_map_remove(self.entries@, i as int);
                }
                let mut entries: Vec<(String, PersistentState<P>)> = Vec::new();
                std::mem::swap(&mut entries, &mut self.entries);
                let (_, state) = entries.remove(i);
                self.entries = entries;
                state
            },
            None => {
                proof {
                    assert(old(self).states().remove(id@) =~= old(self).states());
                }
                self.default_state_value()
            },
        }
    }

    /// Stores `state` as the state of the widget `id`, in place of any stored one.
    pub fn put(&mut self, id: String, state: PersistentState<P>)
        ensures
            final(self).states() == old(self).states().insert(id@, state@),
            final(self).zero() == old(self).zero(),
    {
        proof {
            use_type_invariant(&*self);
        }
        let ghost before = self.entries@;
        let mut entries: Vec<(String, PersistentState<P>)> = Vec::new();
        std::mem::swap(&mut entries, &mut self.entries);
        match self.position_in(&entries, id.as_str()) {
            Some(i) => {
                proof {
                    lemma_map_remove(entries@, i as int);
                }
                entries.remove(i);
            },
            None => {
                proof {
                    lemma_map_dom(entries@, id@);
                    assert(entries_map(entries@).remove(id@) =~= entries_map(entries@));
                }
            },
        }
        let ghost without = entries@;
        proof {
            lemma_map_dom(without, id@);
            assert forall|j: int| 0 <= j < without.len() implies (#[trigger] without[j]).0@ != id@ by {
                if without[j].0@ == id@ {
                    assert(entries_map(without).dom().contains(id@));
                }
            }
        }
        entries.push((id, state));
        proof {
            assert(entries@.drop_last() =~= without);
            assert(distinct_keys(entries@)) by {
                assert forall|a: int, b: int|
                    0 <= a < entries@.len() && 0 <= b < entries@.len() && a != b implies (#[trigger] entries@[a]).0@
                        != (#[trigger] entries@[b]).0@ by {
                    if a < without.len() && b < without.len() {
                        assert(entries@[a] == without[a] && entries@[b] == without[b]);
                    } else if a < without.len() {
                        assert(entries@[a] == without[a]);
                    } else {
                        assert(entries@[b] == without[b]);
                    }
                }
            }
            assert(entries_map(entries@) =~= entries_map(before).insert(id@, state@));
        }
        self.entries = entries;
    }

    fn position_in(&self, entries: &Vec<(String, PersistentState<P>)>, id: &str) -> (r: Option<usize>)
        ensures
            match r {
                Some(i) => i < entries@.len() && entries@[i as int].0@ == id@,
                None => forall|i: int| 0 <= i < entries@.len() ==> (#[trigger] entries@[i]).0@ != id@,
            },
    {
        let mut i: usize = 0;
        while i < entries.len()
            invariant
                i <= entries@.len(),
                forall|j: int| 0 <= j < i ==> (#[trigger] entries@[j]).0@ != id@,
            decreases entries@.len() - i,
        {
            if str_eq(entries[i].0.as_str(), id) {
                return Some(i);
            }
            i = i + 1;
        }
        None
    }

    /// The state that the widget `id` reads as: its stored state, or the default
    /// state if it has none.
    pub fn state(&self, id: &str) -> (s: PersistentState<P>)
        ensures
            s@ == self.get(id@),
    {
        proof {
            use_type_invariant(self);
            lemma_map_dom(self.entries@, id@);
        }
        match self.position(id) {
            Some(i) => {
                proof {
                    lemma_map_value(self.entries@, i as int);
                }
                let stored = &self.entries[i].1;
                let s = PersistentState {
                    is_open: stored.is_open,
                    expanded: stored.expanded,
                    resize: stored.resize,
                    moved: stored.moved,
                    scroll: stored.scroll,
                    base_time_millis: stored.base_time_millis,
                    characters: copy_chars(&stored.characters),
                    text: match &stored.text {
                        Some(t) => Some(t.clone()),
                        None => None,
                    },
                };
                s
            },
            None => self.default_state_value(),
        }
    }

    /// Stores a state for the widget `id`, open as `open` and expanded as
    /// `expanded` and otherwise default, unless it already has one.
    pub fn init_state(&mut self, id: String, open: bool, expanded: bool)
        ensures
            final(self).zero() == old(self).zero(),
            final(self).states() == (if old(self).states().dom().contains(id@) {
                old(self).states()
            } else {
                old(self).states().insert(
                    id@,
                    StateView { is_open: open, expanded, ..default_state(old(self).zero()) },
                )
            }),
    {
        if !self.has_state(id.as_str()) {
            let mut s = self.default_state_value();
            s.is_open = open;
            s.expanded = expanded;
            self.put(id, s);
        }
    }

    /// Removes the stored state of the widget `id`, so that it reads as the default.
    pub fn clear_state(&mut self, id: &str)
        ensures
            final(self).states() == old(self).states().remove(id@),
            final(self).zero() == old(self).zero(),
    {
        let _ = self.take(id);
    }

    /// Sets whether the widget `id` is open.
    pub fn set_open(&mut self, id: String, open: bool)
        ensures
            final(self).states() == old(self).states().insert(id@, StateView { is_open: open, ..old(self).get(id@) }),
            final(self).zero() == old(self).zero(),
    {
        let mut s = self.take(id.as_str());
        s.is_open = open;
        self.put(id, s);
    }

    /// Sets whether the widget `id` is expanded.
    pub fn set_expanded(&mut self, id: String, expanded: bool)
        ensures
            final(self).states() == old(self).states().insert(id@, StateView { expanded, ..old(self).get(id@) }),
            final(self).zero() == old(self).zero(),
    {
        let mut s = self.take(id.as_str());
        s.expanded = expanded;
        self.put(id, s);
    }

    /// Sets the base time of the timed images of the widget `id`.
    pub fn set_base_time_millis(&mut self, id: String, time: u32)
        ensures
            final(self).states() == old(self).states().insert(
                id@,
                StateView { base_time_millis: time, ..old(self).get(id@) },
            ),
            final(self).zero() == old(self).zero(),
    {
        let mut s = self.take(id.as_str());
        s.base_time_millis = time;
        self.put(id, s);
    }

    /// Sets how much the content of the widget `id` is scrolled by.
    pub fn set_scroll(&mut self, id: String, scroll: P)
        ensures
            final(self).states() == old(self).states().insert(id@, StateView { scroll, ..old(self).get(id@) }),
            final(self).zero() == old(self).zero(),
    {
        let mut s = self.take(id.as_str());
        s.scroll = scroll;
        self.put(id, s);
    }

    /// Adds a typed character to those of the widget `id`.
    pub fn push_character(&mut self, id: String, c: char)
        ensures
            final(self).states() == old(self).states().insert(
                id@,
                StateView { characters: old(self).get(id@).characters.push(c), ..old(self).get(id@) },
            ),
            final(self).zero() == old(self).zero(),
    {
        let mut s = self.take(id.as_str());
        s.characters.push(c);
        self.put(id, s);
    }

    /// The base time of the timed images of the widget `id`: zero unless it has a
    /// stored state.
    pub fn base_time_millis_for(&self, id: &str) -> (t: u32)
        ensures
            t == self.get(id@).base_time_millis,
    {
        self.state(id).base_time_millis
    }
}

fn copy_chars(v: &Vec<char>) -> (r: Vec<char>)
    ensures
        r@ == v@,
{
    let mut r: Vec<char> = Vec::new();
    let mut i: usize = 0;
    while i < v.len()
        invariant
            i <= v@.len(),
            r@ == v@.take(i as int),
        decreases v@.len() - i,
    {
        r.push(v[i]);
        i = i + 1;
        proof {
            assert(r@ =~= v@.take(i as int));
        }
    }
    proof {
        assert(v@.take(v@.len() as int) =~= v@);
    }
    r
}

/// A read gives back what the last write stored: after storing a state for `id`,
/// `id` reads as that state and every other widget reads as before; after removing
/// the state of `id`, it reads as the default state.
pub proof fn lemma_read_after_write<P>(
    states: Map<Seq<char>, StateView<P>>,
    zero: P,
    id: Seq<char>,
    other: Seq<char>,
    value: StateView<P>,
)
    ensures
        state_in(states.insert(id, value), zero, id) == value,
        other != id ==> state_in(states.insert(id, value), zero, other) == state_in(states, zero, other),
        state_in(states.remove(id), zero, id) == default_state(zero),
        other != id ==> state_in(states.remove(id), zero, other) == state_in(states, zero, other),
{
}

/// Moves the input state on to the next frame (see `InputState::next_frame`); when
/// the open modal closes because of a click outside it, the modal's widget is
/// recorded as closed.  Returns the identifier of the modal that closed, if any.
pub fn next_frame_closing_modal<P: Copy>(
    input: &mut InputState,
    states: &mut PersistentStates<P>,
    mouse_taken: Option<(String, RendGroup)>,
    mouse_in_rend_group: Option<RendGroup>,
    mouse_in_modal: bool,
) -> (closed: Option<String>)
    requires
        old(input).well_formed(),
    ensures
        final(input).well_formed(),
        (final(input)@, opt_view(closed)) == next_frame_step(
            old(input)@,
            match mouse_taken {
                Some((id, g)) => Some((id@, g)),
                None => None,
            },
            mouse_in_rend_group,
            mouse_in_modal,
        ),
        match closed {
            Some(id) => final(states).states() == old(states).states().insert(
                id@,
                StateView { is_open: false, ..old(states).get(id@) },
            ),
            None => final(states).states() == old(states).states(),
        },
        final(states).zero() == old(states).zero(),
{
    let closed = input.next_frame(mouse_taken, mouse_in_rend_group, mouse_in_modal);
    match &closed {
        Some(id) => {
            states.set_open(id.clone(), false);
        },
        None => {},
    }
    closed
}

/// Adds a typed character to the widget that has the keyboard focus, if any;
/// nothing changes when no widget has it.
pub fn push_focused_character<P: Copy>(input: &InputState, states: &mut PersistentStates<P>, c: char)
    ensures
        match input@.keyboard_focus_widget {
            Some(id) => final(states).states() == old(states).states().insert(
                id,
                StateView { characters: old(states).get(id).characters.push(c), ..old(states).get(id) },
            ),
            None => final(states).states() == old(states).states(),
        },
        final(states).zero() == old(states).zero(),
{
    match input.keyboard_focus() {
        Some(id) => {
            states.push_character(id.clone(), c);
        },
        None => {},
    }
}

} // verus!
