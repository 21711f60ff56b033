//! Widget themes.  A theme definition is a tree of named widget themes; it is
//! flattened into a list of themes addressed by handles, in which each theme knows
//! its parent and its children.  A theme may name another theme as the one it
//! comes `from`, and then inherits from it everything it leaves unset.

use vstd::prelude::*;
use vstd::string::*;

use crate::Error;
use crate::image::ImageHandle;
use crate::font::{font_source_error, plan_fonts, FontDefinition};
use crate::render::{FontHandle, MAX_RAW_HANDLE};
use crate::image_set::{
    build_image_sets, lemma_empty_image_named, first_keyed, keyed_position, keyed_set, keyed_value, lemma_keyed_position, named,
    set_buildable, sets_built, BuiltImage, BuiltImages, ImageModel, ImageSetDefinition,
};
use crate::layout::{Align, Layout, WidthRelative, HeightRelative};
use crate::text::{concat3, concat5, contains_char, decimal, push_decimal, str_eq};

verus! {

// ---------------------------------------------------------------------------
// Handles and lookup tables
// ---------------------------------------------------------------------------

/// A handle to a widget theme: its position in the list of themes.
#[derive(Copy, Clone, Debug, PartialEq, Eq, Hash, Structural)]
pub struct WidgetThemeHandle {
    id: u64,
}

impl View for WidgetThemeHandle {
    /// The position of the theme in the list of themes.
    type V = nat;

    closed spec fn view(&self) -> nat {
        self.id as nat
    }
}

impl WidgetThemeHandle {
    /// The handle of the theme at position `index`.
    fn at(index: usize) -> (h: WidgetThemeHandle)
        ensures
            h@ == index,
    {
        WidgetThemeHandle { id: index as u64 }
    }

    /// The position of the theme in the list of themes.
    pub fn id(self) -> (r: u64)
        ensures
            r == self@,
    {
        self.id
    }

    fn index(self) -> (r: usize)
        requires
            self@ <= usize::MAX,
        ensures
            r == self@,
    {
        self.id as usize
    }

    /// Handles are identified by the positions they stand for.
    pub proof fn lemma_view_injective(a: WidgetThemeHandle, b: WidgetThemeHandle)
        ensures
            a@ == b@ <==> a == b,
    {
    }
}

/// The position of the first entry whose key is `key`, if any.
pub open spec fn key_position<T>(entries: Seq<(String, T)>, key: Seq<char>) -> Option<int> {
    if exists|i: int| 0 <= i < entries.len() && is_first_key(entries, key, i) {
        Some(choose|i: int| 0 <= i < entries.len() && is_first_key(entries, key, i))
    } else {
        None
    }
}

/// Whether the entry at `i` has key `key`, and no entry before it does.
pub open spec fn is_first_key<T>(entries: Seq<(String, T)>, key: Seq<char>, i: int) -> bool {
    &&& entries[i].0@ == key
    &&& forall|j: int| 0 <= j < i ==> entries[j].0@ != key
}

/// The value of the first entry whose key is `key`, if any.
pub open spec fn lookup<T>(entries: Seq<(String, T)>, key: Seq<char>) -> Option<T> {
    match key_position(entries, key) {
        Some(i) => Some(entries[i].1),
        None => None,
    }
}

/// The entries after setting `key` to `value`: the first entry with that key
/// takes the new value, or, if there is none, the pair is added at the end.
pub open spec fn with_entry<T>(entries: Seq<(String, T)>, key: String, value: T) -> Seq<(String, T)> {
    match key_position(entries, key@) {
        Some(i) => entries.update(i, (entries[i].0, value)),
        None => entries.push((key, value)),
    }
}

proof fn lemma_first_key_unique<T>(entries: Seq<(String, T)>, key: Seq<char>, i: int, j: int)
    requires
        0 <= i < entries.len(),
        0 <= j < entries.len(),
        is_first_key(entries, key, i),
        is_first_key(entries, key, j),
    ensures
        i == j,
{
}

/// Finds the position of the first entry whose key is `key`.
fn find_key<T>(entries: &Vec<(String, T)>, key: &str) -> (r: Option<usize>)
    ensures
        match r {
            Some(i) => key_position(entries@, key@) == Some(i as int),
            None => key_position(entries@, key@) is None,
        },
{
    let mut i: usize = 0;
    while i < entries.len()
        invariant
            i <= entries@.len(),
            forall|j: int| 0 <= j < i ==> entries@[j].0@ != key@,
        decreases entries@.len() - i,
    {
        if str_eq(entries[i].0.as_str(), key) {
            proof {
                assert(is_first_key(entries@, key@, i as int));
                let c = choose|c: int| 0 <= c < entries@.len() && is_first_key(entries@, key@, c);
                lemma_first_key_unique(entries@, key@, i as int, c);
            }
            return Some(i);
        }
        i = i + 1;
    }
    None
}

/// Sets `key` to `value`: the first entry with that key takes the new value, or,
/// if there is none, the pair is added at the end.
fn set_entry<T>(entries: &mut Vec<(String, T)>, key: String, value: T)
    ensures
        final(entries)@ == with_entry(old(entries)@, key, value),
{
    match find_key(entries, key.as_str()) {
        Some(i) => {
            let (k, _) = entries.remove(i);
            entries.insert(i, (k, value));
            proof {
                assert(entries@ =~= with_entry(old(entries)@, key, value));
            }
        },
        None => {
            entries.push((key, value));
        },
    }
}

/// The position of the first name equal to `name`, if any.
pub open spec fn name_position(names: Seq<String>, name: Seq<char>) -> Option<int> {
    if exists|i: int| 0 <= i < names.len() && is_first_name(names, name, i) {
        Some(choose|i: int| 0 <= i < names.len() && is_first_name(names, name, i))
    } else {
        None
    }
}

/// Whether the name at `i` is `name`, and no name before it is.
pub open spec fn is_first_name(names: Seq<String>, name: Seq<char>, i: int) -> bool {
    &&& names[i]@ == name
    &&& forall|j: int| 0 <= j < i ==> names[j]@ != name
}

/// Finds the position of the first name equal to `name`.
pub(crate) fn find_name(names: &Vec<String>, name: &str) -> (r: Option<usize>)
    ensures
        match r {
            Some(i) => name_position(names@, name@) == Some(i as int),
            None => name_position(names@, name@) is None,
        },
{
    let mut i: usize = 0;
    while i < names.len()
        invariant
            i <= names@.len(),
            forall|j: int| 0 <= j < i ==> names@[j]@ != name@,
        decreases names@.len() - i,
    {
        if str_eq(names[i].as_str(), name) {
            proof {
                assert(is_first_name(names@, name@, i as int));
                let c = choose|c: int| 0 <= c < names@.len() && is_first_name(names@, name@, c);
                assert(is_first_name(names@, name@, c));
                if c < i {
                    assert(names@[c]@ != name@);
                } else if c > i {
                    assert(names@[i as int]@ != name@);
                }
            }
            return Some(i);
        }
        i = i + 1;
    }
    None
}

// ---------------------------------------------------------------------------
// Styles
// ---------------------------------------------------------------------------

/// The settings of a theme that a theme either sets or leaves to be inherited.
/// `V` is the type of the values that the library carries but never inspects:
/// colors, positions, sizes and borders.
#[derive(Copy, Clone)]
pub struct Style<V> {
    pub text_color: Option<V>,
    pub image_color: Option<V>,
    pub wants_mouse: Option<bool>,
    pub wants_scroll: Option<bool>,
    pub text_align: Option<Align>,
    pub pos: Option<V>,
    pub screen_pos: Option<V>,
    pub width: Option<V>,
    pub height: Option<V>,
    pub width_from: Option<WidthRelative>,
    pub height_from: Option<HeightRelative>,
    pub border: Option<V>,
    pub align: Option<Align>,
    pub child_align: Option<Align>,
    pub layout: Option<Layout>,
    pub layout_spacing: Option<V>,
}

/// `first` if it is set, and `second` otherwise.
pub open spec fn either<T>(first: Option<T>, second: Option<T>) -> Option<T> {
    if first is Some {
        first
    } else {
        second
    }
}

fn either_of<T: Copy>(first: Option<T>, second: Option<T>) -> (r: Option<T>)
    ensures
        r == either(first, second),
{
    match first {
        Some(_) => first,
        None => second,
    }
}

impl<V> Style<V> {
    /// This style, with every setting that it leaves unset taken from `from`.
    pub open spec fn inherited(self, from: Style<V>) -> Style<V> {
        Style {
            text_color: either(self.text_color, from.text_color),
            image_color: either(self.image_color, from.image_color),
            wants_mouse: either(self.wants_mouse, from.wants_mouse),
            wants_scroll: either(self.wants_scroll, from.wants_scroll),
            text_align: either(self.text_align, from.text_align),
            pos: either(self.pos, from.pos),
            screen_pos: either(self.screen_pos, from.screen_pos),
            width: either(self.width, from.width),
            height: either(self.height, from.height),
            width_from: either(self.width_from, from.width_from),
            height_from: either(self.height_from, from.height_from),
            border: either(self.border, from.border),
            align: either(self.align, from.align),
            child_align: either(self.child_align, from.child_align),
            layout: either(self.layout, from.layout),
            layout_spacing: either(self.layout_spacing, from.layout_spacing),
        }
    }
}

impl<V: Copy> Style<V> {
    /// This style, with every setting that it leaves unset taken from `from`.
    pub fn inherit(self, from: Style<V>) -> (s: Style<V>)
        ensures
            s == self.inherited(from),
    {
        Style {
            text_color: either_of(self.text_color, from.text_color),
            image_color: either_of(self.image_color, from.image_color),
            wants_mouse: either_of(self.wants_mouse, from.wants_mouse),
            wants_scroll: either_of(self.wants_scroll, from.wants_scroll),
            text_align: either_of(self.text_align, from.text_align),
            pos: either_of(self.pos, from.pos),
            screen_pos: either_of(self.screen_pos, from.screen_pos),
            width: either_of(self.width, from.width),
            height: either_of(self.height, from.height),
            width_from: either_of(self.width_from, from.width_from),
            height_from: either_of(self.height_from, from.height_from),
            border: either_of(self.border, from.border),
            align: either_of(self.align, from.align),
            child_align: either_of(self.child_align, from.child_align),
            layout: either_of(self.layout, from.layout),
            layout_spacing: either_of(self.layout_spacing, from.layout_spacing),
        }
    }
}

/// Each setting is inherited on its own: a style keeps every setting it sets, and
/// takes from `from` every setting it leaves unset, whatever its other settings.
pub proof fn lemma_inherit_fieldwise<V>(own: Style<V>, from: Style<V>)
    ensures
        own.inherited(from).text_color == (if own.text_color is Some { own.text_color } else { from.text_color }),
        own.inherited(from).image_color == (if own.image_color is Some { own.image_color } else { from.image_color }),
        own.inherited(from).wants_mouse == (if own.wants_mouse is Some { own.wants_mouse } else { from.wants_mouse }),
        own.inherited(from).wants_scroll == (if own.wants_scroll is Some { own.wants_scroll } else { from.wants_scroll }),
        own.inherited(from).text_align == (if own.text_align is Some { own.text_align } else { from.text_align }),
        own.inherited(from).pos == (if own.pos is Some { own.pos } else { from.pos }),
        own.inherited(from).screen_pos == (if own.screen_pos is Some { own.screen_pos } else { from.screen_pos }),
        own.inherited(from).width == (if own.width is Some { own.width } else { from.width }),
        own.inherited(from).height == (if own.height is Some { own.height } else { from.height }),
        own.inherited(from).width_from == (if own.width_from is Some { own.width_from } else { from.width_from }),
        own.inherited(from).height_from == (if own.height_from is Some { own.height_from } else { from.height_from }),
        own.inherited(from).border == (if own.border is Some { own.border } else { from.border }),
        own.inherited(from).align == (if own.align is Some { own.align } else { from.align }),
        own.inherited(from).child_align == (if own.child_align is Some { own.child_align } else { from.child_align }),
        own.inherited(from).layout == (if own.layout is Some { own.layout } else { from.layout }),
        own.inherited(from).layout_spacing == (if own.layout_spacing is Some { own.layout_spacing } else { from.layout_spacing }),
{
}

/// Inheriting fills only what a style leaves unset: inheriting from the same style
/// a second time changes nothing more, inheriting from itself or from a style that
/// sets nothing leaves a style as it is, and a style that sets nothing takes
/// everything from the other.
pub proof fn lemma_inherit_laws<V>(own: Style<V>, from: Style<V>)
    ensures
        own.inherited(from).inherited(from) == own.inherited(from),
        own.inherited(own) == own,
        own.inherited(unset_style()) == own,
        unset_style().inherited(from) == from,
{
}

// ---------------------------------------------------------------------------
// Definitions and themes
// ---------------------------------------------------------------------------

/// A widget theme as a theme definition writes it: the settings it sets, the
/// names of the images and the font it uses, and its child themes by name.  `D` is
/// the type of the custom data that a theme may carry.
pub struct WidgetThemeDefinition<V, D> {
    pub from: Option<String>,
    pub text: Option<String>,
    pub font: Option<String>,
    pub background: Option<String>,
    pub foreground: Option<String>,
    pub tooltip: Option<String>,
    /// The settings as written; `size` and `size_from`, where present, take the
    /// place of the width and height settings.
    pub style: Style<V>,
    pub size: Option<(V, V)>,
    pub size_from: Option<(WidthRelative, HeightRelative)>,
    pub children: Vec<(String, WidgetThemeDefinition<V, D>)>,
    pub custom: Vec<(String, D)>,
}

/// The settings of a theme made from a definition: a `size` sets both the width and
/// the height, and a `size_from` sets both what the width and the height are
/// computed from.
pub open spec fn definition_style<V, D>(def: WidgetThemeDefinition<V, D>) -> Style<V> {
    let width = match def.size {
        Some(size) => Some(size.0),
        None => def.style.width,
    };
    let height = match def.size {
        Some(size) => Some(size.1),
        None => def.style.height,
    };
    let width_from = match def.size_from {
        Some(from) => Some(from.0),
        None => def.style.width_from,
    };
    let height_from = match def.size_from {
        Some(from) => Some(from.1),
        None => def.style.height_from,
    };
    Style { width, height, width_from, height_from, ..def.style }
}

/// A widget theme in the list of themes.  `F` is the type of the font summaries
/// that the fonts table gives.
pub struct WidgetTheme<V, F, D> {
    /// The theme that this theme still has to inherit from, if any.
    pub from: Option<String>,
    pub full_id: String,
    pub id: String,
    pub parent_handle: Option<WidgetThemeHandle>,
    pub handle: WidgetThemeHandle,
    pub text: Option<String>,
    pub font: Option<F>,
    pub background: Option<ImageHandle>,
    pub foreground: Option<ImageHandle>,
    pub tooltip: Option<String>,
    pub style: Style<V>,
    pub children: Vec<WidgetThemeHandle>,
    pub custom: Vec<(String, D)>,
    /// Where each custom data entry comes from: the position of a theme in the
    /// list as it was made from the definitions, and the position of the entry
    /// in that theme's custom data.
    pub origins: Ghost<Seq<(nat, nat)>>,
}

/// The origins of the custom data of a theme as it is made: its own entries, in order.
pub open spec fn initial_origins(index: nat, count: nat) -> Seq<(nat, nat)> {
    Seq::new(count, |k: int| (index, k as nat))
}

/// Whether the theme at `i` is well placed in the list: its handle is its
/// position, its parent comes before it, and its children come after it.
pub open spec fn theme_ok<V, F, D>(ts: Seq<WidgetTheme<V, F, D>>, i: int) -> bool {
    &&& ts[i].handle@ == i
    &&& (ts[i].parent_handle matches Some(p) ==> p@ < i)
    &&& forall|k: int|
        0 <= k < ts[i].children@.len() ==> i < (#[trigger] ts[i].children@[k])@ < ts.len()
}

/// Whether every theme of the list is well placed.
pub open spec fn themes_ok<V, F, D>(ts: Seq<WidgetTheme<V, F, D>>) -> bool {
    forall|i: int| 0 <= i < ts.len() ==> #[trigger] theme_ok(ts, i)
}

/// Whether every handle in the table names one of `count` themes.
pub open spec fn handles_ok(hs: Seq<(String, WidgetThemeHandle)>, count: nat) -> bool {
    forall|i: int| 0 <= i < hs.len() ==> (#[trigger] hs[i]).1@ < count
}

proof fn lemma_with_entry_ok(hs: Seq<(String, WidgetThemeHandle)>, key: String, value: WidgetThemeHandle, count: nat)
    requires
        handles_ok(hs, count),
        value@ < count,
    ensures
        handles_ok(with_entry(hs, key, value), count),
{
    let r = with_entry(hs, key, value);
    assert forall|i: int| 0 <= i < r.len() implies (#[trigger] r[i]).1@ < count by {
        if i < hs.len() && r[i] != hs[i] {
        }
    }
}

proof fn lemma_handles_ok_grow(hs: Seq<(String, WidgetThemeHandle)>, count: nat, more: nat)
    requires
        handles_ok(hs, count),
        count <= more,
    ensures
        handles_ok(hs, more),
{
}

/// Themes that are well placed stay so when more themes are added after them.
proof fn lemma_themes_ok_extend<V, F, D>(before: Seq<WidgetTheme<V, F, D>>, after: Seq<WidgetTheme<V, F, D>>)
    requires
        themes_ok(before),
        before.len() <= after.len(),
        forall|i: int| 0 <= i < before.len() ==> after[i] == before[i],
        forall|i: int| before.len() <= i < after.len() ==> theme_ok(after, i),
    ensures
        themes_ok(after),
{
    assert forall|i: int| 0 <= i < after.len() implies #[trigger] theme_ok(after, i) by {
        if i < before.len() {
            assert(theme_ok(before, i));
        }
    }
}

/// The full identifier of a theme: its parent's full identifier, a slash and its
/// own identifier, or just its own identifier at the top level.
pub open spec fn full_name(parent_full_id: Seq<char>, id: Seq<char>) -> Seq<char> {
    if parent_full_id.len() == 0 {
        id
    } else {
        parent_full_id + seq!['/'] + id
    }
}

pub open spec fn invalid_name_message(id: Seq<char>) -> Seq<char> {
    "'"@ + id + "' theme name invalid.  the '/' character is not allowed"@
}

pub open spec fn missing_background_message(image: Seq<char>, full_id: Seq<char>) -> Seq<char> {
    "Unable to locate image '"@ + image + "' as background for widget '"@ + full_id + "'"@
}

pub open spec fn missing_foreground_message(image: Seq<char>, full_id: Seq<char>) -> Seq<char> {
    "Unable to locate image '"@ + image + "' as foreground for widget '"@ + full_id + "'"@
}

pub open spec fn missing_font_message(font: Seq<char>, full_id: Seq<char>) -> Seq<char> {
    "Unable to locate font '"@ + font + "' for widget '"@ + full_id + "'"@
}

/// What is wrong with a definition itself, leaving its children aside: an
/// identifier holding a slash, or an image or font that the tables do not hold.
pub open spec fn node_error<V, F, D>(
    def: WidgetThemeDefinition<V, D>,
    id: Seq<char>,
    full_id: Seq<char>,
    images: Seq<String>,
    fonts: Seq<(String, F)>,
) -> Option<Seq<char>> {
    if id.contains('/') {
        Some(invalid_name_message(id))
    } else if def.background is Some && name_position(images, def.background->0@) is None {
        Some(missing_background_message(def.background->0@, full_id))
    } else if def.foreground is Some && name_position(images, def.foreground->0@) is None {
        Some(missing_foreground_message(def.foreground->0@, full_id))
    } else if def.font is Some && key_position(fonts, def.font->0@) is None {
        Some(missing_font_message(def.font->0@, full_id))
    } else {
        None
    }
}

/// The first thing wrong with a definition or its descendants, taking a theme
/// before its children and the children in order.
pub open spec fn definition_error<V, F, D>(
    def: WidgetThemeDefinition<V, D>,
    id: Seq<char>,
    parent_full_id: Seq<char>,
    images: Seq<String>,
    fonts: Seq<(String, F)>,
) -> Option<Seq<char>>
    decreases def, 0nat,
{
    let full_id = full_name(parent_full_id, id);
    match node_error(def, id, full_id, images, fonts) {
        Some(e) => Some(e),
        None => children_error(def.children@, def.children@.len(), full_id, images, fonts),
    }
}

/// The first thing wrong with the first `count` children or their descendants.
pub open spec fn children_error<V, F, D>(
    kids: Seq<(String, WidgetThemeDefinition<V, D>)>,
    count: nat,
    full_id: Seq<char>,
    images: Seq<String>,
    fonts: Seq<(String, F)>,
) -> Option<Seq<char>>
    decreases kids, count,
{
    if count == 0 || count > kids.len() {
        None
    } else {
        match children_error(kids, (count - 1) as nat, full_id, images, fonts) {
            Some(e) => Some(e),
            None => definition_error(kids[count - 1].1, kids[count - 1].0@, full_id, images, fonts),
        }
    }
}

/// The number of themes that a definition gives: one for itself and those of its
/// children.
pub open spec fn definition_size<V, D>(def: WidgetThemeDefinition<V, D>) -> nat
    decreases def, 0nat,
{
    1 + children_size(def.children@, def.children@.len())
}

/// The number of themes that the first `count` children give.
pub open spec fn children_size<V, D>(kids: Seq<(String, WidgetThemeDefinition<V, D>)>, count: nat) -> nat
    decreases kids, count,
{
    if count == 0 || count > kids.len() {
        0
    } else {
        children_size(kids, (count - 1) as nat) + definition_size(kids[count - 1].1)
    }
}

/// Where the themes of child `k` start, for a theme at `start`.
pub open spec fn child_position<V, D>(start: int, kids: Seq<(String, WidgetThemeDefinition<V, D>)>, k: nat) -> int {
    start + 1 + children_size(kids, k)
}

/// The position of an image handle, if any.
pub open spec fn image_position(h: Option<ImageHandle>) -> Option<int> {
    match h {
        Some(h) => Some(h@ as int),
        None => None,
    }
}

/// The position in the image table of the image named by `name`, if any.
pub open spec fn named_image(images: Seq<String>, name: Option<String>) -> Option<int> {
    match name {
        Some(n) => name_position(images, n@),
        None => None,
    }
}

/// The font summary of the font named by `name`, if any.
pub open spec fn named_font<F>(fonts: Seq<(String, F)>, name: Option<String>) -> Option<F> {
    match name {
        Some(n) => lookup(fonts, n@),
        None => None,
    }
}

/// Whether `t` is the theme made from `def` at position `index`, leaving its
/// children aside.
pub open spec fn theme_made<V, F, D>(
    t: WidgetTheme<V, F, D>,
    index: int,
    def: WidgetThemeDefinition<V, D>,
    id: Seq<char>,
    full_id: Seq<char>,
    parent: Option<WidgetThemeHandle>,
    images: Seq<String>,
    fonts: Seq<(String, F)>,
) -> bool {
    &&& t.from == def.from
    &&& t.full_id@ == full_id
    &&& t.id@ == id
    &&& t.parent_handle == parent
    &&& t.handle@ == index
    &&& t.text == def.text
    &&& t.font == named_font(fonts, def.font)
    &&& image_position(t.background) == named_image(images, def.background)
    &&& image_position(t.foreground) == named_image(images, def.foreground)
    &&& t.tooltip == def.tooltip
    &&& t.style == definition_style(def)
    &&& t.custom == def.custom
    &&& t.origins@ == initial_origins(index as nat, t.custom@.len())
}

/// Whether the themes from `start` on are those made from `def` and its
/// descendants: the theme itself first, then the themes of each child in turn,
/// each child theme with the theme as its parent and in its list of children.
#[verifier::opaque]
pub open spec fn created<V, F, D>(
    ts: Seq<WidgetTheme<V, F, D>>,
    start: int,
    def: WidgetThemeDefinition<V, D>,
    id: Seq<char>,
    parent_full_id: Seq<char>,
    parent: Option<WidgetThemeHandle>,
    images: Seq<String>,
    fonts: Seq<(String, F)>,
) -> bool
    decreases def,
{
    let full_id = full_name(parent_full_id, id);
    let kids = def.children@;
    &&& 0 <= start < ts.len()
    &&& theme_made(ts[start], start, def, id, full_id, parent, images, fonts)
    &&& ts[start].children@.len() == kids.len()
    &&& forall|k: int|
        #![trigger kids[k]]
        0 <= k < kids.len() ==> {
            &&& ts[start].children@[k]@ == child_position(start, kids, k as nat)
            &&& created(
                ts,
                child_position(start, kids, k as nat),
                kids[k].1,
                kids[k].0@,
                full_id,
                Some(ts[start].handle),
                images,
                fonts,
            )
        }
}

/// The handle table after the themes made from `def` at `start` were entered:
/// each theme's full identifier is entered after those of its descendants.
pub open spec fn handles_made<V, F, D>(
    hs: Seq<(String, WidgetThemeHandle)>,
    ts: Seq<WidgetTheme<V, F, D>>,
    start: int,
    def: WidgetThemeDefinition<V, D>,
) -> Seq<(String, WidgetThemeHandle)>
    decreases def, 0nat,
{
    let kids = def.children@;
    let after_children = children_handles(hs, ts, start, kids, kids.len());
    with_entry(after_children, ts[start].full_id, ts[start].handle)
}

/// The handle table after the themes made from the first `count` children were
/// entered.
pub open spec fn children_handles<V, F, D>(
    hs: Seq<(String, WidgetThemeHandle)>,
    ts: Seq<WidgetTheme<V, F, D>>,
    start: int,
    kids: Seq<(String, WidgetThemeDefinition<V, D>)>,
    count: nat,
) -> Seq<(String, WidgetThemeHandle)>
    decreases kids, count,
{
    if count == 0 || count > kids.len() {
        hs
    } else {
        handles_made(
            children_handles(hs, ts, start, kids, (count - 1) as nat),
            ts,
            child_position(start, kids, (count - 1) as nat),
            kids[count - 1].1,
        )
    }
}

proof fn lemma_children_size_step<V, D>(kids: Seq<(String, WidgetThemeDefinition<V, D>)>, k: nat)
    requires
        k < kids.len(),
    ensures
        children_size(kids, k + 1) == children_size(kids, k) + definition_size(kids[k as int].1),
{
}

proof fn lemma_children_size_mono<V, D>(kids: Seq<(String, WidgetThemeDefinition<V, D>)>, j: nat, k: nat)
    requires
        j <= k <= kids.len(),
    ensures
        children_size(kids, j) <= children_size(kids, k),
    decreases k - j,
{
    if j < k {
        lemma_children_size_mono(kids, j, (k - 1) as nat);
    }
}

/// The themes of child `k` lie within the themes of the children.
proof fn lemma_kid_range<V, D>(start: int, kids: Seq<(String, WidgetThemeDefinition<V, D>)>, k: nat)
    requires
        k < kids.len(),
    ensures
        start + 1 <= child_position(start, kids, k),
        child_position(start, kids, k) + definition_size(kids[k as int].1)
            <= start + 1 + children_size(kids, kids.len()),
{
    lemma_children_size_step(kids, k);
    lemma_children_size_mono(kids, k + 1, kids.len());
}

/// The themes of child `k` lie within the themes of its parent.
proof fn lemma_child_range<V, D>(start: int, def: WidgetThemeDefinition<V, D>, k: nat)
    requires
        k < def.children@.len(),
    ensures
        start + 1 <= child_position(start, def.children@, k),
        child_position(start, def.children@, k) + definition_size(def.children@[k as int].1)
            <= start + definition_size(def),
{
    lemma_kid_range(start, def.children@, k);
}

proof fn lemma_created_frame<V, F, D>(
    ts1: Seq<WidgetTheme<V, F, D>>,
    ts2: Seq<WidgetTheme<V, F, D>>,
    start: int,
    def: WidgetThemeDefinition<V, D>,
    id: Seq<char>,
    parent_full_id: Seq<char>,
    parent: Option<WidgetThemeHandle>,
    images: Seq<String>,
    fonts: Seq<(String, F)>,
)
    requires
        created(ts1, start, def, id, parent_full_id, parent, images, fonts),
        start + definition_size(def) <= ts2.len(),
        forall|i: int| start <= i < start + definition_size(def) ==> ts2[i] == ts1[i],
    ensures
        created(ts2, start, def, id, parent_full_id, parent, images, fonts),
    decreases def,
{
    reveal(created);
    let full_id = full_name(parent_full_id, id);
    let kids = def.children@;
    assert forall|k: int| 0 <= k < kids.len() implies {
        &&& ts2[start].children@[k]@ == child_position(start, kids, k as nat)
        &&& created(
            ts2,
            child_position(start, kids, k as nat),
            kids[k].1,
            kids[k].0@,
            full_id,
            Some(ts2[start].handle),
            images,
            fonts,
        )
    } by {
        lemma_child_range(start, def, k as nat);
        let cp = child_position(start, kids, k as nat);
        assert(decreases_to!(def => def.children));
        assert(decreases_to!(def.children => kids));
        assert(decreases_to!(kids => kids[k]));
        assert(decreases_to!(kids[k] => kids[k].1));
        lemma_created_frame(
            ts1,
            ts2,
            cp,
            kids[k].1,
            kids[k].0@,
            full_id,
            Some(ts1[start].handle),
            images,
            fonts,
        );
    }
}

proof fn lemma_handles_frame<V, F, D>(
    hs: Seq<(String, WidgetThemeHandle)>,
    ts1: Seq<WidgetTheme<V, F, D>>,
    ts2: Seq<WidgetTheme<V, F, D>>,
    start: int,
    def: WidgetThemeDefinition<V, D>,
)
    requires
        forall|i: int| start <= i < start + definition_size(def) ==> ts2[i] == ts1[i],
    ensures
        handles_made(hs, ts1, start, def) == handles_made(hs, ts2, start, def),
    decreases def, 0nat,
{
    let kids = def.children@;
    lemma_children_handles_frame(hs, ts1, ts2, start, kids, kids.len());
}

proof fn lemma_children_handles_frame<V, F, D>(
    hs: Seq<(String, WidgetThemeHandle)>,
    ts1: Seq<WidgetTheme<V, F, D>>,
    ts2: Seq<WidgetTheme<V, F, D>>,
    start: int,
    kids: Seq<(String, WidgetThemeDefinition<V, D>)>,
    count: nat,
)
    requires
        forall|i: int| start + 1 <= i < start + 1 + children_size(kids, count) ==> ts2[i] == ts1[i],
    ensures
        children_handles(hs, ts1, start, kids, count) == children_handles(hs, ts2, start, kids, count),
    decreases kids, count,
{
    if count == 0 || count > kids.len() {
    } else {
        let c = (count - 1) as nat;
        lemma_children_size_step(kids, c);
        lemma_children_handles_frame(hs, ts1, ts2, start, kids, c);
        let before = children_handles(hs, ts1, start, kids, c);
        lemma_handles_frame(before, ts1, ts2, child_position(start, kids, c), kids[c as int].1);
    }
}

proof fn lemma_children_error_persists<V, F, D>(
    kids: Seq<(String, WidgetThemeDefinition<V, D>)>,
    j: nat,
    k: nat,
    full_id: Seq<char>,
    images: Seq<String>,
    fonts: Seq<(String, F)>,
)
    requires
        j <= k <= kids.len(),
        children_error(kids, j, full_id, images, fonts) is Some,
    ensures
        children_error(kids, k, full_id, images, fonts) == children_error(kids, j, full_id, images, fonts),
    decreases k - j,
{
    if j < k {
        lemma_children_error_persists(kids, j, (k - 1) as nat, full_id, images, fonts);
    }
}

/// The full identifier of a theme named `id` whose parent has the full identifier
/// `parent_full_id`.
fn make_full_name(parent_full_id: &String, id: &String) -> (s: String)
    ensures
        s@ == full_name(parent_full_id@, id@),
{
    if parent_full_id.as_str().is_empty() {
        id.clone()
    } else {
        let mut f = parent_full_id.clone();
        f.append("/");
        f.append(id.as_str());
        proof {
            reveal_strlit("/");
        }
        f
    }
}

/// Adding later themes keeps the themes of an earlier child as they were.
proof fn lemma_earlier_child_kept<V, F, D>(
    before: Seq<WidgetTheme<V, F, D>>,
    after: Seq<WidgetTheme<V, F, D>>,
    index: int,
    kids: Seq<(String, WidgetThemeDefinition<V, D>)>,
    k: nat,
    j: nat,
    full_id: Seq<char>,
    parent: Option<WidgetThemeHandle>,
    images: Seq<String>,
    fonts: Seq<(String, F)>,
)
    requires
        0 <= index,
        j < k < kids.len(),
        before.len() == index + 1 + children_size(kids, k),
        after.len() >= before.len(),
        after.take(before.len() as int) == before,
        created(
            before,
            child_position(index, kids, j),
            kids[j as int].1,
            kids[j as int].0@,
            full_id,
            parent,
            images,
            fonts,
        ),
    ensures
        created(
            after,
            child_position(index, kids, j),
            kids[j as int].1,
            kids[j as int].0@,
            full_id,
            parent,
            images,
            fonts,
        ),
{
    lemma_kid_range(index, kids, j);
    lemma_children_size_step(kids, j);
    lemma_children_size_mono(kids, j + 1, k);
    assert forall|i: int| 0 <= i < before.len() implies after[i] == before[i] by {
        assert(after.take(before.len() as int)[i] == after[i]);
    }
    lemma_created_frame(
        before,
        after,
        child_position(index, kids, j),
        kids[j as int].1,
        kids[j as int].0@,
        full_id,
        parent,
        images,
        fonts,
    );
}

/// One more child's themes were added after those of the earlier children.
proof fn lemma_created_step<V, F, D>(
    before: Seq<WidgetTheme<V, F, D>>,
    after: Seq<WidgetTheme<V, F, D>>,
    index: int,
    kids: Seq<(String, WidgetThemeDefinition<V, D>)>,
    k: nat,
    full_id: Seq<char>,
    parent: Option<WidgetThemeHandle>,
    images: Seq<String>,
    fonts: Seq<(String, F)>,
)
    requires
        0 <= index,
        k < kids.len(),
        before.len() == index + 1 + children_size(kids, k),
        after.len() == before.len() + definition_size(kids[k as int].1),
        after.take(before.len() as int) == before,
        forall|j: int|
            #![trigger kids[j]]
            0 <= j < k ==> created(
                before,
                child_position(index, kids, j as nat),
                kids[j].1,
                kids[j].0@,
                full_id,
                parent,
                images,
                fonts,
            ),
        created(
            after,
            before.len() as int,
            kids[k as int].1,
            kids[k as int].0@,
            full_id,
            parent,
            images,
            fonts,
        ),
    ensures
        after.len() == index + 1 + children_size(kids, k + 1),
        after.take(index + 1) == before.take(index + 1),
        forall|j: int|
            #![trigger kids[j]]
            0 <= j < k + 1 ==> created(
                after,
                child_position(index, kids, j as nat),
                kids[j].1,
                kids[j].0@,
                full_id,
                parent,
                images,
                fonts,
            ),
{
    lemma_children_size_step(kids, k);
    assert forall|i: int| 0 <= i < before.len() implies after[i] == before[i] by {
        assert(after.take(before.len() as int)[i] == after[i]);
    }
    assert(after.take(index + 1) =~= before.take(index + 1));
    assert forall|j: int|
        #![trigger kids[j]]
        0 <= j < k + 1 implies created(
            after,
            child_position(index, kids, j as nat),
            kids[j].1,
            kids[j].0@,
            full_id,
            parent,
            images,
            fonts,
        ) by {
        if j < k {
            lemma_earlier_child_kept(before, after, index, kids, k, j as nat, full_id, parent, images, fonts);
        }
    }
}

/// Adds the themes made from `def`, named `id`, and from its descendants to
/// `themes`, the theme first and then the themes of each child in turn, and
/// enters each one's full identifier in `handles`.  Fails with the first thing
/// wrong with the definitions (see `definition_error`).
#[verifier::rlimit(40)]
fn create<V: Copy, F: Copy, D>(
    parent_full_id: &String,
    parent_handle: Option<WidgetThemeHandle>,
    id: String,
    handles: &mut Vec<(String, WidgetThemeHandle)>,
    themes: &mut Vec<WidgetTheme<V, F, D>>,
    def: WidgetThemeDefinition<V, D>,
    images: &Vec<String>,
    fonts: &Vec<(String, F)>,
) -> (r: Result<WidgetThemeHandle, Error>)
    requires
        themes_ok(old(themes)@),
        handles_ok(old(handles)@, old(themes)@.len()),
        parent_handle matches Some(p) ==> p@ < old(themes)@.len(),
        origins_initial(old(themes)@),
    ensures
        origins_initial(final(themes)@),
        (match r {
            Ok(h) => {
                &&& definition_error(def, id@, parent_full_id@, images@, fonts@) is None
                &&& themes_ok(final(themes)@)
                &&& handles_ok(final(handles)@, final(themes)@.len())
                &&& h@ == old(themes)@.len()
                &&& final(themes)@.len() == old(themes)@.len() + definition_size(def)
                &&& final(themes)@.take(old(themes)@.len() as int) == old(themes)@
                &&& created(
                    final(themes)@,
                    old(themes)@.len() as int,
                    def,
                    id@,
                    parent_full_id@,
                    parent_handle,
                    images@,
                    fonts@,
                )
                &&& final(handles)@ == handles_made(
                    old(handles)@,
                    final(themes)@,
                    old(themes)@.len() as int,
                    def,
                )
            },
            Err(e) => {
                &&& e matches Error::Theme(msg) && definition_error(
                    def,
                    id@,
                    parent_full_id@,
                    images@,
                    fonts@,
                ) == Some(msg@)
                &&& node_error(def, id@, full_name(parent_full_id@, id@), images@, fonts@) is Some
                    ==> (final(themes)@ == old(themes)@ && final(handles)@ == old(handles)@)
            },
        }),
    decreases def,
{
    let ghost d = def;
    let ghost idv = id@;
    if contains_char(id.as_str(), '/') {
        let msg = concat3("'", id.as_str(), "' theme name invalid.  the '/' character is not allowed");
        return Err(Error::Theme(msg));
    }
    let full_id = make_full_name(parent_full_id, &id);
    let background = match &def.background {
        Some(name) => match find_name(images, name.as_str()) {
            Some(i) => Some(ImageHandle::new(i)),
            None => {
                let msg = concat5(
                    "Unable to locate image '",
                    name.as_str(),
                    "' as background for widget '",
                    full_id.as_str(),
                    "'",
                );
                return Err(Error::Theme(msg));
            },
        },
        None => None,
    };
    let foreground = match &def.foreground {
        Some(name) => match find_name(images, name.as_str()) {
            Some(i) => Some(ImageHandle::new(i)),
            None => {
                let msg = concat5(
                    "Unable to locate image '",
                    name.as_str(),
                    "' as foreground for widget '",
                    full_id.as_str(),
                    "'",
                );
                return Err(Error::Theme(msg));
            },
        },
        None => None,
    };
    let font = match &def.font {
        Some(name) => match find_key(fonts, name.as_str()) {
            Some(i) => Some(fonts[i].1),
            None => {
                let msg = concat5("Unable to locate font '", name.as_str(), "' for widget '", full_id.as_str(), "'");
                return Err(Error::Theme(msg));
            },
        },
        None => None,
    };
    let mut style = def.style;
    match def.size {
        Some(size) => {
            style.width = Some(size.0);
            style.height = Some(size.1);
        },
        None => {},
    }
    match def.size_from {
        Some(size_from) => {
            style.width_from = Some(size_from.0);
            style.height_from = Some(size_from.1);
        },
        None => {},
    }
    assert(node_error(d, idv, full_id@, images@, fonts@) is None);
    assert(style == definition_style(d));

    let index = themes.len();
    let handle = WidgetThemeHandle::at(index);
    let WidgetThemeDefinition { from, text, tooltip, children, custom, .. } = def;
    let ghost origins = initial_origins(index as nat, custom@.len());
    themes.push(
        WidgetTheme {
            from,
            full_id: full_id.clone(),
            id,
            parent_handle,
            handle,
            text,
            font,
            background,
            foreground,
            tooltip,
            style,
            children: Vec::new(),
            custom,
            origins: Ghost(origins),
        },
    );
    let ghost kids = children@;
    let ghost pushed = themes@;
    let ghost hs0 = handles@;
    proof {
        lemma_themes_ok_extend(old(themes)@, pushed);
        lemma_handles_ok_grow(hs0, old(themes)@.len(), pushed.len());
        assert forall|i: int| 0 <= i < pushed.len() implies (#[trigger] pushed[i]).origins@ == initial_origins(
            i as nat,
            pushed[i].custom@.len(),
        ) by {
            if i < index {
                assert(pushed[i] == old(themes)@[i]);
            }
        }
    }
    let mut remaining = children;
    let mut kid_handles: Vec<WidgetThemeHandle> = Vec::new();
    let mut k: usize = 0;
    proof {
        assert(remaining@ == kids.subrange(0, kids.len() as int));
        assert(themes@.take(index + 1) == pushed);
    }
    while remaining.len() > 0
        invariant
            d == def,
            idv == id@,
            kids == d.children@,
            index == old(themes)@.len(),
            handle@ == index,
            full_id@ == full_name(parent_full_id@, idv),
            node_error(d, idv, full_id@, images@, fonts@) is None,
            pushed.len() == index + 1,
            pushed.take(index as int) == old(themes)@,
            theme_made(pushed[index as int], index as int, d, idv, full_id@, parent_handle, images@, fonts@),
            pushed[index as int].full_id == full_id,
            pushed[index as int].children@.len() == 0,
            themes_ok(themes@),
            origins_initial(themes@),
            handles_ok(handles@, themes@.len()),
            k <= kids.len(),
            remaining@ == kids.subrange(k as int, kids.len() as int),
            themes@.len() == index + 1 + children_size(kids, k as nat),
            themes@.take(index + 1) == pushed,
            index + 1 <= themes@.len(),
            kid_handles@.len() == k,
            forall|j: int| 0 <= j < k ==> kid_handles@[j]@ == child_position(index as int, kids, j as nat),
            forall|j: int|
                #![trigger kids[j]]
                0 <= j < k ==> created(
                    themes@,
                    child_position(index as int, kids, j as nat),
                    kids[j].1,
                    kids[j].0@,
                    full_id@,
                    Some(handle),
                    images@,
                    fonts@,
                ),
            children_error(kids, k as nat, full_id@, images@, fonts@) is None,
            handles@ == children_handles(hs0, themes@, index as int, kids, k as nat),
        decreases remaining@.len(),
    {
        let (kid_id, kid_def) = remaining.remove(0);
        let ghost before = themes@;
        let ghost hs_before = handles@;
        proof {
            assert(kid_def == kids[k as int].1);
            assert(kid_id == kids[k as int].0);
            assert(decreases_to!(d => d.children));
            assert(decreases_to!(d.children => kids));
            assert(decreases_to!(kids => kids[k as int]));
            assert(decreases_to!(kids[k as int] => kids[k as int].1));
            lemma_children_size_step(kids, k as nat);
            assert(d.children.len() == kids.len());
        }
        let r = create(&full_id, Some(handle), kid_id, handles, themes, kid_def, images, fonts);
        match r {
            Ok(h) => {
                proof {
                    lemma_created_step(before, themes@, index as int, kids, k as nat, full_id@, Some(handle), images@, fonts@);
                    lemma_children_handles_frame(hs0, before, themes@, index as int, kids, k as nat);
                }
                kid_handles.push(h);
                k = k + 1;
                proof {
                    assert(remaining@ =~= kids.subrange(k as int, kids.len() as int));
                }
            },
            Err(e) => {
                proof {
                    assert(definition_error(kids[k as int].1, kids[k as int].0@, full_id@, images@, fonts@) is Some);
                    assert(children_error(kids, (k + 1) as nat, full_id@, images@, fonts@) is Some);
                    lemma_children_error_persists(kids, (k + 1) as nat, kids.len(), full_id@, images@, fonts@);
                }
                return Err(e);
            },
        }
    }
    let ghost looped = themes@;
    let ghost hs_looped = handles@;
    let ghost full_id_copy = full_id;
    proof {
        assert(k == kids.len());
    }
    themes[index].children = kid_handles;
    proof {
        let fin = themes@;
        assert(fin == looped.update(index as int, fin[index as int]));
        assert forall|i: int| 0 <= i < fin.len() implies (#[trigger] fin[i]).origins@ == initial_origins(
            i as nat,
            fin[i].custom@.len(),
        ) by {
            assert(looped[i].origins@ == initial_origins(i as nat, looped[i].custom@.len()));
        }
        assert(looped[index as int] == pushed[index as int]) by {
            assert(looped.take(index + 1)[index as int] == looped[index as int]);
        }
        assert forall|j: int|
            #![trigger kids[j]]
            0 <= j < kids.len() implies created(
                fin,
                child_position(index as int, kids, j as nat),
                kids[j].1,
                kids[j].0@,
                full_id@,
                Some(handle),
                images@,
                fonts@,
            ) by {
            lemma_child_range(index as int, d, j as nat);
            lemma_created_frame(
                looped,
                fin,
                child_position(index as int, kids, j as nat),
                kids[j].1,
                kids[j].0@,
                full_id@,
                Some(handle),
                images@,
                fonts@,
            );
        }
        lemma_children_handles_frame(hs0, looped, fin, index as int, kids, kids.len());
        assert forall|i: int| 0 <= i < fin.len() implies #[trigger] theme_ok(fin, i) by {
            if i != index {
                assert(theme_ok(looped, i));
            } else {
                assert forall|j: int| 0 <= j < fin[i].children@.len() implies i < (#[trigger] fin[i].children@[j])@ < fin.len() by {
                    lemma_children_size_step(kids, j as nat);
                    lemma_children_size_mono(kids, (j + 1) as nat, kids.len());
                }
            }
        }
        reveal(created);
        assert(created(fin, index as int, d, idv, parent_full_id@, parent_handle, images@, fonts@));
        assert(fin.take(index as int) =~= old(themes)@) by {
            assert forall|i: int| 0 <= i < index implies fin.take(index as int)[i] == old(themes)@[i] by {
                assert(looped.take(index + 1)[i] == looped[i]);
                assert(pushed.take(index as int)[i] == pushed[i]);
            }
        }
    }
    set_entry(handles, full_id, handle);
    proof {
        lemma_with_entry_ok(hs_looped, full_id_copy, handle, themes@.len());
    }
    Ok(handle)
}

// ---------------------------------------------------------------------------
// Inheriting from another theme
// ---------------------------------------------------------------------------

/// The theme that a theme's `from` names: the theme whose full identifier is
/// `from`, or else the one whose full identifier is that of the theme's parent
/// followed by a slash and `from`.
pub open spec fn resolved_from<V, F, D>(
    ts: Seq<WidgetTheme<V, F, D>>,
    hs: Seq<(String, WidgetThemeHandle)>,
    from: Seq<char>,
    to: int,
) -> Option<WidgetThemeHandle> {
    match lookup(hs, from) {
        Some(h) => Some(h),
        None => match ts[to].parent_handle {
            Some(p) => lookup(hs, ts[p@ as int].full_id@ + seq!['/'] + from),
            None => None,
        },
    }
}

/// Finds the theme that the `from` of the theme `to` names (see `resolved_from`).
fn resolve_from<V, F, D>(
    themes: &Vec<WidgetTheme<V, F, D>>,
    handles: &Vec<(String, WidgetThemeHandle)>,
    from: &String,
    to: WidgetThemeHandle,
) -> (r: Option<WidgetThemeHandle>)
    requires
        themes_ok(themes@),
        to@ < themes@.len(),
    ensures
        r == resolved_from(themes@, handles@, from@, to@ as int),
{
    match find_key(handles, from.as_str()) {
        Some(i) => Some(handles[i].1),
        None => {
            let count = themes.len();
            proof {
                assert(theme_ok(themes@, to@ as int));
            }
            match themes[to.index()].parent_handle {
                Some(p) => {
                    let key = concat3(themes[p.index()].full_id.as_str(), "/", from.as_str());
                    proof {
                        reveal_strlit("/");
                        assert(key@ == themes@[p@ as int].full_id@ + seq!['/'] + from@);
                    }
                    match find_key(handles, key.as_str()) {
                        Some(i) => {
                            assert(lookup(handles@, key@) == Some(handles@[i as int].1));
                            Some(handles[i].1)
                        },
                        None => {
                            assert(lookup(handles@, key@) is None);
                            assert(lookup(handles@, from@) is None);
                            None
                        },
                    }
                },
                None => None,
            }
        },
    }
}

fn clone_text(s: &Option<String>) -> (r: Option<String>)
    ensures
        r == *s,
{
    match s {
        Some(t) => Some(t.clone()),
        None => None,
    }
}

fn copy_handles(v: &Vec<WidgetThemeHandle>) -> (r: Vec<WidgetThemeHandle>)
    ensures
        r@ == v@,
{
    let mut r: Vec<WidgetThemeHandle> = Vec::new();
    let mut i: usize = 0;
    while i < v.len()
        invariant
            i <= v@.len(),
            r@ == v@.take(i as int),
        decreases v@.len() - i,
    {
        r.push(v[i]);
        i = i + 1;
        proof {
            assert(r@ =~= v@.take(i as int));
        }
    }
    proof {
        assert(v@.take(v@.len() as int) =~= v@);
    }
    r
}

/// The keys of a list of custom data entries.
pub open spec fn keys_of<D>(entries: Seq<(String, D)>) -> Seq<Seq<char>> {
    entries.map_values(|e: (String, D)| e.0@)
}

/// Whether `copy` holds the same keys as `original`, each with a clone of its value.
pub open spec fn custom_copied<D: Clone>(copy: Seq<(String, D)>, original: Seq<(String, D)>) -> bool {
    &&& copy.len() == original.len()
    &&& forall|i: int|
        0 <= i < copy.len() ==> (#[trigger] copy[i]).0 == original[i].0 && cloned(original[i].1, copy[i].1)
}

fn clone_custom<D: Clone>(custom: &Vec<(String, D)>) -> (r: Vec<(String, D)>)
    ensures
        custom_copied(r@, custom@),
{
    let mut r: Vec<(String, D)> = Vec::new();
    let mut i: usize = 0;
    while i < custom.len()
        invariant
            i <= custom@.len(),
            r@.len() == i,
            forall|j: int|
                0 <= j < i ==> (#[trigger] r@[j]).0 == custom@[j].0 && cloned(custom@[j].1, r@[j].1),
        decreases custom@.len() - i,
    {
        let key = custom[i].0.clone();
        let value = custom[i].1.clone();
        r.push((key, value));
        i = i + 1;
    }
    r
}

/// The keys after merging the custom data of a theme with that of the theme it
/// comes from: the theme's own keys, then each key of the other theme that is not
/// already present, in order.
pub open spec fn merged_keys(own: Seq<Seq<char>>, from: Seq<Seq<char>>) -> Seq<Seq<char>>
    decreases from.len(),
{
    if from.len() == 0 {
        own
    } else {
        let before = merged_keys(own, from.drop_last());
        if before.contains(from.last()) {
            before
        } else {
            before.push(from.last())
        }
    }
}

/// The positions in `from` of the keys that merging appends to `own` (see
/// `merged_keys`), in order.
pub open spec fn merged_picks(own: Seq<Seq<char>>, from: Seq<Seq<char>>) -> Seq<int>
    decreases from.len(),
{
    if from.len() == 0 {
        Seq::empty()
    } else {
        let before = merged_picks(own, from.drop_last());
        if merged_keys(own, from.drop_last()).contains(from.last()) {
            before
        } else {
            before.push(from.len() - 1)
        }
    }
}

/// The origins of the custom data after merging: those of the theme's own
/// entries, then those of the entries taken from the other theme.
pub open spec fn merged_origins(
    own_keys: Seq<Seq<char>>,
    own_origins: Seq<(nat, nat)>,
    from_keys: Seq<Seq<char>>,
    from_origins: Seq<(nat, nat)>,
) -> Seq<(nat, nat)> {
    own_origins + merged_picks(own_keys, from_keys).map_values(|j: int| from_origins[j])
}

proof fn lemma_merged_picks(own: Seq<Seq<char>>, from: Seq<Seq<char>>)
    ensures
        merged_keys(own, from) == own + merged_picks(own, from).map_values(|j: int| from[j]),
        forall|t: int|
            0 <= t < merged_picks(own, from).len() ==> 0 <= #[trigger] merged_picks(own, from)[t] < from.len(),
    decreases from.len(),
{
    if from.len() > 0 {
        let f = from.drop_last();
        lemma_merged_picks(own, f);
        let p = merged_picks(own, f);
        assert(p.map_values(|j: int| f[j]) =~= p.map_values(|j: int| from[j]));
        if !merged_keys(own, f).contains(from.last()) {
            assert(p.push(from.len() - 1).map_values(|j: int| from[j]) =~= p.map_values(|j: int| from[j]).push(
                from.last(),
            ));
            assert((own + p.map_values(|j: int| from[j])).push(from.last()) =~= own + p.map_values(|j: int| from[j]).push(
                from.last(),
            ));
        }
    } else {
        assert(own + Seq::<Seq<char>>::empty() =~= own);
    }
}

fn has_key<D>(entries: &Vec<(String, D)>, key: &str) -> (r: bool)
    ensures
        r == keys_of(entries@).contains(key@),
{
    let mut i: usize = 0;
    while i < entries.len()
        invariant
            i <= entries@.len(),
            forall|j: int| 0 <= j < i ==> entries@[j].0@ != key@,
        decreases entries@.len() - i,
    {
        if str_eq(entries[i].0.as_str(), key) {
            proof {
                assert(keys_of(entries@)[i as int] == key@);
            }
            return true;
        }
        i = i + 1;
    }
    proof {
        assert forall|j: int| 0 <= j < keys_of(entries@).len() implies keys_of(entries@)[j] != key@ by {
            assert(entries@[j].0@ != key@);
        }
    }
    false
}

/// Adds to `own` a clone of each entry of `from` whose key `own` does not hold yet.
fn merge_custom<D: Clone>(own: &mut Vec<(String, D)>, from: &Vec<(String, D)>)
    ensures
        keys_of(final(own)@) == merged_keys(keys_of(old(own)@), keys_of(from@)),
        final(own)@.len() >= old(own)@.len(),
        final(own)@.take(old(own)@.len() as int) == old(own)@,
        forall|i: int|
            old(own)@.len() <= i < final(own)@.len() ==> exists|j: int|
                0 <= j < from@.len() && (#[trigger] final(own)@[i]).0 == from@[j].0 && cloned(
                    from@[j].1,
                    final(own)@[i].1,
                ),
        final(own)@.len() == old(own)@.len() + merged_picks(keys_of(old(own)@), keys_of(from@)).len(),
        forall|t: int|
            0 <= t < merged_picks(keys_of(old(own)@), keys_of(from@)).len() ==> {
                let j = #[trigger] merged_picks(keys_of(old(own)@), keys_of(from@))[t];
                &&& 0 <= j < from@.len()
                &&& final(own)@[old(own)@.len() + t].0 == from@[j].0
                &&& cloned(from@[j].1, final(own)@[old(own)@.len() + t].1)
            },
{
    let ghost start = own@;
    let mut i: usize = 0;
    while i < from.len()
        invariant
            i <= from@.len(),
            start == old(own)@,
            keys_of(own@) == merged_keys(keys_of(start), keys_of(from@).take(i as int)),
            own@.len() >= start.len(),
            own@.take(start.len() as int) == start,
            forall|k: int|
                start.len() <= k < own@.len() ==> exists|j: int|
                    0 <= j < from@.len() && (#[trigger] own@[k]).0 == from@[j].0 && cloned(from@[j].1, own@[k].1),
            own@.len() == start.len() + merged_picks(keys_of(start), keys_of(from@).take(i as int)).len(),
            forall|t: int|
                0 <= t < merged_picks(keys_of(start), keys_of(from@).take(i as int)).len() ==> {
                    let j = #[trigger] merged_picks(keys_of(start), keys_of(from@).take(i as int))[t];
                    &&& 0 <= j < i
                    &&& own@[start.len() + t].0 == from@[j].0
                    &&& cloned(from@[j].1, own@[start.len() + t].1)
                },
        decreases from@.len() - i,
    {
        let ghost before = own@;
        let ghost picks_before = merged_picks(keys_of(start), keys_of(from@).take(i as int));
        proof {
            assert(keys_of(from@).take(i + 1).drop_last() =~= keys_of(from@).take(i as int));
        }
        if !has_key(own, from[i].0.as_str()) {
            let key = from[i].0.clone();
            let value = from[i].1.clone();
            own.push((key, value));
            proof {
                assert(keys_of(own@) =~= keys_of(before).push(from@[i as int].0@));
                assert(own@.take(start.len() as int) =~= before.take(start.len() as int));
                assert forall|k: int|
                    start.len() <= k < own@.len() implies exists|j: int|
                        0 <= j < from@.len() && (#[trigger] own@[k]).0 == from@[j].0 && cloned(from@[j].1, own@[k].1) by {
                    if k < before.len() {
                        assert(own@[k] == before[k]);
                    } else {
                        assert(own@[k].0 == from@[i as int].0);
                    }
                }
                let picks = merged_picks(keys_of(start), keys_of(from@).take(i + 1));
                assert(picks == picks_before.push(i as int));
                assert forall|t: int| 0 <= t < picks.len() implies {
                    let j = #[trigger] picks[t];
                    &&& 0 <= j < i + 1
                    &&& own@[start.len() + t].0 == from@[j].0
                    &&& cloned(from@[j].1, own@[start.len() + t].1)
                } by {
                    if t < picks_before.len() {
                        assert(picks[t] == picks_before[t]);
                        assert(own@[start.len() + t] == before[start.len() + t]);
                    }
                }
            }
        } else {
            proof {
                assert(merged_picks(keys_of(start), keys_of(from@).take(i + 1)) == picks_before);
            }
        }
        i = i + 1;
    }
    proof {
        assert(keys_of(from@).take(from@.len() as int) =~= keys_of(from@));
    }
}

/// Whether `a` and `b` agree on everything but their full identifiers and children.
pub open spec fn same_but_placement<V, F, D>(a: WidgetTheme<V, F, D>, b: WidgetTheme<V, F, D>) -> bool {
    &&& a.from == b.from
    &&& a.id == b.id
    &&& a.parent_handle == b.parent_handle
    &&& a.handle == b.handle
    &&& a.text == b.text
    &&& a.font == b.font
    &&& a.background == b.background
    &&& a.foreground == b.foreground
    &&& a.tooltip == b.tooltip
    &&& a.style == b.style
    &&& a.custom == b.custom
    &&& a.origins == b.origins
}

/// Whether `copy` carries the identifier, the pending `from` and the settings of
/// `original`, with clones of its custom data.
pub open spec fn settings_copied<V, F, D: Clone>(copy: WidgetTheme<V, F, D>, original: WidgetTheme<V, F, D>) -> bool {
    &&& copy.from == original.from
    &&& copy.id == original.id
    &&& copy.text == original.text
    &&& copy.font == original.font
    &&& copy.background == original.background
    &&& copy.foreground == original.foreground
    &&& copy.tooltip == original.tooltip
    &&& copy.style == original.style
    &&& custom_copied(copy.custom@, original.custom@)
    &&& copy.origins == original.origins
}

/// Whether the style `a` sets everything that `b` sets, to the same.
pub open spec fn style_kept<V>(a: Style<V>, b: Style<V>) -> bool {
    &&& (b.text_color is Some ==> a.text_color == b.text_color)
    &&& (b.image_color is Some ==> a.image_color == b.image_color)
    &&& (b.wants_mouse is Some ==> a.wants_mouse == b.wants_mouse)
    &&& (b.wants_scroll is Some ==> a.wants_scroll == b.wants_scroll)
    &&& (b.text_align is Some ==> a.text_align == b.text_align)
    &&& (b.pos is Some ==> a.pos == b.pos)
    &&& (b.screen_pos is Some ==> a.screen_pos == b.screen_pos)
    &&& (b.width is Some ==> a.width == b.width)
    &&& (b.height is Some ==> a.height == b.height)
    &&& (b.width_from is Some ==> a.width_from == b.width_from)
    &&& (b.height_from is Some ==> a.height_from == b.height_from)
    &&& (b.border is Some ==> a.border == b.border)
    &&& (b.align is Some ==> a.align == b.align)
    &&& (b.child_align is Some ==> a.child_align == b.child_align)
    &&& (b.layout is Some ==> a.layout == b.layout)
    &&& (b.layout_spacing is Some ==> a.layout_spacing == b.layout_spacing)
}

/// Whether the theme `a` is the theme `b`, with at most more set: the same
/// identifier, handle and parent, every setting, text, tooltip, font and image
/// that `b` sets, and `b`'s custom data entries first.
pub open spec fn keeps_settings<V, F, D>(a: WidgetTheme<V, F, D>, b: WidgetTheme<V, F, D>) -> bool {
    &&& a.id == b.id
    &&& a.handle == b.handle
    &&& a.parent_handle == b.parent_handle
    &&& style_kept(a.style, b.style)
    &&& (b.text is Some ==> a.text == b.text)
    &&& (b.tooltip is Some ==> a.tooltip == b.tooltip)
    &&& (b.font is Some ==> a.font == b.font)
    &&& (b.background is Some ==> a.background == b.background)
    &&& (b.foreground is Some ==> a.foreground == b.foreground)
    &&& a.custom@.len() >= b.custom@.len()
    &&& a.custom@.take(b.custom@.len() as int) == b.custom@
}

/// Whether every theme of `before` keeps its settings in `after` (see
/// `keeps_settings`).
pub open spec fn settings_kept<V, F, D>(after: Seq<WidgetTheme<V, F, D>>, before: Seq<WidgetTheme<V, F, D>>) -> bool {
    &&& after.len() >= before.len()
    &&& forall|i: int| 0 <= i < before.len() ==> keeps_settings(#[trigger] after[i], before[i])
}

proof fn lemma_keeps_same<V, F, D>(a: WidgetTheme<V, F, D>, b: WidgetTheme<V, F, D>)
    requires
        same_but_placement(a, b),
    ensures
        keeps_settings(a, b),
{
    assert(a.custom@.take(b.custom@.len() as int) =~= b.custom@);
}

proof fn lemma_keeps_trans<V, F, D>(a: WidgetTheme<V, F, D>, b: WidgetTheme<V, F, D>, c: WidgetTheme<V, F, D>)
    requires
        keeps_settings(a, b),
        keeps_settings(b, c),
    ensures
        keeps_settings(a, c),
{
    let n = c.custom@.len() as int;
    assert(a.custom@.take(n) =~= a.custom@.take(b.custom@.len() as int).take(n));
}

proof fn lemma_settings_kept_trans<V, F, D>(
    x: Seq<WidgetTheme<V, F, D>>,
    y: Seq<WidgetTheme<V, F, D>>,
    z: Seq<WidgetTheme<V, F, D>>,
)
    requires
        settings_kept(x, y),
        settings_kept(y, z),
    ensures
        settings_kept(x, z),
{
    assert forall|i: int| 0 <= i < z.len() implies keeps_settings(#[trigger] x[i], z[i]) by {
        lemma_keeps_trans(x[i], y[i], z[i]);
    }
}

proof fn lemma_settings_kept_same<V, F, D>(after: Seq<WidgetTheme<V, F, D>>, before: Seq<WidgetTheme<V, F, D>>)
    requires
        after.len() >= before.len(),
        forall|i: int| 0 <= i < before.len() ==> same_but_placement(after[i], before[i]),
    ensures
        settings_kept(after, before),
{
    assert forall|i: int| 0 <= i < before.len() implies keeps_settings(#[trigger] after[i], before[i]) by {
        lemma_keeps_same(after[i], before[i]);
    }
}

// ---------------------------------------------------------------------------
// Theme trees: the themes and the handle table as mathematical values
// ---------------------------------------------------------------------------

/// A theme as a mathematical value: what resolving `from` references reads and
/// changes.  Its position in the list is its handle; custom data is taken by its
/// keys.
pub struct ThemeNode<V, F> {
    pub from: Option<Seq<char>>,
    pub id: Seq<char>,
    pub full_id: Seq<char>,
    pub parent: Option<nat>,
    pub text: Option<Seq<char>>,
    pub tooltip: Option<Seq<char>>,
    pub font: Option<F>,
    pub background: Option<ImageHandle>,
    pub foreground: Option<ImageHandle>,
    pub style: Style<V>,
    pub custom_keys: Seq<Seq<char>>,
    pub custom_origins: Seq<(nat, nat)>,
    pub children: Seq<nat>,
}

/// The list of themes and the table from full identifiers to positions.
pub struct ThemeTree<V, F> {
    pub nodes: Seq<ThemeNode<V, F>>,
    pub table: Seq<(Seq<char>, nat)>,
}

/// A piece of text, if any, by its characters.
pub open spec fn opt_chars(s: Option<String>) -> Option<Seq<char>> {
    match s {
        Some(s) => Some(s@),
        None => None,
    }
}

/// A theme as a mathematical value.
pub open spec fn node_of<V, F, D>(t: WidgetTheme<V, F, D>) -> ThemeNode<V, F> {
    ThemeNode {
        from: opt_chars(t.from),
        id: t.id@,
        full_id: t.full_id@,
        parent: match t.parent_handle {
            Some(p) => Some(p@),
            None => None,
        },
        text: opt_chars(t.text),
        tooltip: opt_chars(t.tooltip),
        font: t.font,
        background: t.background,
        foreground: t.foreground,
        style: t.style,
        custom_keys: keys_of(t.custom@),
        custom_origins: t.origins@,
        children: t.children@.map_values(|h: WidgetThemeHandle| h@),
    }
}

/// The handle table as a mathematical value.
pub open spec fn table_of(hs: Seq<(String, WidgetThemeHandle)>) -> Seq<(Seq<char>, nat)> {
    hs.map_values(|e: (String, WidgetThemeHandle)| (e.0@, e.1@))
}

/// The themes and the handle table as a mathematical value.
pub open spec fn tree_of<V, F, D>(ts: Seq<WidgetTheme<V, F, D>>, hs: Seq<(String, WidgetThemeHandle)>) -> ThemeTree<V, F> {
    ThemeTree { nodes: ts.map_values(|t: WidgetTheme<V, F, D>| node_of(t)), table: table_of(hs) }
}

/// The theme `own` after inheriting from `from`: it takes `from`'s pending
/// `from`, every setting, text, font and image that it leaves unset, and the keys
/// of `from`'s custom data that it lacks.
pub open spec fn inherit_node<V, F>(own: ThemeNode<V, F>, from: ThemeNode<V, F>) -> ThemeNode<V, F> {
    ThemeNode {
        from: from.from,
        text: either(own.text, from.text),
        tooltip: either(own.tooltip, from.tooltip),
        font: either(own.font, from.font),
        background: either(own.background, from.background),
        foreground: either(own.foreground, from.foreground),
        style: own.style.inherited(from.style),
        custom_keys: merged_keys(own.custom_keys, from.custom_keys),
        custom_origins: merged_origins(own.custom_keys, own.custom_origins, from.custom_keys, from.custom_origins),
        ..own
    }
}

/// The first of `candidates` whose theme has the identifier `id`.
pub open spec fn first_with_id<V, F>(nodes: Seq<ThemeNode<V, F>>, candidates: Seq<nat>, id: Seq<char>) -> Option<nat>
    decreases candidates.len(),
{
    if candidates.len() == 0 {
        None
    } else if nodes[candidates[0] as int].id == id {
        Some(candidates[0])
    } else {
        first_with_id(nodes, candidates.drop_first(), id)
    }
}

/// The tree after setting the full identifier of the theme at `i`.
pub open spec fn with_full_id<V, F>(tree: ThemeTree<V, F>, i: nat, full_id: Seq<char>) -> ThemeTree<V, F> {
    ThemeTree { nodes: tree.nodes.update(i as int, ThemeNode { full_id, ..tree.nodes[i as int] }), ..tree }
}

/// The tree after setting the pending `from` of the theme at `i`.
pub open spec fn with_from<V, F>(tree: ThemeTree<V, F>, i: nat, from: Option<Seq<char>>) -> ThemeTree<V, F> {
    ThemeTree { nodes: tree.nodes.update(i as int, ThemeNode { from, ..tree.nodes[i as int] }), ..tree }
}

/// Adds under the theme `to` a copy of the theme `src` and of its descendants
/// before `limit`: the copy goes at the end, keeps the settings of `src`, gets the
/// full identifier of `to` followed by a slash and its identifier, is entered in
/// the table under it and becomes `to`'s last child.  Each child of `src` first
/// takes, in place, the copy's full identifier followed by a slash and its own
/// identifier, and is then copied under the copy.
pub open spec fn copy_under<V, F>(tree: ThemeTree<V, F>, src: nat, to: nat, limit: nat) -> ThemeTree<V, F>
    decreases limit - src, 1nat, 0nat,
{
    let n = tree.nodes.len();
    let s = tree.nodes[src as int];
    let full = tree.nodes[to as int].full_id + seq!['/'] + s.id;
    let copy = ThemeNode { full_id: full, parent: Some(to), children: Seq::empty(), ..s };
    let nodes = tree.nodes.update(
        to as int,
        ThemeNode { children: tree.nodes[to as int].children.push(n), ..tree.nodes[to as int] },
    ).push(copy);
    let rooted = ThemeTree { nodes, table: keyed_set(tree.table, full, n) };
    copy_children(rooted, s.children, src, n, full, limit, s.children.len())
}

/// Copies the first `k` of `kids`, children of `src`, under the copy at `copy`
/// whose full identifier is `full` (see `copy_under`).
pub open spec fn copy_children<V, F>(
    tree: ThemeTree<V, F>,
    kids: Seq<nat>,
    src: nat,
    copy: nat,
    full: Seq<char>,
    limit: nat,
    k: nat,
) -> ThemeTree<V, F>
    decreases limit - src, 0nat, k,
{
    if k == 0 || k > kids.len() {
        tree
    } else {
        let t = copy_children(tree, kids, src, copy, full, limit, (k - 1) as nat);
        let c = kids[k - 1];
        if src < c && c < limit {
            let renamed = with_full_id(t, c, full + seq!['/'] + t.nodes[c as int].id);
            copy_under(renamed, c, copy, limit)
        } else {
            t
        }
    }
}

/// Makes the theme `to` inherit from the theme `from` (see `inherit_node`); then
/// each child of `to` before `limit` inherits in turn from the first child of
/// `from` with its identifier, and each child of `from` with an identifier that
/// no child of `to` has is copied under `to` (see `copy_under`).
pub open spec fn merge_tree<V, F>(tree: ThemeTree<V, F>, from: nat, to: nat, limit: nat) -> ThemeTree<V, F>
    decreases limit - to, 1nat, 0nat,
{
    let own = tree.nodes[to as int];
    let other = tree.nodes[from as int];
    let inherited = ThemeTree { nodes: tree.nodes.update(to as int, inherit_node(own, other)), ..tree };
    let merged = merge_children(inherited, own.children, other.children, to, limit, own.children.len());
    copy_missing(merged, own.children, other.children, to, other.children.len())
}

/// Lets the first `j` of `kids`, children of `to`, inherit from the first of
/// `others` with the same identifier (see `merge_tree`).
pub open spec fn merge_children<V, F>(
    tree: ThemeTree<V, F>,
    kids: Seq<nat>,
    others: Seq<nat>,
    to: nat,
    limit: nat,
    j: nat,
) -> ThemeTree<V, F>
    decreases limit - to, 0nat, j,
{
    if j == 0 || j > kids.len() {
        tree
    } else {
        let t = merge_children(tree, kids, others, to, limit, (j - 1) as nat);
        let c = kids[j - 1];
        match first_with_id(t.nodes, others, t.nodes[c as int].id) {
            Some(fc) => if to < c && c < limit {
                merge_tree(t, fc, c, limit)
            } else {
                t
            },
            None => t,
        }
    }
}

/// Copies under `to` each of the first `k` of `others` whose identifier no theme
/// of `kids` has (see `copy_under`).
pub open spec fn copy_missing<V, F>(tree: ThemeTree<V, F>, kids: Seq<nat>, others: Seq<nat>, to: nat, k: nat) -> ThemeTree<V, F>
    decreases k,
{
    if k == 0 || k > others.len() {
        tree
    } else {
        let t = copy_missing(tree, kids, others, to, (k - 1) as nat);
        let fc = others[k - 1];
        match first_with_id(t.nodes, kids, t.nodes[fc as int].id) {
            Some(_) => t,
            None => copy_under(t, fc, to, t.nodes.len()),
        }
    }
}

proof fn lemma_table_position(hs: Seq<(String, WidgetThemeHandle)>, key: Seq<char>)
    ensures
        key_position(hs, key) == keyed_position(table_of(hs), key),
{
    let tb = table_of(hs);
    assert forall|i: int| 0 <= i < hs.len() implies (is_first_key(hs, key, i) <==> first_keyed(tb, key, i)) by {
        if is_first_key(hs, key, i) {
            assert forall|j: int| 0 <= j < i implies tb[j].0 != key by {
                assert(hs[j].0@ != key);
            }
        }
        if first_keyed(tb, key, i) {
            assert forall|j: int| 0 <= j < i implies hs[j].0@ != key by {
                assert(tb[j].0 != key);
            }
        }
    }
    if exists|i: int| 0 <= i < hs.len() && is_first_key(hs, key, i) {
        let a = choose|i: int| 0 <= i < hs.len() && is_first_key(hs, key, i);
        assert(first_keyed(tb, key, a));
        let b = choose|i: int| first_keyed(tb, key, i);
        assert(is_first_key(hs, key, b));
        lemma_first_key_unique(hs, key, a, b);
    } else {
        if exists|i: int| first_keyed(tb, key, i) {
            let b = choose|i: int| first_keyed(tb, key, i);
            assert(is_first_key(hs, key, b));
        }
    }
}

/// Looking a key up in the handle table agrees with looking it up in its value.
proof fn lemma_table_lookup(hs: Seq<(String, WidgetThemeHandle)>, key: Seq<char>)
    ensures
        keyed_value(table_of(hs), key) == (match lookup(hs, key) {
            Some(h) => Some(h@),
            None => None,
        }),
{
    lemma_table_position(hs, key);
}

/// Setting an entry of the handle table sets it in its value.
proof fn lemma_table_with_entry(hs: Seq<(String, WidgetThemeHandle)>, key: String, value: WidgetThemeHandle)
    ensures
        table_of(with_entry(hs, key, value)) == keyed_set(table_of(hs), key@, value@),
{
    lemma_table_position(hs, key@);
    lemma_keyed_position(table_of(hs), key@);
    if let Some(i) = key_position(hs, key@) {
        assert(hs[i].0@ == key@);
    }
    assert(table_of(with_entry(hs, key, value)) =~= keyed_set(table_of(hs), key@, value@));
}

/// Adds under the theme `to_id` a copy of the theme `from_id` and of its
/// descendants, each copy entered in `handles` under its full identifier (that of
/// its new parent, a slash and its identifier).  Each child of a copied theme gets
/// that same full identifier before it is copied.  Only themes before `limit`,
/// which were all there before the copying started, are copied.
fn add_children_recursive<V: Copy, F: Copy, D: Clone>(
    from_id: WidgetThemeHandle,
    to_id: WidgetThemeHandle,
    themes: &mut Vec<WidgetTheme<V, F, D>>,
    handles: &mut Vec<(String, WidgetThemeHandle)>,
    limit: usize,
    made: Ghost<Seq<WidgetTheme<V, F, D>>>,
)
    requires
        themes_ok(old(themes)@),
        handles_ok(old(handles)@, old(themes)@.len()),
        from_id@ < limit <= old(themes)@.len(),
        to_id@ < old(themes)@.len(),
        values_traced(old(themes)@, made@),
    ensures
        themes_ok(final(themes)@),
        handles_ok(final(handles)@, final(themes)@.len()),
        final(themes)@.len() > old(themes)@.len(),
        settings_copied(final(themes)@[old(themes)@.len() as int], old(themes)@[from_id@ as int]),
        final(themes)@[old(themes)@.len() as int].parent_handle == Some(to_id),
        final(themes)@[old(themes)@.len() as int].full_id@ == old(themes)@[to_id@ as int].full_id@ + seq!['/']
            + old(themes)@[from_id@ as int].id@,
        final(themes)@[to_id@ as int].children@ == old(themes)@[to_id@ as int].children@.push(
            final(themes)@[old(themes)@.len() as int].handle,
        ),
        forall|i: int| 0 <= i < old(themes)@.len() ==> same_but_placement(final(themes)@[i], old(themes)@[i]),
        forall|i: int|
            0 <= i < old(themes)@.len() && i != to_id@ ==> final(themes)@[i].children == old(themes)@[i].children,
        forall|i: int| limit <= i < old(themes)@.len() ==> final(themes)@[i].full_id == old(themes)@[i].full_id,
        values_traced(final(themes)@, made@),
        tree_of(final(themes)@, final(handles)@) == copy_under(
            tree_of(old(themes)@, old(handles)@),
            from_id@,
            to_id@,
            limit as nat,
        ),
    decreases limit - from_id@,
{
    let ghost t0 = tree_of(old(themes)@, old(handles)@);
    let count = themes.len();
    let to_index = to_id.index();
    let from_index = from_id.index();
    proof {
        assert(theme_ok(old(themes)@, from_index as int));
        assert(theme_ok(old(themes)@, to_index as int));
        reveal_strlit("/");
    }
    let from_children = copy_handles(&themes[from_index].children);
    let full_id = concat3(themes[to_index].full_id.as_str(), "/", themes[from_index].id.as_str());
    let handle = WidgetThemeHandle::at(count);
    let copy = WidgetTheme {
        from: clone_text(&themes[from_index].from),
        full_id: full_id.clone(),
        id: themes[from_index].id.clone(),
        parent_handle: Some(to_id),
        handle,
        text: clone_text(&themes[from_index].text),
        font: themes[from_index].font,
        background: themes[from_index].background,
        foreground: themes[from_index].foreground,
        tooltip: clone_text(&themes[from_index].tooltip),
        style: themes[from_index].style,
        children: Vec::new(),
        custom: clone_custom(&themes[from_index].custom),
        origins: Ghost(themes@[from_index as int].origins@),
    };
    let mut to_children = copy_handles(&themes[to_index].children);
    to_children.push(handle);
    themes[to_index].children = to_children;
    themes.push(copy);
    let ghost after_root = themes@;
    proof {
        let src = old(themes)@[from_id@ as int];
        assert forall|i: int| 0 <= i < after_root.len() implies (#[trigger] after_root[i]).origins@.len()
            == after_root[i].custom@.len() by {
            if i < count {
                assert(after_root[i].custom == old(themes)@[i].custom);
                assert(after_root[i].origins == old(themes)@[i].origins);
            } else {
                assert(src.origins@.len() == src.custom@.len());
            }
        }
        assert forall|i: int, k: int|
            0 <= i < after_root.len() && 0 <= k < after_root[i].custom@.len() implies #[trigger] origin_traced(
            after_root[i],
            k,
            made@,
        ) by {
            if i < count {
                assert(after_root[i].custom == old(themes)@[i].custom);
                assert(after_root[i].origins == old(themes)@[i].origins);
                assert(origin_traced(old(themes)@[i], k, made@));
            } else {
                assert(origin_traced(src, k, made@));
                lemma_origin_cloned(after_root[i], k, src, k, made@);
            }
        }
    }
    proof {
        assert forall|i: int| 0 <= i < after_root.len() implies #[trigger] theme_ok(after_root, i) by {
            if i < count && i != to_index {
                assert(theme_ok(old(themes)@, i));
                assert(after_root[i] == old(themes)@[i]);
            } else if i == to_index {
                assert(theme_ok(old(themes)@, i));
                assert forall|k: int| 0 <= k < after_root[i].children@.len() implies i < (#[trigger] after_root[i].children@[k])@ < after_root.len() by {
                    if k < old(themes)@[i].children@.len() {
                        assert(after_root[i].children@[k] == old(themes)@[i].children@[k]);
                    }
                }
            }
        }
    }
    set_entry(handles, full_id.clone(), handle);
    let ghost kids = t0.nodes[from_id@ as int].children;
    let ghost rooted = {
        let n = t0.nodes.len();
        let s = t0.nodes[from_id@ as int];
        let full = t0.nodes[to_id@ as int].full_id + seq!['/'] + s.id;
        let copy = ThemeNode { full_id: full, parent: Some(to_id@), children: Seq::empty(), ..s };
        let nodes = t0.nodes.update(
            to_id@ as int,
            ThemeNode { children: t0.nodes[to_id@ as int].children.push(n), ..t0.nodes[to_id@ as int] },
        ).push(copy);
        ThemeTree { nodes, table: keyed_set(t0.table, full, n) }
    };
    proof {
        lemma_handles_ok_grow(old(handles)@, count as nat, themes@.len());
        lemma_with_entry_ok(old(handles)@, full_id, handle, themes@.len());
        lemma_table_with_entry(old(handles)@, full_id, handle);
        let now = tree_of(themes@, handles@);
        let c = themes@[count as int];
        let s = old(themes)@[from_id@ as int];
        assert(keys_of(c.custom@) =~= keys_of(s.custom@));
        assert(c.children@.map_values(|h: WidgetThemeHandle| h@) =~= Seq::<nat>::empty());
        assert(c.full_id@ == old(themes)@[to_id@ as int].full_id@ + seq!['/'] + s.id@);
        assert(now.nodes[count as int] == rooted.nodes[count as int]);
        assert(themes@[to_id@ as int].children@.map_values(|h: WidgetThemeHandle| h@) =~= old(themes)@[to_id@ as int].children@.map_values(|h: WidgetThemeHandle| h@).push(count as nat));
        assert(now.nodes[to_id@ as int] == rooted.nodes[to_id@ as int]);
        assert(now.nodes =~= rooted.nodes);
        assert(kids =~= from_children@.map_values(|h: WidgetThemeHandle| h@));
    }
    let mut i: usize = 0;
    while i < from_children.len()
        invariant
            count == old(themes)@.len(),
            to_index == to_id@,
            from_index == from_id@,
            handle@ == count,
            from_id@ < limit <= count,
            to_id@ < count,
            after_root.len() == count + 1,
            full_id@ == old(themes)@[to_id@ as int].full_id@ + seq!['/'] + old(themes)@[from_id@ as int].id@,
            from_children@ == old(themes)@[from_id@ as int].children@,
            forall|k: int| 0 <= k < from_children@.len() ==> from_id@ < (#[trigger] from_children@[k])@ < count,
            i <= from_children@.len(),
            themes_ok(themes@),
            handles_ok(handles@, themes@.len()),
            themes@.len() > count,
            same_but_placement(themes@[count as int], after_root[count as int]),
            themes@[count as int].full_id == after_root[count as int].full_id,
            themes@[to_id@ as int].children == after_root[to_id@ as int].children,
            forall|j: int| 0 <= j < count ==> same_but_placement(themes@[j], old(themes)@[j]),
            forall|j: int| 0 <= j < count && j != to_id@ ==> themes@[j].children == old(themes)@[j].children,
            forall|j: int| limit <= j < count ==> themes@[j].full_id == old(themes)@[j].full_id,
            values_traced(themes@, made@),
            kids == from_children@.map_values(|h: WidgetThemeHandle| h@),
            tree_of(themes@, handles@) == copy_children(
                rooted,
                kids,
                from_id@,
                count as nat,
                full_id@,
                limit as nat,
                i as nat,
            ),
        decreases from_children@.len() - i,
    {
        let child = from_children[i];
        let ghost t_before = tree_of(themes@, handles@);
        proof {
            assert(kids[i as int] == child@);
        }
        if child.index() < limit {
            let child_index = child.index();
            let child_full_id = concat3(full_id.as_str(), "/", themes[child_index].id.as_str());
            let ghost before = themes@;
            themes[child_index].full_id = child_full_id;
            proof {
                let now = themes@;
                assert forall|j: int| 0 <= j < now.len() implies #[trigger] theme_ok(now, j) by {
                    assert(theme_ok(before, j));
                }
                reveal_strlit("/");
                let renamed = with_full_id(t_before, child@, full_id@ + seq!['/'] + t_before.nodes[child@ as int].id);
                assert(child_full_id@ == full_id@ + seq!['/'] + t_before.nodes[child@ as int].id);
                assert(tree_of(now, handles@).nodes =~= renamed.nodes);
                assert forall|j: int| 0 <= j < now.len() implies (#[trigger] now[j]).custom == before[j].custom
                    && now[j].origins == before[j].origins by {
                    if j != child_index {
                        assert(now[j] == before[j]);
                    }
                }
                lemma_values_same(now, before, made@);
            }
            add_children_recursive(child, handle, themes, handles, limit, made);
        }
        i = i + 1;
    }
}

proof fn lemma_merged_keys_present(own: Seq<Seq<char>>, from: Seq<Seq<char>>)
    requires
        forall|i: int| 0 <= i < from.len() ==> own.contains(#[trigger] from[i]),
    ensures
        merged_keys(own, from) == own,
        merged_picks(own, from) == Seq::<int>::empty(),
    decreases from.len(),
{
    if from.len() > 0 {
        lemma_merged_keys_present(own, from.drop_last());
        assert(own.contains(from[from.len() - 1]));
    }
}

/// Whether `t` is the theme `own` after inheriting from `from`: it takes `from`'s
/// pending `from`, and every setting, text, font, image and custom data entry that
/// it leaves unset is taken from `from`.
pub open spec fn merged_theme<V, F, D: Clone>(
    t: WidgetTheme<V, F, D>,
    own: WidgetTheme<V, F, D>,
    from: WidgetTheme<V, F, D>,
) -> bool {
    &&& t.from == from.from
    &&& t.id == own.id
    &&& t.parent_handle == own.parent_handle
    &&& t.handle == own.handle
    &&& t.style == own.style.inherited(from.style)
    &&& t.text == either(own.text, from.text)
    &&& t.tooltip == either(own.tooltip, from.tooltip)
    &&& t.font == either(own.font, from.font)
    &&& t.background == either(own.background, from.background)
    &&& t.foreground == either(own.foreground, from.foreground)
    &&& keys_of(t.custom@) == merged_keys(keys_of(own.custom@), keys_of(from.custom@))
    &&& t.custom@.len() >= own.custom@.len()
    &&& t.custom@.take(own.custom@.len() as int) == own.custom@
    &&& t.origins@ == merged_origins(keys_of(own.custom@), own.origins@, keys_of(from.custom@), from.origins@)
    &&& forall|i: int|
        own.custom@.len() <= i < t.custom@.len() ==> exists|j: int|
            0 <= j < from.custom@.len() && (#[trigger] t.custom@[i]).0 == from.custom@[j].0 && cloned(
                from.custom@[j].1,
                t.custom@[i].1,
            )
}

proof fn lemma_merged_keeps<V, F, D: Clone>(t: WidgetTheme<V, F, D>, own: WidgetTheme<V, F, D>, from: WidgetTheme<V, F, D>)
    requires
        merged_theme(t, own, from),
    ensures
        keeps_settings(t, own),
{
}

/// Whether `d` is `origin` itself (when `n` is zero), or a clone of a value that
/// `n - 1` clones in a row made from `origin`.
pub open spec fn clone_chain<D: Clone>(origin: D, d: D, n: nat) -> bool
    decreases n,
{
    if n == 0 {
        d == origin
    } else {
        exists|m: D| clone_chain(origin, m, (n - 1) as nat) && #[trigger] cloned(m, d)
    }
}

/// Whether every custom data entry of the themes `made` has the origin of an entry
/// as it is made: its own theme and position (see `initial_origins`).
pub open spec fn origins_initial<V, F, D>(made: Seq<WidgetTheme<V, F, D>>) -> bool {
    forall|i: int| 0 <= i < made.len() ==> (#[trigger] made[i]).origins@ == initial_origins(i as nat, made[i].custom@.len())
}

/// Whether the custom data entry `k` of the theme `t` is, under the same key, a
/// clone chain of the entry of the themes `made` that its origin names.
pub open spec fn origin_traced<V, F, D: Clone>(t: WidgetTheme<V, F, D>, k: int, made: Seq<WidgetTheme<V, F, D>>) -> bool {
    let o = t.origins@[k];
    &&& o.0 < made.len()
    &&& o.1 < made[o.0 as int].custom@.len()
    &&& made[o.0 as int].custom@[o.1 as int].0 == t.custom@[k].0
    &&& exists|n: nat| clone_chain(made[o.0 as int].custom@[o.1 as int].1, t.custom@[k].1, n)
}

/// Whether every custom data entry of the themes `ts` has an origin, and is, under
/// the same key, a clone chain of the entry of the themes `made` that it names.
pub open spec fn values_traced<V, F, D: Clone>(ts: Seq<WidgetTheme<V, F, D>>, made: Seq<WidgetTheme<V, F, D>>) -> bool {
    &&& forall|i: int| 0 <= i < ts.len() ==> (#[trigger] ts[i]).origins@.len() == ts[i].custom@.len()
    &&& forall|i: int, k: int|
        0 <= i < ts.len() && 0 <= k < ts[i].custom@.len() ==> #[trigger] origin_traced(ts[i], k, made)
}

proof fn lemma_chain_step<D: Clone>(origin: D, m: D, d: D, n: nat)
    requires
        clone_chain(origin, m, n),
        cloned(m, d),
    ensures
        clone_chain(origin, d, n + 1),
{
    assert(clone_chain(origin, m, ((n + 1) - 1) as nat));
}

proof fn lemma_origin_cloned<V, F, D: Clone>(
    t: WidgetTheme<V, F, D>,
    k: int,
    u: WidgetTheme<V, F, D>,
    j: int,
    made: Seq<WidgetTheme<V, F, D>>,
)
    requires
        origin_traced(u, j, made),
        t.origins@[k] == u.origins@[j],
        t.custom@[k].0 == u.custom@[j].0,
        cloned(u.custom@[j].1, t.custom@[k].1),
    ensures
        origin_traced(t, k, made),
{
    let o = u.origins@[j];
    let v = made[o.0 as int].custom@[o.1 as int].1;
    let n = choose|n: nat| clone_chain(v, u.custom@[j].1, n);
    lemma_chain_step(v, u.custom@[j].1, t.custom@[k].1, n);
}

/// The themes `now` hold the custom data and its origins of the themes `before`,
/// theme by theme.
proof fn lemma_values_same<V, F, D: Clone>(
    now: Seq<WidgetTheme<V, F, D>>,
    before: Seq<WidgetTheme<V, F, D>>,
    made: Seq<WidgetTheme<V, F, D>>,
)
    requires
        values_traced(before, made),
        now.len() == before.len(),
        forall|j: int|
            0 <= j < now.len() ==> (#[trigger] now[j]).custom == before[j].custom && now[j].origins == before[j].origins,
    ensures
        values_traced(now, made),
{
    assert forall|i: int| 0 <= i < now.len() implies (#[trigger] now[i]).origins@.len() == now[i].custom@.len() by {
        assert(now[i].custom == before[i].custom && now[i].origins == before[i].origins);
    }
    assert forall|i: int, k: int| 0 <= i < now.len() && 0 <= k < now[i].custom@.len() implies #[trigger] origin_traced(
        now[i],
        k,
        made,
    ) by {
        assert(now[i].custom == before[i].custom && now[i].origins == before[i].origins);
        assert(origin_traced(before[i], k, made));
    }
}

proof fn lemma_values_initial<V, F, D: Clone>(made: Seq<WidgetTheme<V, F, D>>)
    requires
        origins_initial(made),
    ensures
        values_traced(made, made),
{
    assert forall|i: int| 0 <= i < made.len() implies (#[trigger] made[i]).origins@.len() == made[i].custom@.len() by {
        assert(made[i].origins@ == initial_origins(i as nat, made[i].custom@.len()));
    }
    assert forall|i: int, k: int| 0 <= i < made.len() && 0 <= k < made[i].custom@.len() implies #[trigger] origin_traced(
        made[i],
        k,
        made,
    ) by {
        assert(made[i].origins@ == initial_origins(i as nat, made[i].custom@.len()));
        assert(made[i].origins@[k] == (i as nat, k as nat));
        assert(clone_chain(made[i].custom@[k].1, made[i].custom@[k].1, 0));
    }
}

/// Whether every theme of `before` kept its identifier, handle and parent in `after`.
pub open spec fn identities_kept<V, F, D>(after: Seq<WidgetTheme<V, F, D>>, before: Seq<WidgetTheme<V, F, D>>) -> bool {
    &&& after.len() >= before.len()
    &&& forall|i: int|
        0 <= i < before.len() ==> {
            &&& (#[trigger] after[i]).id == before[i].id
            &&& after[i].handle == before[i].handle
            &&& after[i].parent_handle == before[i].parent_handle
        }
}

/// Whether some child of the theme at `parent` has the identifier `id`.
pub open spec fn has_child_named<V, F, D>(ts: Seq<WidgetTheme<V, F, D>>, parent: int, id: Seq<char>) -> bool {
    exists|j: int|
        0 <= j < ts[parent].children@.len() && ts[(#[trigger] ts[parent].children@[j])@ as int].id@ == id
}

/// Finds the first theme among `candidates` whose identifier is that of `theme`.
fn find_same_id<V, F, D>(
    themes: &Vec<WidgetTheme<V, F, D>>,
    candidates: &Vec<WidgetThemeHandle>,
    theme: WidgetThemeHandle,
) -> (r: Option<WidgetThemeHandle>)
    requires
        theme@ < themes@.len(),
        forall|k: int| 0 <= k < candidates@.len() ==> (#[trigger] candidates@[k])@ < themes@.len(),
    ensures
        match r {
            Some(c) => exists|k: int|
                0 <= k < candidates@.len() && candidates@[k] == c && themes@[c@ as int].id@ == themes@[theme@ as int].id@,
            None => forall|k: int|
                0 <= k < candidates@.len() ==> themes@[(#[trigger] candidates@[k])@ as int].id@ != themes@[theme@ as int].id@,
        },
        first_with_id(
            themes@.map_values(|t: WidgetTheme<V, F, D>| node_of(t)),
            candidates@.map_values(|h: WidgetThemeHandle| h@),
            themes@[theme@ as int].id@,
        ) == (match r {
            Some(c) => Some(c@),
            None => None,
        }),
{
    let count = themes.len();
    let ghost nodes = themes@.map_values(|t: WidgetTheme<V, F, D>| node_of(t));
    let ghost cands = candidates@.map_values(|h: WidgetThemeHandle| h@);
    let ghost id = themes@[theme@ as int].id@;
    let mut k: usize = 0;
    proof {
        assert(cands.subrange(0, cands.len() as int) =~= cands);
    }
    while k < candidates.len()
        invariant
            count == themes@.len(),
            theme@ < count,
            nodes == themes@.map_values(|t: WidgetTheme<V, F, D>| node_of(t)),
            cands == candidates@.map_values(|h: WidgetThemeHandle| h@),
            id == themes@[theme@ as int].id@,
            forall|j: int| 0 <= j < candidates@.len() ==> (#[trigger] candidates@[j])@ < count,
            k <= candidates@.len(),
            forall|j: int|
                0 <= j < k ==> themes@[(#[trigger] candidates@[j])@ as int].id@ != themes@[theme@ as int].id@,
            first_with_id(nodes, cands, id) == first_with_id(nodes, cands.subrange(k as int, cands.len() as int), id),
        decreases candidates@.len() - k,
    {
        let c = candidates[k];
        proof {
            let rest = cands.subrange(k as int, cands.len() as int);
            assert(rest[0] == c@);
            assert(nodes[c@ as int].id == themes@[c@ as int].id@);
            assert(rest.drop_first() =~= cands.subrange(k + 1, cands.len() as int));
        }
        if str_eq(themes[c.index()].id.as_str(), themes[theme.index()].id.as_str()) {
            return Some(c);
        }
        k = k + 1;
    }
    None
}

/// Makes the theme `to_id` inherit from the theme `from_id`: it takes the other
/// theme's pending `from` and every setting it leaves unset, each of its children
/// inherits from the other theme's child of the same identifier, and it gets a copy
/// of each of the other theme's children that it has no child for.  Only children
/// before `limit`, which were all there before the merging started, are merged in
/// turn.
fn merge_from<V: Copy, F: Copy, D: Clone>(
    from_id: WidgetThemeHandle,
    to_id: WidgetThemeHandle,
    themes: &mut Vec<WidgetTheme<V, F, D>>,
    handles: &mut Vec<(String, WidgetThemeHandle)>,
    limit: usize,
    made: Ghost<Seq<WidgetTheme<V, F, D>>>,
)
    requires
        themes_ok(old(themes)@),
        handles_ok(old(handles)@, old(themes)@.len()),
        from_id@ < old(themes)@.len(),
        to_id@ < limit <= old(themes)@.len(),
        values_traced(old(themes)@, made@),
    ensures
        themes_ok(final(themes)@),
        handles_ok(final(handles)@, final(themes)@.len()),
        identities_kept(final(themes)@, old(themes)@),
        settings_kept(final(themes)@, old(themes)@),
        merged_theme(final(themes)@[to_id@ as int], old(themes)@[to_id@ as int], old(themes)@[from_id@ as int]),
        final(themes)@[to_id@ as int].children@.take(old(themes)@[to_id@ as int].children@.len() as int)
            == old(themes)@[to_id@ as int].children@,
        forall|k: int|
            0 <= k < old(themes)@[from_id@ as int].children@.len() ==> has_child_named(
                final(themes)@,
                to_id@ as int,
                old(themes)@[(#[trigger] old(themes)@[from_id@ as int].children@[k])@ as int].id@,
            ),
        forall|i: int|
            0 <= i < to_id@ ==> same_but_placement(final(themes)@[i], old(themes)@[i])
                && final(themes)@[i].children == old(themes)@[i].children,
        values_traced(final(themes)@, made@),
        tree_of(final(themes)@, final(handles)@) == merge_tree(
            tree_of(old(themes)@, old(handles)@),
            from_id@,
            to_id@,
            limit as nat,
        ),
    decreases limit - to_id@,
{
    let ghost t0 = tree_of(old(themes)@, old(handles)@);
    let ghost own_kids = t0.nodes[to_id@ as int].children;
    let ghost other_kids = t0.nodes[from_id@ as int].children;
    let ghost inherited = ThemeTree {
        nodes: t0.nodes.update(to_id@ as int, inherit_node(t0.nodes[to_id@ as int], t0.nodes[from_id@ as int])),
        ..t0
    };
    let ghost merged_kids = merge_children(inherited, own_kids, other_kids, to_id@, limit as nat, own_kids.len());
    let count = themes.len();
    let to_index = to_id.index();
    let from_index = from_id.index();
    proof {
        assert(theme_ok(old(themes)@, from_index as int));
        assert(theme_ok(old(themes)@, to_index as int));
    }
    let ghost own = themes@[to_index as int];
    let ghost other = themes@[from_index as int];
    let to_children = copy_handles(&themes[to_index].children);
    let from_children = copy_handles(&themes[from_index].children);

    // the theme's own settings
    let from_from = clone_text(&themes[from_index].from);
    let from_text = clone_text(&themes[from_index].text);
    let from_tooltip = clone_text(&themes[from_index].tooltip);
    let from_style = themes[from_index].style;
    let from_font = themes[from_index].font;
    let from_background = themes[from_index].background;
    let from_foreground = themes[from_index].foreground;
    themes[to_index].from = from_from;
    let style = themes[to_index].style.inherit(from_style);
    themes[to_index].style = style;
    let font = either_of(themes[to_index].font, from_font);
    themes[to_index].font = font;
    let background = either_of(themes[to_index].background, from_background);
    themes[to_index].background = background;
    let foreground = either_of(themes[to_index].foreground, from_foreground);
    themes[to_index].foreground = foreground;
    if themes[to_index].text.is_none() {
        themes[to_index].text = from_text;
    }
    if themes[to_index].tooltip.is_none() {
        themes[to_index].tooltip = from_tooltip;
    }
    if from_index != to_index {
        let mut custom: Vec<(String, D)> = Vec::new();
        std::mem::swap(&mut custom, &mut themes[to_index].custom);
        merge_custom(&mut custom, &themes[from_index].custom);
        themes[to_index].custom = custom;
        themes[to_index].origins = Ghost(
            merged_origins(keys_of(own.custom@), own.origins@, keys_of(other.custom@), other.origins@),
        );
        proof {
            let t = themes@[to_index as int];
            let picks = merged_picks(keys_of(own.custom@), keys_of(other.custom@));
            lemma_merged_picks(keys_of(own.custom@), keys_of(other.custom@));
            assert(own.origins@.len() == own.custom@.len());
            assert(other.origins@.len() == other.custom@.len());
            assert forall|k: int| 0 <= k < t.custom@.len() implies #[trigger] origin_traced(t, k, made@) by {
                let n = own.custom@.len() as int;
                if k < n {
                    assert(t.custom@[k] == t.custom@.take(n)[k]);
                    assert(t.origins@[k] == own.origins@[k]);
                    assert(origin_traced(own, k, made@));
                } else {
                    let j = picks[k - n];
                    assert(0 <= j < other.custom@.len());
                    assert(t.origins@[k] == other.origins@[j]);
                    assert(origin_traced(other, j, made@));
                    lemma_origin_cloned(t, k, other, j, made@);
                }
            }
        }
    } else {
        proof {
            lemma_merged_keys_present(keys_of(own.custom@), keys_of(own.custom@));
            assert(own.origins@ + Seq::<(nat, nat)>::empty() =~= own.origins@);
            assert(own.custom@.take(own.custom@.len() as int) =~= own.custom@);
        }
    }
    let ghost merged = themes@[to_index as int];
    let ghost mid = themes@;
    proof {
        assert(merged.full_id == own.full_id);
        assert(merged.children == own.children);
        assert(node_of(merged) == inherit_node(node_of(own), node_of(other)));
        assert(tree_of(mid, handles@).nodes =~= inherited.nodes);
        assert(own_kids =~= to_children@.map_values(|h: WidgetThemeHandle| h@));
        assert(other_kids =~= from_children@.map_values(|h: WidgetThemeHandle| h@));
        assert(merged_theme(merged, own, other));
        assert forall|i: int| 0 <= i < old(themes)@.len() implies keeps_settings(#[trigger] mid[i], old(themes)@[i]) by {
            if i == to_index {
                lemma_merged_keeps(merged, own, other);
            } else {
                lemma_keeps_same(mid[i], old(themes)@[i]);
            }
        }
        lemma_settings_kept_same(mid, mid);
        assert forall|i: int| 0 <= i < mid.len() implies (#[trigger] mid[i]).origins@.len() == mid[i].custom@.len() by {
            if i == to_index {
                lemma_merged_picks(keys_of(own.custom@), keys_of(other.custom@));
                assert(keys_of(mid[i].custom@).len() == mid[i].custom@.len());
            } else {
                assert(mid[i] == old(themes)@[i]);
            }
        }
        assert forall|i: int, k: int| 0 <= i < mid.len() && 0 <= k < mid[i].custom@.len() implies #[trigger] origin_traced(
            mid[i],
            k,
            made@,
        ) by {
            if i == to_index {
                if from_index == to_index {
                    assert(mid[i].custom == own.custom && mid[i].origins == own.origins);
                    assert(origin_traced(own, k, made@));
                }
            } else {
                assert(mid[i] == old(themes)@[i]);
                assert(origin_traced(old(themes)@[i], k, made@));
            }
        }
        let now = themes@;
        assert forall|j: int| 0 <= j < now.len() implies #[trigger] theme_ok(now, j) by {
            assert(theme_ok(old(themes)@, j));
        }
        assert forall|k: int| 0 <= k < to_children@.len() implies (#[trigger] to_children@[k])@ < count by {
            assert(to_children@[k] == own.children@[k]);
        }
        assert forall|k: int| 0 <= k < from_children@.len() implies (#[trigger] from_children@[k])@ < count by {
            assert(from_children@[k] == other.children@[k]);
        }
    }

    // children of the same identifier inherit from each other
    let mut j: usize = 0;
    while j < to_children.len()
        invariant
            count == old(themes)@.len(),
            to_index == to_id@,
            from_index == from_id@,
            to_id@ < limit <= count,
            from_id@ < count,
            to_children@ == own.children@,
            from_children@ == other.children@,
            own == old(themes)@[to_id@ as int],
            other == old(themes)@[from_id@ as int],
            forall|k: int| 0 <= k < to_children@.len() ==> to_id@ < (#[trigger] to_children@[k])@ < count,
            forall|k: int| 0 <= k < from_children@.len() ==> (#[trigger] from_children@[k])@ < count,
            j <= to_children@.len(),
            themes_ok(themes@),
            handles_ok(handles@, themes@.len()),
            identities_kept(themes@, old(themes)@),
            same_but_placement(themes@[to_id@ as int], merged),
            themes@[to_id@ as int].children == own.children,
            merged_theme(merged, own, other),
            settings_kept(mid, old(themes)@),
            settings_kept(themes@, mid),
            values_traced(themes@, made@),
            forall|i: int|
                0 <= i < to_id@ ==> same_but_placement(themes@[i], old(themes)@[i])
                    && themes@[i].children == old(themes)@[i].children,
            own_kids == to_children@.map_values(|h: WidgetThemeHandle| h@),
            other_kids == from_children@.map_values(|h: WidgetThemeHandle| h@),
            tree_of(themes@, handles@) == merge_children(
                inherited,
                own_kids,
                other_kids,
                to_id@,
                limit as nat,
                j as nat,
            ),
        decreases to_children@.len() - j,
    {
        let child = to_children[j];
        let ghost before = themes@;
        proof {
            assert(own_kids[j as int] == child@);
        }
        match find_same_id(themes, &from_children, child) {
            Some(from_child) => {
                if child.index() < limit {
                    merge_from(from_child, child, themes, handles, limit, made);
                    proof {
                        lemma_settings_kept_trans(themes@, before, mid);
                    }
                }
            },
            None => {},
        }
        j = j + 1;
    }

    // copies of the other theme's children that this theme has no child for
    let mut k: usize = 0;
    while k < from_children.len()
        invariant
            count == old(themes)@.len(),
            to_index == to_id@,
            from_index == from_id@,
            to_id@ < limit <= count,
            to_children@ == own.children@,
            from_children@ == other.children@,
            own == old(themes)@[to_id@ as int],
            other == old(themes)@[from_id@ as int],
            forall|i: int| 0 <= i < to_children@.len() ==> to_id@ < (#[trigger] to_children@[i])@ < count,
            forall|i: int| 0 <= i < from_children@.len() ==> (#[trigger] from_children@[i])@ < count,
            k <= from_children@.len(),
            themes_ok(themes@),
            handles_ok(handles@, themes@.len()),
            identities_kept(themes@, old(themes)@),
            same_but_placement(themes@[to_id@ as int], merged),
            merged_theme(merged, own, other),
            settings_kept(mid, old(themes)@),
            settings_kept(themes@, mid),
            values_traced(themes@, made@),
            themes@[to_id@ as int].children@.take(own.children@.len() as int) == own.children@,
            forall|i: int|
                0 <= i < to_id@ ==> same_but_placement(themes@[i], old(themes)@[i])
                    && themes@[i].children == old(themes)@[i].children,
            forall|i: int|
                0 <= i < k ==> has_child_named(
                    themes@,
                    to_id@ as int,
                    old(themes)@[(#[trigger] from_children@[i])@ as int].id@,
                ),
            themes@[to_id@ as int].children@.len() >= own.children@.len(),
            own_kids == to_children@.map_values(|h: WidgetThemeHandle| h@),
            other_kids == from_children@.map_values(|h: WidgetThemeHandle| h@),
            tree_of(themes@, handles@) == copy_missing(merged_kids, own_kids, other_kids, to_id@, k as nat),
        decreases from_children@.len() - k,
    {
        let from_child = from_children[k];
        let ghost before = themes@;
        proof {
            assert(other_kids[k as int] == from_child@);
        }
        proof {
            assert(theme_ok(before, to_id@ as int));
        }
        match find_same_id(themes, &to_children, from_child) {
            Some(c) => {
                proof {
                    let w = choose|w: int|
                        0 <= w < to_children@.len() && to_children@[w] == c && before[c@ as int].id@
                            == before[from_child@ as int].id@;
                    assert(before[to_id@ as int].children@.take(own.children@.len() as int)[w]
                        == before[to_id@ as int].children@[w]);
                    assert(before[to_id@ as int].children@[w] == c);
                    assert(before[from_child@ as int].id == old(themes)@[from_child@ as int].id);
                    assert(has_child_named(before, to_id@ as int, old(themes)@[from_child@ as int].id@));
                }
            },
            None => {
                let limit_now = themes.len();
                add_children_recursive(from_child, to_id, themes, handles, limit_now, made);
                proof {
                    let after = themes@;
                    let n = own.children@.len() as int;
                    assert(after[to_id@ as int].children@.take(n) =~= before[to_id@ as int].children@.take(n));
                    assert forall|i: int|
                        0 <= i < k implies has_child_named(
                            after,
                            to_id@ as int,
                            old(themes)@[(#[trigger] from_children@[i])@ as int].id@,
                        ) by {
                        let id = old(themes)@[from_children@[i]@ as int].id@;
                        let w = choose|w: int|
                            0 <= w < before[to_id@ as int].children@.len()
                                && before[(#[trigger] before[to_id@ as int].children@[w])@ as int].id@ == id;
                        assert(after[to_id@ as int].children@[w] == before[to_id@ as int].children@[w]);
                        let c = before[to_id@ as int].children@[w]@ as int;
                        assert(c < before.len());
                        assert(same_but_placement(after[c], before[c]));
                    }
                    let last = after[to_id@ as int].children@.len() - 1;
                    assert(theme_ok(after, before.len() as int));
                    assert(after[to_id@ as int].children@[last]@ == before.len());
                    assert(after[before.len() as int].id == before[from_child@ as int].id);
                    assert(has_child_named(after, to_id@ as int, old(themes)@[from_child@ as int].id@));
                    assert(identities_kept(after, old(themes)@));
                    lemma_settings_kept_same(after, before);
                    lemma_settings_kept_trans(after, before, mid);
                }
            },
        }
        k = k + 1;
    }
    proof {
        lemma_settings_kept_trans(themes@, mid, old(themes)@);
    }
}

// ---------------------------------------------------------------------------
// Resolving every `from`
// ---------------------------------------------------------------------------

/// The number of rounds over all themes that resolving the `from` references may
/// take; nested references need one round per level.
pub const MAX_FROM_ITERATIONS: u64 = 20;

pub open spec fn invalid_from_message(from: Seq<char>, id: Seq<char>) -> Seq<char> {
    "Invalid from theme '"@ + from + "' in '"@ + id + "'"@
}

pub open spec fn too_many_iterations_message() -> Seq<char> {
    "Unable to resolve all from references after "@ + decimal(MAX_FROM_ITERATIONS as nat)
        + " iterations.  This is most likely caused by a circular reference."@
}

/// Whether a message is one that resolving the `from` references fails with.
pub open spec fn resolution_message(msg: Seq<char>) -> bool {
    ||| exists|from: Seq<char>, id: Seq<char>| msg == invalid_from_message(from, id)
    ||| msg == too_many_iterations_message()
}

/// Whether every theme named in the handle table has inherited from the theme its
/// `from` named.
pub open spec fn all_resolved<V, F, D>(ts: Seq<WidgetTheme<V, F, D>>, hs: Seq<(String, WidgetThemeHandle)>) -> bool {
    forall|i: int| 0 <= i < hs.len() ==> ts[(#[trigger] hs[i]).1@ as int].from is None
}

/// The theme that the theme `to` names by `from`: the theme whose full
/// identifier is `from`, or else the one whose full identifier is that of `to`'s
/// parent followed by a slash and `from`.
pub open spec fn tree_resolved_from<V, F>(tree: ThemeTree<V, F>, from: Seq<char>, to: nat) -> Option<nat> {
    match keyed_value(tree.table, from) {
        Some(h) => Some(h),
        None => match tree.nodes[to as int].parent {
            Some(p) => keyed_value(tree.table, tree.nodes[p as int].full_id + seq!['/'] + from),
            None => None,
        },
    }
}

/// Takes the theme `to` in a round of resolving: a theme with no pending `from`
/// is left as it is; a `from` that names no theme is an error; a theme whose
/// `from` names a theme with a pending `from` of its own waits; otherwise the
/// theme drops its `from` and inherits from the theme it names (see
/// `merge_tree`).  The flag tells whether a pending `from` was seen this round.
pub open spec fn resolve_one<V, F>(tree: ThemeTree<V, F>, to: nat, found: bool) -> Result<(ThemeTree<V, F>, bool), Seq<char>> {
    match tree.nodes[to as int].from {
        None => Ok((tree, found)),
        Some(name) => match tree_resolved_from(tree, name, to) {
            None => Err(invalid_from_message(name, tree.nodes[to as int].id)),
            Some(f) => if tree.nodes[f as int].from is Some {
                Ok((tree, true))
            } else {
                let cleared = with_from(tree, to, None);
                Ok((merge_tree(cleared, f, to, cleared.nodes.len()), true))
            },
        },
    }
}

/// A round of resolving over the first `n` of the themes `ids`, in order.
pub open spec fn resolve_round<V, F>(tree: ThemeTree<V, F>, ids: Seq<nat>, n: nat) -> Result<(ThemeTree<V, F>, bool), Seq<char>>
    decreases n,
{
    if n == 0 || n > ids.len() {
        Ok((tree, false))
    } else {
        match resolve_round(tree, ids, (n - 1) as nat) {
            Err(e) => Err(e),
            Ok(r) => resolve_one(r.0, ids[n - 1], r.1),
        }
    }
}

/// Resolving every `from`: rounds over the themes of the table, as it stands at
/// the start of each round, until a round sees no pending `from`; it fails on the
/// first `from` that names no theme, or when `MAX_FROM_ITERATIONS` rounds did not
/// suffice.
pub open spec fn resolve_rounds<V, F>(tree: ThemeTree<V, F>, iteration: nat) -> Result<ThemeTree<V, F>, Seq<char>>
    decreases MAX_FROM_ITERATIONS - iteration,
{
    if iteration >= MAX_FROM_ITERATIONS {
        Err(too_many_iterations_message())
    } else {
        let ids = tree.table.map_values(|e: (Seq<char>, nat)| e.1);
        match resolve_round(tree, ids, ids.len()) {
            Err(e) => Err(e),
            Ok(r) => if r.1 {
                resolve_rounds(r.0, iteration + 1)
            } else {
                Ok(r.0)
            },
        }
    }
}

/// Whether `b` keeps what `a` holds: no fewer themes, every name of the table,
/// what each name without a slash leads to, and the first theme.
pub open spec fn tree_keeps<V, F>(a: ThemeTree<V, F>, b: ThemeTree<V, F>) -> bool {
    &&& b.nodes.len() >= a.nodes.len()
    &&& forall|k: Seq<char>|  crate::image_set::has_key(a.table, k) ==> #[trigger]  crate::image_set::has_key(b.table, k)
    &&& forall|k: Seq<char>| !k.contains('/') ==> #[trigger] keyed_value(b.table, k) == keyed_value(a.table, k)
    &&& b.nodes[0] == a.nodes[0]
    &&& (table_ok(a) ==> table_ok(b))
}

/// Whether every name of the table leads to one of the themes.
pub open spec fn table_ok<V, F>(tree: ThemeTree<V, F>) -> bool {
    forall|i: int| 0 <= i < tree.table.len() ==> #[trigger] tree.table[i].1 < tree.nodes.len()
}

proof fn lemma_keyed_set_bounded(table: Seq<(Seq<char>, nat)>, key: Seq<char>, value: nat, bound: nat)
    requires
        forall|i: int| 0 <= i < table.len() ==> #[trigger] table[i].1 < bound,
        value < bound,
    ensures
        forall|i: int| 0 <= i < keyed_set(table, key, value).len() ==> #[trigger] keyed_set(table, key, value)[i].1 < bound,
{
    let s = keyed_set(table, key, value);
    assert forall|i: int| 0 <= i < s.len() implies #[trigger] s[i].1 < bound by {
        match keyed_position(table, key) {
            Some(p) => {
                if i != p {
                    assert(s[i] == table[i]);
                }
            },
            None => {
                if i < table.len() {
                    assert(s[i] == table[i]);
                }
            },
        }
    }
}

proof fn lemma_tree_keeps_trans<V, F>(a: ThemeTree<V, F>, b: ThemeTree<V, F>, c: ThemeTree<V, F>)
    requires
        tree_keeps(a, b),
        tree_keeps(b, c),
    ensures
        tree_keeps(a, c),
{
    assert forall|k: Seq<char>|  crate::image_set::has_key(a.table, k) implies #[trigger]  crate::image_set::has_key(c.table, k) by {
        assert(crate::image_set::has_key(b.table, k));
    }
    assert forall|k: Seq<char>| !k.contains('/') implies #[trigger] keyed_value(c.table, k) == keyed_value(a.table, k) by {
        assert(keyed_value(b.table, k) == keyed_value(a.table, k));
    }
}

/// Setting a name that holds a slash keeps what the table holds otherwise.
proof fn lemma_keyed_set_slash(table: Seq<(Seq<char>, nat)>, key: Seq<char>, value: nat)
    requires
        key.contains('/'),
    ensures
        forall|k: Seq<char>|  crate::image_set::has_key(table, k) ==> #[trigger]  crate::image_set::has_key(keyed_set(table, key, value), k),
        forall|k: Seq<char>|
            !k.contains('/') ==> #[trigger] keyed_value(keyed_set(table, key, value), k) == keyed_value(table, k),
{
    assert forall|k: Seq<char>|  crate::image_set::has_key(table, k) implies #[trigger]  crate::image_set::has_key(keyed_set(table, key, value), k) by {
        crate::image_set::lemma_keyed_set(table, key, value, k);
    }
    assert forall|k: Seq<char>| !k.contains('/') implies #[trigger] keyed_value(keyed_set(table, key, value), k)
        == keyed_value(table, k) by {
        crate::image_set::lemma_keyed_set(table, key, value, k);
    }
}

proof fn lemma_copy_under_keeps<V, F>(tree: ThemeTree<V, F>, src: nat, to: nat, limit: nat)
    requires
        tree.nodes.len() > 0,
        to != 0,
        to < tree.nodes.len(),
        limit <= tree.nodes.len(),
    ensures
        tree_keeps(tree, copy_under(tree, src, to, limit)),
    decreases limit - src, 1nat, 0nat,
{
    let n = tree.nodes.len();
    let s = tree.nodes[src as int];
    let full = tree.nodes[to as int].full_id + seq!['/'] + s.id;
    let copy = ThemeNode { full_id: full, parent: Some(to), children: Seq::empty(), ..s };
    let nodes = tree.nodes.update(
        to as int,
        ThemeNode { children: tree.nodes[to as int].children.push(n), ..tree.nodes[to as int] },
    ).push(copy);
    let rooted = ThemeTree { nodes, table: keyed_set(tree.table, full, n) };
    assert(full[tree.nodes[to as int].full_id.len() as int] == '/');
    lemma_keyed_set_slash(tree.table, full, n);
    if table_ok(tree) {
        lemma_keyed_set_bounded(tree.table, full, n, n + 1);
    }
    assert(tree_keeps(tree, rooted));
    lemma_copy_children_keeps(rooted, s.children, src, n, full, limit, s.children.len());
    lemma_tree_keeps_trans(tree, rooted, copy_under(tree, src, to, limit));
}

proof fn lemma_copy_children_keeps<V, F>(
    tree: ThemeTree<V, F>,
    kids: Seq<nat>,
    src: nat,
    copy: nat,
    full: Seq<char>,
    limit: nat,
    k: nat,
)
    requires
        tree.nodes.len() > 0,
        copy != 0,
        copy < tree.nodes.len(),
        limit <= tree.nodes.len(),
    ensures
        tree_keeps(tree, copy_children(tree, kids, src, copy, full, limit, k)),
    decreases limit - src, 0nat, k,
{
    if k == 0 || k > kids.len() {
    } else {
        lemma_copy_children_keeps(tree, kids, src, copy, full, limit, (k - 1) as nat);
        let t = copy_children(tree, kids, src, copy, full, limit, (k - 1) as nat);
        let c = kids[k - 1];
        if src < c && c < limit {
            let renamed = with_full_id(t, c, full + seq!['/'] + t.nodes[c as int].id);
            assert(tree_keeps(t, renamed));
            lemma_tree_keeps_trans(tree, t, renamed);
            lemma_copy_under_keeps(renamed, c, copy, limit);
            lemma_tree_keeps_trans(tree, renamed, copy_under(renamed, c, copy, limit));
        }
    }
}

proof fn lemma_merge_tree_keeps<V, F>(tree: ThemeTree<V, F>, from: nat, to: nat, limit: nat)
    requires
        tree.nodes.len() > 0,
        to != 0,
        to < tree.nodes.len(),
        limit <= tree.nodes.len(),
    ensures
        tree_keeps(tree, merge_tree(tree, from, to, limit)),
    decreases limit - to, 1nat, 0nat,
{
    let own = tree.nodes[to as int];
    let other = tree.nodes[from as int];
    let inherited = ThemeTree { nodes: tree.nodes.update(to as int, inherit_node(own, other)), ..tree };
    assert(tree_keeps(tree, inherited));
    lemma_merge_children_keeps(inherited, own.children, other.children, to, limit, own.children.len());
    let merged = merge_children(inherited, own.children, other.children, to, limit, own.children.len());
    lemma_tree_keeps_trans(tree, inherited, merged);
    lemma_copy_missing_keeps(merged, own.children, other.children, to, other.children.len());
    lemma_tree_keeps_trans(tree, merged, merge_tree(tree, from, to, limit));
}

proof fn lemma_merge_children_keeps<V, F>(
    tree: ThemeTree<V, F>,
    kids: Seq<nat>,
    others: Seq<nat>,
    to: nat,
    limit: nat,
    j: nat,
)
    requires
        tree.nodes.len() > 0,
        limit <= tree.nodes.len(),
    ensures
        tree_keeps(tree, merge_children(tree, kids, others, to, limit, j)),
    decreases limit - to, 0nat, j,
{
    if j == 0 || j > kids.len() {
    } else {
        lemma_merge_children_keeps(tree, kids, others, to, limit, (j - 1) as nat);
        let t = merge_children(tree, kids, others, to, limit, (j - 1) as nat);
        let c = kids[j - 1];
        match first_with_id(t.nodes, others, t.nodes[c as int].id) {
            Some(fc) => if to < c && c < limit {
                lemma_merge_tree_keeps(t, fc, c, limit);
                lemma_tree_keeps_trans(tree, t, merge_tree(t, fc, c, limit));
            },
            None => {},
        }
    }
}

proof fn lemma_copy_missing_keeps<V, F>(tree: ThemeTree<V, F>, kids: Seq<nat>, others: Seq<nat>, to: nat, k: nat)
    requires
        tree.nodes.len() > 0,
        to != 0,
        to < tree.nodes.len(),
    ensures
        tree_keeps(tree, copy_missing(tree, kids, others, to, k)),
    decreases k,
{
    if k == 0 || k > others.len() {
    } else {
        lemma_copy_missing_keeps(tree, kids, others, to, (k - 1) as nat);
        let t = copy_missing(tree, kids, others, to, (k - 1) as nat);
        let fc = others[k - 1];
        match first_with_id(t.nodes, kids, t.nodes[fc as int].id) {
            Some(_) => {},
            None => {
                lemma_copy_under_keeps(t, fc, to, t.nodes.len());
                lemma_tree_keeps_trans(tree, t, copy_under(t, fc, to, t.nodes.len()));
            },
        }
    }
}

proof fn lemma_resolve_round_keeps<V, F>(tree: ThemeTree<V, F>, ids: Seq<nat>, n: nat)
    requires
        tree.nodes.len() > 0,
        tree.nodes[0].from is None,
        forall|i: int| 0 <= i < ids.len() ==> #[trigger] ids[i] < tree.nodes.len(),
        resolve_round(tree, ids, n) is Ok,
    ensures
        tree_keeps(tree, resolve_round(tree, ids, n)->Ok_0.0),
    decreases n,
{
    if n == 0 || n > ids.len() {
    } else {
        lemma_resolve_round_keeps(tree, ids, (n - 1) as nat);
        let r = resolve_round(tree, ids, (n - 1) as nat)->Ok_0;
        let t = r.0;
        let to = ids[n - 1];
        match t.nodes[to as int].from {
            None => {},
            Some(name) => match tree_resolved_from(t, name, to) {
                None => {},
                Some(f) => if t.nodes[f as int].from is None {
                    assert(to != 0);
                    let cleared = with_from(t, to, None);
                    assert(tree_keeps(t, cleared));
                    lemma_merge_tree_keeps(cleared, f, to, cleared.nodes.len());
                    lemma_tree_keeps_trans(t, cleared, merge_tree(cleared, f, to, cleared.nodes.len()));
                    lemma_tree_keeps_trans(tree, t, merge_tree(cleared, f, to, cleared.nodes.len()));
                },
            },
        }
    }
}

/// Resolving the `from` references of themes whose first theme has none keeps
/// every name of the handle table, keeps what each name without a slash leads
/// to (such as `default`, or the name of a top-level widget theme), and leaves
/// the first theme as it is.
pub proof fn lemma_resolution_keeps<V, F>(tree: ThemeTree<V, F>, iteration: nat)
    requires
        tree.nodes.len() > 0,
        tree.nodes[0].from is None,
        table_ok(tree),
        resolve_rounds(tree, iteration) is Ok,
    ensures
        tree_keeps(tree, resolve_rounds(tree, iteration)->Ok_0),
    decreases MAX_FROM_ITERATIONS - iteration,
{
    if iteration < MAX_FROM_ITERATIONS {
        let ids = tree.table.map_values(|e: (Seq<char>, nat)| e.1);
        assert forall|i: int| 0 <= i < ids.len() implies #[trigger] ids[i] < tree.nodes.len() by {
            assert(tree.table[i].1 < tree.nodes.len());
        }
        lemma_resolve_round_keeps(tree, ids, ids.len());
        let r = resolve_round(tree, ids, ids.len())->Ok_0;
        if r.1 {
            lemma_resolution_keeps(r.0, iteration + 1);
            lemma_tree_keeps_trans(tree, r.0, resolve_rounds(r.0, iteration + 1)->Ok_0);
        }
    }
}

proof fn lemma_resolve_round_fails<V, F>(tree: ThemeTree<V, F>, ids: Seq<nat>, n: nat, m: nat)
    requires
        n <= m <= ids.len(),
        resolve_round(tree, ids, n) is Err,
    ensures
        resolve_round(tree, ids, m) == resolve_round(tree, ids, n),
    decreases m - n,
{
    if n < m {
        lemma_resolve_round_fails(tree, ids, n, (m - 1) as nat);
    }
}

proof fn lemma_lookup_ok(hs: Seq<(String, WidgetThemeHandle)>, key: Seq<char>, count: nat)
    requires
        handles_ok(hs, count),
    ensures
        lookup(hs, key) matches Some(h) ==> h@ < count,
{
    if let Some(i) = key_position(hs, key) {
        assert(0 <= i < hs.len() && is_first_key(hs, key, i));
        assert(hs[i].1@ < count);
    }
}

fn handle_values(handles: &Vec<(String, WidgetThemeHandle)>) -> (r: Vec<WidgetThemeHandle>)
    ensures
        r@.len() == handles@.len(),
        forall|i: int| 0 <= i < r@.len() ==> r@[i] == (#[trigger] handles@[i]).1,
{
    let mut r: Vec<WidgetThemeHandle> = Vec::new();
    let mut i: usize = 0;
    while i < handles.len()
        invariant
            i <= handles@.len(),
            r@.len() == i,
            forall|j: int| 0 <= j < i ==> r@[j] == (#[trigger] handles@[j]).1,
        decreases handles@.len() - i,
    {
        r.push(handles[i].1);
        i = i + 1;
    }
    r
}

/// Resolves every `from` reference.  In each round, each theme named in the
/// handle table whose `from` names a theme that has no `from` of its own left
/// inherits from that theme; a theme whose `from` names no theme is an error.
/// Rounds go on until a round finds no `from` left, at most
/// `MAX_FROM_ITERATIONS` times.
fn resolve_all<V: Copy, F: Copy, D: Clone>(
    themes: &mut Vec<WidgetTheme<V, F, D>>,
    handles: &mut Vec<(String, WidgetThemeHandle)>,
    made: Ghost<Seq<WidgetTheme<V, F, D>>>,
) -> (r: Result<(), Error>)
    requires
        themes_ok(old(themes)@),
        handles_ok(old(handles)@, old(themes)@.len()),
        values_traced(old(themes)@, made@),
    ensures
        themes_ok(final(themes)@),
        handles_ok(final(handles)@, final(themes)@.len()),
        identities_kept(final(themes)@, old(themes)@),
        settings_kept(final(themes)@, old(themes)@),
        values_traced(final(themes)@, made@),
        (match r {
            Ok(()) => all_resolved(final(themes)@, final(handles)@),
            Err(e) => e matches Error::Theme(msg) && resolution_message(msg@),
        }),
        (match resolve_rounds(tree_of(old(themes)@, old(handles)@), 0) {
            Ok(tree) => r is Ok && tree_of(final(themes)@, final(handles)@) == tree,
            Err(m) => r matches Err(Error::Theme(msg)) && msg@ == m,
        }),
{
    let ghost goal = resolve_rounds(tree_of(old(themes)@, old(handles)@), 0);
    let mut iteration: u64 = 0;
    proof {
        lemma_settings_kept_same(themes@, themes@);
    }
    loop
        invariant
            themes_ok(themes@),
            handles_ok(handles@, themes@.len()),
            identities_kept(themes@, old(themes)@),
            settings_kept(themes@, old(themes)@),
            values_traced(themes@, made@),
            iteration <= MAX_FROM_ITERATIONS,
            goal == resolve_rounds(tree_of(old(themes)@, old(handles)@), 0),
            resolve_rounds(tree_of(themes@, handles@), iteration as nat) == goal,
        decreases MAX_FROM_ITERATIONS - iteration,
    {
        if iteration == MAX_FROM_ITERATIONS {
            let mut msg = String::from_str("Unable to resolve all from references after ");
            push_decimal(&mut msg, iteration);
            msg.append(" iterations.  This is most likely caused by a circular reference.");
            return Err(Error::Theme(msg));
        }
        let to_ids = handle_values(handles);
        let ghost round_themes = themes@;
        let ghost round_handles = handles@;
        let ghost round_tree = tree_of(themes@, handles@);
        let ghost ids = round_tree.table.map_values(|e: (Seq<char>, nat)| e.1);
        proof {
            assert(ids =~= to_ids@.map_values(|h: WidgetThemeHandle| h@));
        }
        let mut found_new = false;
        let mut n: usize = 0;
        while n < to_ids.len()
            invariant
                themes_ok(themes@),
                handles_ok(handles@, themes@.len()),
                identities_kept(themes@, old(themes)@),
                settings_kept(themes@, old(themes)@),
                values_traced(themes@, made@),
                identities_kept(round_themes, old(themes)@),
                themes@.len() >= round_themes.len(),
                handles_ok(round_handles, round_themes.len()),
                to_ids@.len() == round_handles.len(),
                forall|i: int| 0 <= i < to_ids@.len() ==> to_ids@[i] == (#[trigger] round_handles[i]).1,
                n <= to_ids@.len(),
                !found_new ==> themes@ == round_themes && handles@ == round_handles,
                !found_new ==> forall|m: int| 0 <= m < n ==> themes@[(#[trigger] to_ids@[m])@ as int].from is None,
                ids == to_ids@.map_values(|h: WidgetThemeHandle| h@),
                round_tree == tree_of(round_themes, round_handles),
                resolve_round(round_tree, ids, n as nat) == Ok::<(ThemeTree<V, F>, bool), Seq<char>>(
                    (tree_of(themes@, handles@), found_new),
                ),
                goal == resolve_rounds(tree_of(old(themes)@, old(handles)@), 0),
                resolve_rounds(round_tree, iteration as nat) == goal,
                iteration < MAX_FROM_ITERATIONS,
            decreases to_ids@.len() - n,
        {
            let ghost t_now = tree_of(themes@, handles@);
            let ghost found_before = found_new;
            let to_id = to_ids[n];
            let count = themes.len();
            proof {
                assert(to_ids@[n as int] == round_handles[n as int].1);
            }
            let to_index = to_id.index();
            proof {
                assert(ids[n as int] == to_id@);
                assert(resolve_round(round_tree, ids, (n + 1) as nat) == resolve_one(t_now, to_id@, found_before));
                assert(t_now.nodes[to_id@ as int] == node_of(themes@[to_index as int]));
            }
            match clone_text(&themes[to_index].from) {
                None => {},
                Some(from_name) => {
                    found_new = true;
                    proof {
                        lemma_table_lookup(handles@, from_name@);
                        assert(theme_ok(themes@, to_index as int));
                        if let Some(p) = themes@[to_index as int].parent_handle {
                            let key = themes@[p@ as int].full_id@ + seq!['/'] + from_name@;
                            lemma_table_lookup(handles@, key);
                            assert(t_now.nodes[p@ as int] == node_of(themes@[p@ as int]));
                        }
                    }
                    match resolve_from(themes, handles, &from_name, to_id) {
                        None => {
                            let msg = concat5(
                                "Invalid from theme '",
                                from_name.as_str(),
                                "' in '",
                                themes[to_index].id.as_str(),
                                "'",
                            );
                            proof {
                                assert(msg@ == invalid_from_message(from_name@, themes@[to_index as int].id@));
                                assert(resolve_round(round_tree, ids, (n + 1) as nat) == Err::<(ThemeTree<V, F>, bool), Seq<char>>(msg@));
                                lemma_resolve_round_fails(round_tree, ids, (n + 1) as nat, ids.len());
                                assert(ids == round_tree.table.map_values(|e: (Seq<char>, nat)| e.1));
                                assert(resolve_rounds(round_tree, iteration as nat) == Err::<ThemeTree<V, F>, Seq<char>>(msg@));
                            }
                            return Err(Error::Theme(msg));
                        },
                        Some(from_id) => {
                            proof {
                                lemma_lookup_ok(handles@, from_name@, count as nat);
                                assert(theme_ok(themes@, to_index as int));
                                if let Some(p) = themes@[to_index as int].parent_handle {
                                    let key = themes@[p@ as int].full_id@ + seq!['/'] + from_name@;
                                    lemma_lookup_ok(handles@, key, count as nat);
                                }
                            }
                            proof {
                                assert(t_now.nodes[from_id@ as int] == node_of(themes@[from_id@ as int]));
                            }
                            if themes[from_id.index()].from.is_none() {
                                let ghost before = themes@;
                                themes[to_index].from = None;
                                proof {
                                    let now = themes@;
                                    assert forall|j: int| 0 <= j < now.len() implies #[trigger] theme_ok(now, j) by {
                                        assert(theme_ok(before, j));
                                    }
                                    assert(identities_kept(now, old(themes)@)) by {
                                        assert forall|j: int| 0 <= j < old(themes)@.len() implies (#[trigger] now[j]).id
                                            == old(themes)@[j].id by {
                                            assert(before[j].id == old(themes)@[j].id);
                                        }
                                    }
                                    assert forall|j: int| 0 <= j < before.len() implies keeps_settings(#[trigger] now[j], before[j]) by {
                                        assert(now[j].custom@.take(before[j].custom@.len() as int) =~= before[j].custom@);
                                    }
                                    lemma_settings_kept_trans(now, before, old(themes)@);
                                    assert forall|j: int| 0 <= j < now.len() implies (#[trigger] now[j]).custom
                                        == before[j].custom && now[j].origins == before[j].origins by {
                                        if j != to_index {
                                            assert(now[j] == before[j]);
                                        }
                                    }
                                    lemma_values_same(now, before, made@);
                                }
                                let ghost before_merge = themes@;
                                proof {
                                    assert(tree_of(before_merge, handles@).nodes =~= with_from(t_now, to_id@, None).nodes);
                                    assert(t_now.nodes[from_id@ as int] == node_of(before[from_id@ as int]));
                                }
                                let limit = themes.len();
                                merge_from(from_id, to_id, themes, handles, limit, made);
                                proof {
                                    lemma_settings_kept_trans(themes@, before_merge, old(themes)@);
                                }
                            }
                        },
                    }
                },
            }
            n = n + 1;
        }
        proof {
            assert(ids.len() == to_ids@.len());
        }
        if !found_new {
            proof {
                assert forall|i: int| 0 <= i < handles@.len() implies themes@[(#[trigger] handles@[i]).1@ as int].from is None by {
                    assert(to_ids@[i] == round_handles[i].1);
                }
            }
            return Ok(());
        }
        iteration = iteration + 1;
    }
}

// ---------------------------------------------------------------------------
// The theme set
// ---------------------------------------------------------------------------

/// The style that sets nothing.
pub open spec fn unset_style<V>() -> Style<V> {
    Style {
        text_color: None,
        image_color: None,
        wants_mouse: None,
        wants_scroll: None,
        text_align: None,
        pos: None,
        screen_pos: None,
        width: None,
        height: None,
        width_from: None,
        height_from: None,
        border: None,
        align: None,
        child_align: None,
        layout: None,
        layout_spacing: None,
    }
}

/// The identifier of the theme that the theme set always holds first.
pub open spec fn default_theme_id() -> Seq<char> {
    "default"@
}

/// Whether `t` is the default theme: it sets nothing and has no children.
pub open spec fn is_default_theme<V, F, D>(t: WidgetTheme<V, F, D>) -> bool {
    &&& t.id@ == default_theme_id()
    &&& t.full_id@ == default_theme_id()
    &&& t.from is None
    &&& t.parent_handle is None
    &&& t.handle@ == 0
    &&& t.text is None
    &&& t.font is None
    &&& t.background is None
    &&& t.foreground is None
    &&& t.tooltip is None
    &&& t.style == unset_style::<V>()
    &&& t.children@.len() == 0
    &&& t.custom@.len() == 0
    &&& t.origins@.len() == 0
}

fn create_default<V, F, D>() -> (t: WidgetTheme<V, F, D>)
    ensures
        is_default_theme(t),
{
    WidgetTheme {
        from: None,
        full_id: String::from_str("default"),
        id: String::from_str("default"),
        parent_handle: None,
        handle: WidgetThemeHandle::at(0),
        text: None,
        font: None,
        background: None,
        foreground: None,
        tooltip: None,
        style: Style {
            text_color: None,
            image_color: None,
            wants_mouse: None,
            wants_scroll: None,
            text_align: None,
            pos: None,
            screen_pos: None,
            width: None,
            height: None,
            width_from: None,
            height_from: None,
            border: None,
            align: None,
            child_align: None,
            layout: None,
            layout_spacing: None,
        },
        children: Vec::new(),
        custom: Vec::new(),
        origins: Ghost(Seq::empty()),
    }
}

/// The first thing wrong with the top-level widget themes of a definition, taking
/// them in order.
pub open spec fn widgets_error<V, F, D>(
    widgets: Seq<(String, WidgetThemeDefinition<V, D>)>,
    images: Seq<String>,
    fonts: Seq<(String, F)>,
) -> Option<Seq<char>> {
    children_error(widgets, widgets.len(), Seq::empty(), images, fonts)
}

/// Whether the themes are those made from the top-level widget themes: the
/// default theme first, then the themes made from each widget theme in turn (see
/// `created`), at the top level.
pub open spec fn widgets_created<V, F, D>(
    ts: Seq<WidgetTheme<V, F, D>>,
    widgets: Seq<(String, WidgetThemeDefinition<V, D>)>,
    images: Seq<String>,
    fonts: Seq<(String, F)>,
) -> bool {
    &&& ts.len() == 1 + children_size(widgets, widgets.len())
    &&& is_default_theme(ts[0])
    &&& forall|k: int|
        #![trigger widgets[k]]
        0 <= k < widgets.len() ==> created(
            ts,
            child_position(0, widgets, k as nat),
            widgets[k].1,
            widgets[k].0@,
            Seq::empty(),
            None,
            images,
            fonts,
        )
}

proof fn lemma_handles_made_keys<V, F, D>(
    hs: Seq<(String, WidgetThemeHandle)>,
    ts: Seq<WidgetTheme<V, F, D>>,
    start: int,
    def: WidgetThemeDefinition<V, D>,
    key: Seq<char>,
)
    requires
        crate::image_set::has_key(table_of(hs), key) || key == ts[start].full_id@,
    ensures
        crate::image_set::has_key(table_of(handles_made(hs, ts, start, def)), key),
    decreases def, 0nat,
{
    let kids = def.children@;
    let after = children_handles(hs, ts, start, kids, kids.len());
    if crate::image_set::has_key(table_of(hs), key) {
        lemma_children_handles_keys(hs, ts, start, kids, kids.len(), key);
    }
    lemma_table_with_entry(after, ts[start].full_id, ts[start].handle);
    crate::image_set::lemma_keyed_set(table_of(after), ts[start].full_id@, ts[start].handle@, key);
}

proof fn lemma_children_handles_keys<V, F, D>(
    hs: Seq<(String, WidgetThemeHandle)>,
    ts: Seq<WidgetTheme<V, F, D>>,
    start: int,
    kids: Seq<(String, WidgetThemeDefinition<V, D>)>,
    count: nat,
    key: Seq<char>,
)
    requires
        crate::image_set::has_key(table_of(hs), key),
    ensures
        crate::image_set::has_key(table_of(children_handles(hs, ts, start, kids, count)), key),
    decreases kids, count,
{
    if count == 0 || count > kids.len() {
    } else {
        lemma_children_handles_keys(hs, ts, start, kids, (count - 1) as nat, key);
        lemma_handles_made_keys(
            children_handles(hs, ts, start, kids, (count - 1) as nat),
            ts,
            child_position(start, kids, (count - 1) as nat),
            kids[count - 1].1,
            key,
        );
    }
}

/// The handle table made for the top-level widget themes holds each of their
/// full identifiers.
proof fn lemma_children_handles_has_child<V, F, D>(
    hs: Seq<(String, WidgetThemeHandle)>,
    ts: Seq<WidgetTheme<V, F, D>>,
    start: int,
    kids: Seq<(String, WidgetThemeDefinition<V, D>)>,
    count: nat,
    j: nat,
)
    requires
        j < count <= kids.len(),
    ensures
        crate::image_set::has_key(
            table_of(children_handles(hs, ts, start, kids, count)),
            ts[child_position(start, kids, j)].full_id@,
        ),
    decreases count,
{
    let key = ts[child_position(start, kids, j)].full_id@;
    if j == count - 1 {
        lemma_handles_made_keys(
            children_handles(hs, ts, start, kids, (count - 1) as nat),
            ts,
            child_position(start, kids, (count - 1) as nat),
            kids[count - 1].1,
            key,
        );
    } else {
        lemma_children_handles_has_child(hs, ts, start, kids, (count - 1) as nat, j);
        lemma_handles_made_keys(
            children_handles(hs, ts, start, kids, (count - 1) as nat),
            ts,
            child_position(start, kids, (count - 1) as nat),
            kids[count - 1].1,
            key,
        );
    }
}

/// Whether `made` and `hs` are the themes and the handle table made from the
/// top-level widget themes before any `from` is resolved: the default theme,
/// entered as `default`, then the themes made from each widget theme in turn,
/// each entered under its full identifier.
pub open spec fn widgets_made<V, F, D>(
    made: Seq<WidgetTheme<V, F, D>>,
    hs: Seq<(String, WidgetThemeHandle)>,
    widgets: Seq<(String, WidgetThemeDefinition<V, D>)>,
    images: Seq<String>,
    fonts: Seq<(String, F)>,
) -> bool {
    &&& widgets_created(made, widgets, images, fonts)
    &&& exists|hs0: Seq<(String, WidgetThemeHandle)>|
        table_of(hs0) == seq![(default_theme_id(), 0nat)] && hs == children_handles(
            hs0,
            made,
            0,
            widgets,
            widgets.len(),
        )
}

/// Whether `set` is the theme set made from the top-level widget themes: the
/// themes and handle table made from them (see `widgets_made`), with every `from`
/// resolved in rounds (see `resolve_rounds`), which also gives the origin of each
/// custom data entry, every custom data value a clone chain of the value that its
/// origin names among the themes made (see `values_traced`), and the given images
/// and fonts.
pub open spec fn theme_set_made<V, F, D: Clone>(
    set: ThemeSet<V, F, D>,
    widgets: Seq<(String, WidgetThemeDefinition<V, D>)>,
    images: Seq<String>,
    fonts: Seq<(String, F)>,
) -> bool {
    &&& widgets_error(widgets, images, fonts) is None
    &&& set.images_view() == images
    &&& set.fonts_view() == fonts
    &&& exists|made: Seq<WidgetTheme<V, F, D>>, hs: Seq<(String, WidgetThemeHandle)>|
        {
            &&& widgets_made(made, hs, widgets, images, fonts)
            &&& settings_kept(set.themes_view(), made)
            &&& origins_initial(made)
            &&& values_traced(set.themes_view(), made)
            &&& resolve_rounds(tree_of(made, hs), 0) == Ok::<ThemeTree<V, F>, Seq<char>>(
                tree_of(set.themes_view(), set.handles_view()),
            )
            &&& tree_keeps(tree_of(made, hs), tree_of(set.themes_view(), set.handles_view()))
        }
    &&& is_default_theme(set.themes_view()[0])
    &&& forall|w: int|
        0 <= w < widgets.len() ==> crate::image_set::has_key(
            table_of(set.handles_view()),
            (#[trigger] widgets[w]).0@,
        )
    &&& set.themes_view()[0].id@ == default_theme_id()
    &&& all_resolved(set.themes_view(), set.handles_view())
}

/// Whether `msg` is the message of a failure to make the theme set: that of the
/// first widget theme in error, or, when there is none, the one that resolving
/// the `from` references of the themes made fails with (see `resolve_rounds`).
pub open spec fn theme_set_failed<V, D, F>(
    msg: Seq<char>,
    widgets: Seq<(String, WidgetThemeDefinition<V, D>)>,
    images: Seq<String>,
    fonts: Seq<(String, F)>,
) -> bool {
    ||| widgets_error(widgets, images, fonts) == Some(msg)
    ||| widgets_error(widgets, images, fonts) is None && exists|
        made: Seq<WidgetTheme<V, F, D>>,
        hs: Seq<(String, WidgetThemeHandle)>,
    |
        widgets_made(made, hs, widgets, images, fonts) && resolve_rounds(tree_of(made, hs), 0) == Err::<
            ThemeTree<V, F>,
            Seq<char>,
        >(msg)
}

/// The widget themes of a theme, flattened into a list addressed by handles, with
/// every `from` resolved; and the fonts and images that the themes name.
pub struct ThemeSet<V, F, D> {
    fonts: Vec<(String, F)>,
    images: Vec<String>,
    handles: Vec<(String, WidgetThemeHandle)>,
    themes: Vec<WidgetTheme<V, F, D>>,
}

impl<V, F, D> ThemeSet<V, F, D> {
    #[verifier::type_invariant]
    spec fn well_formed(self) -> bool {
        &&& themes_ok(self.themes@)
        &&& handles_ok(self.handles@, self.themes@.len())
        &&& self.themes@.len() >= 1
    }

    /// The themes, in handle order.
    pub closed spec fn themes_view(&self) -> Seq<WidgetTheme<V, F, D>> {
        self.themes@
    }

    /// The table from full theme identifiers to handles.
    pub closed spec fn handles_view(&self) -> Seq<(String, WidgetThemeHandle)> {
        self.handles@
    }

    /// The fonts by name, with their summaries.
    pub closed spec fn fonts_view(&self) -> Seq<(String, F)> {
        self.fonts@
    }

    /// The image names, in handle order.
    pub closed spec fn images_view(&self) -> Seq<String> {
        self.images@
    }
}

impl<V: Copy, F: Copy, D: Clone> ThemeSet<V, F, D> {
    /// Builds the theme set from the top-level widget themes of a theme definition:
    /// the default theme first, then the themes made from each widget theme in
    /// turn (see `create`), after which every `from` is resolved (see
    /// `resolve_all`).  `images` names the images in handle order, and `fonts`
    /// gives each font's summary by name.
    pub fn new(
        widgets: Vec<(String, WidgetThemeDefinition<V, D>)>,
        images: Vec<String>,
        fonts: Vec<(String, F)>,
    ) -> (r: Result<ThemeSet<V, F, D>, Error>)
        ensures
            (match r {
                Ok(set) => theme_set_made(set, widgets@, images@, fonts@),
                Err(e) => e matches Error::Theme(msg) && theme_set_failed(msg@, widgets@, images@, fonts@),
            }),
    {
        let mut themes: Vec<WidgetTheme<V, F, D>> = Vec::new();
        let mut handles: Vec<(String, WidgetThemeHandle)> = Vec::new();
        themes.push(create_default());
        handles.push((String::from_str("default"), WidgetThemeHandle::at(0)));
        let ghost hs0 = handles@;
        proof {
            assert(table_of(hs0) =~= seq![(default_theme_id(), 0nat)]);
        }
        let ghost ws = widgets@;
        let top = String::new();
        let mut remaining = widgets;
        let mut k: usize = 0;
        let total = remaining.len();
        proof {
            assert(remaining@ == ws.subrange(0, ws.len() as int));
            assert(theme_ok(themes@, 0));
            assert(themes@[0].origins@ =~= initial_origins(0, 0));
        }
        while remaining.len() > 0
            invariant
                top@ == Seq::<char>::empty(),
                ws == widgets@,
                total == ws.len(),
                k <= ws.len(),
                remaining@ == ws.subrange(k as int, ws.len() as int),
                themes_ok(themes@),
                handles_ok(handles@, themes@.len()),
                themes@.len() == 1 + children_size(ws, k as nat),
                themes@[0].id@ == default_theme_id(),
                is_default_theme(themes@[0]),
                origins_initial(themes@),
                forall|j: int|
                    #![trigger ws[j]]
                    0 <= j < k ==> created(
                        themes@,
                        child_position(0, ws, j as nat),
                        ws[j].1,
                        ws[j].0@,
                        top@,
                        None,
                        images@,
                        fonts@,
                    ),
                children_error(ws, k as nat, top@, images@, fonts@) is None,
                table_of(hs0) == seq![(default_theme_id(), 0nat)],
                handles@ == children_handles(hs0, themes@, 0, ws, k as nat),
            decreases remaining@.len(),
        {
            let (id, def) = remaining.remove(0);
            let ghost before = themes@;
            let ghost before_handles = handles@;
            proof {
                assert(def == ws[k as int].1);
                assert(id == ws[k as int].0);
                lemma_children_size_step(ws, k as nat);
            }
            match create(&top, None, id, &mut handles, &mut themes, def, &images, &fonts) {
                Ok(_) => {
                    proof {
                        assert(themes@.take(before.len() as int)[0] == themes@[0]);
                        lemma_created_step(before, themes@, 0, ws, k as nat, top@, None, images@, fonts@);
                        assert forall|i: int| 1 <= i < 1 + children_size(ws, k as nat) implies before[i] == themes@[i] by {
                            assert(themes@.take(before.len() as int)[i] == themes@[i]);
                        }
                        lemma_children_handles_frame(hs0, before, themes@, 0, ws, k as nat);
                        assert(child_position(0, ws, k as nat) == before.len());
                    }
                },
                Err(e) => {
                    proof {
                        assert(definition_error(ws[k as int].1, ws[k as int].0@, top@, images@, fonts@) is Some);
                        assert(children_error(ws, (k + 1) as nat, top@, images@, fonts@) is Some);
                        lemma_children_error_persists(ws, (k + 1) as nat, ws.len(), top@, images@, fonts@);
                    }
                    return Err(e);
                },
            }
            k = k + 1;
            proof {
                assert(remaining@ =~= ws.subrange(k as int, ws.len() as int));
            }
        }
        let ghost made = themes@;
        let ghost made_handles = handles@;
        proof {
            assert(k == ws.len());
            assert(widgets_created(made, ws, images@, fonts@));
            assert(widgets_made(made, made_handles, ws, images@, fonts@));
            lemma_values_initial(made);
        }
        match resolve_all(&mut themes, &mut handles, Ghost(made)) {
            Ok(()) => {},
            Err(e) => {
                proof {
                    assert(widgets_made(made, made_handles, widgets@, images@, fonts@));
                }
                return Err(e);
            },
        }
        proof {
            let t0 = tree_of(made, made_handles);
            assert forall|i: int| 0 <= i < t0.table.len() implies #[trigger] t0.table[i].1 < t0.nodes.len() by {
                assert(made_handles[i].1@ < made.len());
            }
            assert(t0.nodes[0] == node_of(made[0]));
            lemma_resolution_keeps(t0, 0);
            let f0 = themes@[0];
            assert(tree_of(themes@, handles@).nodes[0] == node_of(f0));
            assert(node_of(f0) == node_of(made[0]));
            assert(f0.handle == made[0].handle);
            assert(keys_of(f0.custom@).len() == 0);
            assert(f0.children@.map_values(|h: WidgetThemeHandle| h@).len() == 0);
            assert(is_default_theme(f0));
            assert forall|w: int| 0 <= w < ws.len() implies crate::image_set::has_key(
                table_of(handles@),
                (#[trigger] ws[w]).0@,
            ) by {
                reveal(created);
                let p = child_position(0, ws, w as nat);
                assert(created(made, p, ws[w].1, ws[w].0@, Seq::empty(), None, images@, fonts@));
                assert(made[p].full_id@ == ws[w].0@);
                lemma_children_handles_has_child(hs0, made, 0, ws, ws.len(), w as nat);
            }
        }
        let set = ThemeSet { fonts, images, handles, themes };
        proof {
            assert(widgets_made(made, made_handles, widgets@, images@, fonts@) && settings_kept(set.themes_view(), made)
                && origins_initial(made) && values_traced(set.themes_view(), made));
        }
        Ok(set)
    }
}

/// The names of the built images, in the order of their handles.
pub open spec fn image_names(names: Seq<(String, usize)>) -> Seq<String> {
    names.map_values(|p: (String, usize)| p.0)
}

fn names_of(names: &Vec<(String, usize)>) -> (r: Vec<String>)
    ensures
        r@ == image_names(names@),
{
    let mut r: Vec<String> = Vec::new();
    let mut i: usize = 0;
    while i < names.len()
        invariant
            i <= names@.len(),
            r@ == image_names(names@.take(i as int)),
        decreases names@.len() - i,
    {
        r.push(names[i].0.clone());
        i = i + 1;
        proof {
            assert(r@ =~= image_names(names@.take(i as int)));
        }
    }
    proof {
        assert(names@.take(names@.len() as int) =~= names@);
    }
    r
}

/// Whether `named` pairs the name of each font definition with the summary of
/// the font registered for it, in the order of their handles.
pub open spec fn fonts_named<F>(named: Seq<(String, F)>, defs: Seq<(String, FontDefinition)>, summaries: Seq<F>) -> bool {
    &&& named.len() == defs.len()
    &&& summaries.len() == defs.len()
    &&& forall|i: int| 0 <= i < named.len() ==> (#[trigger] named[i]).0@ == defs[i].0@ && named[i].1 == summaries[i]
}

fn name_fonts<F: Copy>(defs: &Vec<(String, FontDefinition)>, summaries: &Vec<F>) -> (r: Vec<(String, F)>)
    requires
        summaries@.len() == defs@.len(),
    ensures
        fonts_named(r@, defs@, summaries@),
{
    let mut r: Vec<(String, F)> = Vec::new();
    let mut i: usize = 0;
    while i < defs.len()
        invariant
            i <= defs@.len(),
            summaries@.len() == defs@.len(),
            r@.len() == i,
            forall|j: int| 0 <= j < i ==> (#[trigger] r@[j]).0@ == defs@[j].0@ && r@[j].1 == summaries@[j],
        decreases defs@.len() - i,
    {
        r.push((defs[i].0.clone(), summaries[i]));
        i = i + 1;
    }
    r
}

proof fn lemma_name_position_found(names: Seq<String>, name: Seq<char>, i: int)
    requires
        0 <= i < names.len(),
        names[i]@ == name,
    ensures
        name_position(names, name) is Some,
    decreases i,
{
    if exists|j: int| 0 <= j < i && names[j]@ == name {
        let j = choose|j: int| 0 <= j < i && names[j]@ == name;
        lemma_name_position_found(names, name, j);
    } else {
        assert(is_first_name(names, name, i));
    }
}

impl<V: Copy, F: Copy, D: Clone> ThemeSet<V, F, D> {
    /// Builds the theme set of a theme, as its parts depend on each other: first
    /// its fonts (see `plan_fonts`; `fonts` holds the summary of each font as the
    /// renderer registered it, in the order of their handles), then its image sets
    /// (see `build_image_sets`), then its widget themes (see `new`), which name the
    /// fonts by their names and the built images by their full names.
    pub fn build<C: Copy, A: Copy>(
        widgets: Vec<(String, WidgetThemeDefinition<V, D>)>,
        font_defs: &Vec<(String, FontDefinition)>,
        font_sources: &Vec<String>,
        fonts: Vec<F>,
        image_sets: &Vec<(String, ImageSetDefinition<C, A>)>,
        textures: &Vec<String>,
        empty_color: C,
    ) -> (r: Result<(ThemeSet<V, F, D>, BuiltImages<C, A>), Error>)
        requires
            font_defs@.len() < MAX_RAW_HANDLE || font_source_error(font_defs@, font_sources@, MAX_RAW_HANDLE as int) is Some,
            font_source_error(font_defs@, font_sources@, font_defs@.len() as int) is None ==> fonts@.len()
                == font_defs@.len(),
            forall|s: int|
                0 <= s < image_sets@.len() ==> set_buildable(#[trigger] image_sets@[s].1, textures@, empty_color),
        ensures
            ({
                let font_error = font_source_error(font_defs@, font_sources@, font_defs@.len() as int);
                let images = sets_built(image_sets@, textures@, empty_color, image_sets@.len() as int);
                match r {
                    Ok((set, built)) => {
                        &&& font_error is None
                        &&& fonts_named(set.fonts_view(), font_defs@, fonts@)
                        &&& images == Ok::<(Seq<ImageModel<C, A>>, Seq<(Seq<char>, usize)>), Seq<char>>(
                            (built.images@.map_values(|b: BuiltImage<C, A>| b@), named(built.names@)),
                        )
                        &&& theme_set_made(set, widgets@, image_names(built.names@), set.fonts_view())
                        &&& forall|s: int|
                            0 <= s < image_sets@.len() ==> name_position(
                                set.images_view(),
                                (#[trigger] image_sets@[s]).0@ + "/"@ + "empty"@,
                            ) is Some
                    },
                    Err(e) => e matches Error::Theme(msg) && (font_error == Some(msg@) || (font_error is None && (
                    images == Err::<(Seq<ImageModel<C, A>>, Seq<(Seq<char>, usize)>), Seq<char>>(msg@) || (
                    images is Ok && exists|names: Seq<(String, usize)>, named_fonts: Seq<(String, F)>|
                        named(names) == images->Ok_0.1 && fonts_named(named_fonts, font_defs@, fonts@)
                            && theme_set_failed(msg@, widgets@, image_names(names), named_fonts))))),
                }
            }),
    {
        match plan_fonts(font_defs, font_sources) {
            Ok(_) => {},
            Err(e) => {
                return Err(e);
            },
        }
        let built = match build_image_sets(image_sets, textures, empty_color) {
            Ok(b) => b,
            Err(e) => {
                return Err(e);
            },
        };
        let named_fonts = name_fonts(font_defs, &fonts);
        let images = names_of(&built.names);
        proof {
            assert forall|s: int|
                0 <= s < image_sets@.len() implies name_position(
                images@,
                (#[trigger] image_sets@[s]).0@ + "/"@ + "empty"@,
            ) is Some by {
                let key = image_sets@[s].0@ + "/"@ + "empty"@;
                lemma_empty_image_named(image_sets@, textures@, empty_color, image_sets@.len() as int, s);
                let nm = named(built.names@);
                let i = choose|i: int| 0 <= i < nm.len() && nm[i].0 == key;
                assert(images@[i]@ == key);
                lemma_name_position_found(images@, key, i);
            }
        }
        match ThemeSet::new(widgets, images, named_fonts) {
            Ok(set) => Ok((set, built)),
            Err(e) => Err(e),
        }
    }
}

impl<V, F: Copy, D> ThemeSet<V, F, D> {
    /// The handle of the theme with the full identifier `id`, if any.
    pub fn handle(&self, id: &str) -> (r: Option<WidgetThemeHandle>)
        ensures
            r == lookup(self.handles_view(), id@),
    {
        match find_key(&self.handles, id) {
            Some(i) => Some(self.handles[i].1),
            None => None,
        }
    }

    /// The theme with the full identifier `id`, if any.
    pub fn theme(&self, id: &str) -> (r: Option<&WidgetTheme<V, F, D>>)
        ensures
            r == (match lookup(self.handles_view(), id@) {
                Some(h) => Some(&self.themes_view()[h@ as int]),
                None => None,
            }),
    {
        proof {
            use_type_invariant(self);
            lemma_lookup_ok(self.handles@, id@, self.themes@.len());
        }
        let count = self.themes.len();
        match self.handle(id) {
            Some(h) => {
                proof {
                    assert(h@ < count);
                }
                Some(&self.themes[h.index()])
            },
            None => None,
        }
    }

    /// The custom data under `key` of the theme with the full identifier
    /// `theme_id`, if there is such a theme and it has such data.
    pub fn custom(&self, theme_id: &str, key: &str) -> (r: Option<&D>)
        ensures
            (match lookup(self.handles_view(), theme_id@) {
                Some(h) => match r {
                    Some(d) => lookup(self.themes_view()[h@ as int].custom@, key@) == Some(*d),
                    None => lookup(self.themes_view()[h@ as int].custom@, key@) is None,
                },
                None => r is None,
            }),
    {
        match self.theme(theme_id) {
            None => None,
            Some(t) => match find_key(&t.custom, key) {
                Some(i) => Some(&t.custom[i].1),
                None => None,
            },
        }
    }

    /// The default theme, which sets nothing.
    pub fn default_theme(&self) -> (r: &WidgetTheme<V, F, D>)
        ensures
            *r == self.themes_view()[0],
    {
        proof {
            use_type_invariant(self);
        }
        &self.themes[0]
    }

    /// The font at the position of `handle` among the fonts; `build` holds them in
    /// the order of their handles, so this is the font registered with `handle`.
    pub fn font(&self, handle: FontHandle) -> (r: &F)
        requires
            handle@ < self.fonts_view().len(),
        ensures
            *r == self.fonts_view()[handle@ as int].1,
    {
        &self.fonts[handle.id()].1
    }

    /// The summary of the font named `id`, if any.
    pub fn find_font(&self, id: Option<&str>) -> (r: Option<F>)
        ensures
            r == (match id {
                Some(name) => lookup(self.fonts_view(), name@),
                None => None,
            }),
    {
        match id {
            None => None,
            Some(name) => match find_key(&self.fonts, name) {
                Some(i) => Some(self.fonts[i].1),
                None => None,
            },
        }
    }

    /// The handle of the image named `id`, if any.
    pub fn find_image(&self, id: Option<&str>) -> (r: Option<ImageHandle>)
        ensures
            image_position(r) == (match id {
                Some(name) => name_position(self.images_view(), name@),
                None => None,
            }),
    {
        match id {
            None => None,
            Some(name) => match find_name(&self.images, name) {
                Some(i) => Some(ImageHandle::new(i)),
                None => None,
            },
        }
    }
}

} // verus!
