//! Image sets.  Each image set of a theme names images on one texture.  An image
//! is drawn from a region of the texture, or is made of other images of its set.
//! Building the image sets turns their definitions into a list of images: aliases
//! are resolved, the images of groups are generated, and every image that is made
//! of others is linked to the positions of the images it names.

use vstd::prelude::*;
use vstd::string::*;
use vstd::multiset::Multiset;

use crate::Error;
use crate::text::{concat3, concat5, str_eq};

verus! {

// ---------------------------------------------------------------------------
// Keyed entries
// ---------------------------------------------------------------------------

/// Whether `i` is the position of the first entry keyed `key`.
pub open spec fn first_keyed<K, T>(entries: Seq<(K, T)>, key: K, i: int) -> bool {
    &&& 0 <= i < entries.len()
    &&& entries[i].0 == key
    &&& forall|j: int| 0 <= j < i ==> entries[j].0 != key
}

/// The position of the first entry keyed `key`, if any.
pub open spec fn keyed_position<K, T>(entries: Seq<(K, T)>, key: K) -> Option<int> {
    if exists|i: int| first_keyed(entries, key, i) {
        Some(choose|i: int| first_keyed(entries, key, i))
    } else {
        None
    }
}

/// Whether some entry is keyed `key`.
pub open spec fn has_key<K, T>(entries: Seq<(K, T)>, key: K) -> bool {
    exists|i: int| 0 <= i < entries.len() && entries[i].0 == key
}

/// The value of the first entry keyed `key`, if any.
pub open spec fn keyed_value<K, T>(entries: Seq<(K, T)>, key: K) -> Option<T> {
    match keyed_position(entries, key) {
        Some(i) => Some(entries[i].1),
        None => None,
    }
}

/// The entries after setting `key` to `value`, as a map does: the first entry
/// keyed `key` takes the value, or, if there is none, the pair is added at the end.
pub open spec fn keyed_set<K, T>(entries: Seq<(K, T)>, key: K, value: T) -> Seq<(K, T)> {
    match keyed_position(entries, key) {
        Some(i) => entries.update(i, (key, value)),
        None => entries.push((key, value)),
    }
}

/// The entries, each key taken by its characters.
pub open spec fn named<T>(entries: Seq<(String, T)>) -> Seq<(Seq<char>, T)> {
    entries.map_values(|e: (String, T)| (e.0@, e.1))
}

proof fn lemma_first_keyed_exists<K, T>(entries: Seq<(K, T)>, key: K, i: int)
    requires
        0 <= i < entries.len(),
        entries[i].0 == key,
    ensures
        exists|f: int| first_keyed(entries, key, f),
    decreases i,
{
    if exists|j: int| 0 <= j < i && entries[j].0 == key {
        let j = choose|j: int| 0 <= j < i && entries[j].0 == key;
        lemma_first_keyed_exists(entries, key, j);
    } else {
        assert(first_keyed(entries, key, i));
    }
}

proof fn lemma_first_keyed_unique<K, T>(entries: Seq<(K, T)>, key: K, i: int, j: int)
    requires
        first_keyed(entries, key, i),
        first_keyed(entries, key, j),
    ensures
        i == j,
{
}

/// The first position of a key is found exactly when some entry has that key.
pub proof fn lemma_keyed_position<K, T>(entries: Seq<(K, T)>, key: K)
    ensures
        keyed_position(entries, key) is Some <==> has_key(entries, key),
        keyed_position(entries, key) matches Some(i) ==> first_keyed(entries, key, i),
{
    if has_key(entries, key) {
        let i = choose|i: int| 0 <= i < entries.len() && entries[i].0 == key;
        lemma_first_keyed_exists(entries, key, i);
    }
}

/// Setting a key adds that key and no other, and changes the value of that key alone.
pub proof fn lemma_keyed_set<K, T>(entries: Seq<(K, T)>, key: K, value: T, other: K)
    ensures
        has_key(keyed_set(entries, key, value), other) <==> (has_key(entries, other) || other
            == key),
        keyed_value(keyed_set(entries, key, value), other) == (if other == key {
            Some(value)
        } else {
            keyed_value(entries, other)
        }),
{
    let s = keyed_set(entries, key, value);
    lemma_keyed_position(entries, key);
    lemma_keyed_position(entries, other);
    lemma_keyed_position(s, other);
    match keyed_position(entries, key) {
        Some(i) => {
            assert(forall|j: int| 0 <= j < s.len() ==> s[j].0 == entries[j].0);
            if has_key(entries, other) {
                let w = choose|w: int| 0 <= w < entries.len() && entries[w].0 == other;
                assert(s[w].0 == other);
            }
            if has_key(s, other) {
                let w = choose|w: int| 0 <= w < s.len() && s[w].0 == other;
                assert(entries[w].0 == other);
            }
            if other == key {
                assert(first_keyed(s, key, i));
                let p = keyed_position(s, other)->0;
                lemma_first_keyed_unique(s, key, i, p);
            } else if has_key(entries, other) {
                let p = keyed_position(entries, other)->0;
                assert(first_keyed(s, other, p));
                let q = keyed_position(s, other)->0;
                lemma_first_keyed_unique(s, other, p, q);
                assert(p != i);
            }
        },
        None => {
            assert(s[entries.len() as int].0 == key);
            if has_key(entries, other) {
                let w = choose|w: int| 0 <= w < entries.len() && entries[w].0 == other;
                assert(s[w].0 == other);
                let p = keyed_position(entries, other)->0;
                assert(first_keyed(s, other, p));
                let q = keyed_position(s, other)->0;
                lemma_first_keyed_unique(s, other, p, q);
            }
            if has_key(s, other) {
                let w = choose|w: int| 0 <= w < s.len() && s[w].0 == other;
                if w < entries.len() {
                    assert(entries[w].0 == other);
                }
            }
            if other == key {
                assert(first_keyed(s, key, entries.len() as int));
                let q = keyed_position(s, other)->0;
                lemma_first_keyed_unique(s, key, entries.len() as int, q);
            }
        },
    }
}

/// Finds the position of the first entry whose key is `key`.
pub(crate) fn find_entry<T>(entries: &Vec<(String, T)>, key: &str) -> (r: Option<usize>)
    ensures
        match r {
            Some(i) => keyed_position(named(entries@), key@) == Some(i as int),
            None => keyed_position(named(entries@), key@) is None,
        },
{
    let ghost n = named(entries@);
    let mut i: usize = 0;
    while i < entries.len()
        invariant
            n == named(entries@),
            i <= entries@.len(),
            forall|j: int| 0 <= j < i ==> n[j].0 != key@,
        decreases entries@.len() - i,
    {
        if str_eq(entries[i].0.as_str(), key) {
            proof {
                assert(first_keyed(n, key@, i as int));
                lemma_keyed_position(n, key@);
                lemma_first_keyed_unique(n, key@, i as int, keyed_position(n, key@)->0);
            }
            return Some(i);
        }
        i = i + 1;
    }
    proof {
        lemma_keyed_position(n, key@);
    }
    None
}

/// Sets `key` to `value`, as a map does.
pub(crate) fn put_entry<T>(entries: &mut Vec<(String, T)>, key: String, value: T)
    ensures
        named(final(entries)@) == keyed_set(named(old(entries)@), key@, value),
{
    match find_entry(entries, key.as_str()) {
        Some(i) => {
            let (k, _) = entries.remove(i);
            entries.insert(i, (k, value));
            proof {
                assert(named(entries@) =~= keyed_set(named(old(entries)@), key@, value));
            }
        },
        None => {
            entries.push((key, value));
            proof {
                assert(named(entries@) =~= keyed_set(named(old(entries)@), key@, value));
            }
        },
    }
}

// ---------------------------------------------------------------------------
// Definitions and built images
// ---------------------------------------------------------------------------

/// How an image drawn from a region of the texture fills the area it is drawn in.
#[derive(Copy, Clone, Debug, PartialEq, Eq, Structural)]
pub enum ImageFill {
    /// Drawn once, at its base size.
    BaseSize,
    /// Stretched over the whole area.
    Stretch,
    /// Repeated at its base size over the whole area.
    Repeat,
}

/// Where a sub image stands in the image that collects it, and its size.
#[derive(Copy, Clone, Debug, PartialEq, Eq)]
pub struct SubImageDefinition {
    pub position: (u32, u32),
    pub size: (u32, u32),
}

/// The definition of an image, by kind.  Positions and sizes are in texels of
/// the set's texture.
pub enum ImageDefinitionKind<A> {
    /// Draws nothing.
    Empty,
    /// The same image as the one named `from`.
    Alias { from: String },
    /// One simple image per entry, at `(x, y)` with size `(w, h)` in units of `group_scale`.
    Group { group_scale: (u32, u32), fill: ImageFill, images: Vec<(String, (u32, u32, u32, u32))> },
    /// One simple image per entry, at `(x, y)` in units of `group_scale`, one unit in size.
    Group1x1 { group_scale: (u32, u32), fill: ImageFill, images: Vec<(String, (u32, u32))> },
    /// One composed image per entry, at `(x, y)`, with the given grid.
    ComposedGroup { grid_size: (u32, u32), images: Vec<(String, (u32, u32))> },
    /// A three by three grid of cells, the middle row and column stretching.
    Composed { grid_size: (u32, u32), position: (u32, u32) },
    /// A row of three cells, the middle one stretching.
    ComposedHorizontal { grid_size_horiz: (u32, u32), position: (u32, u32) },
    /// A column of three cells, the middle one stretching.
    ComposedVertical { grid_size_vert: (u32, u32), position: (u32, u32) },
    /// A single solid color.
    Solid,
    /// One region of the texture.
    Simple { size: (u32, u32), position: (u32, u32), fill: ImageFill },
    /// Other images of the set, each drawn at its own place.
    Collected { sub_images: Vec<(String, SubImageDefinition)> },
    /// Other images of the set, shown in turn for `frame_time_millis` each.
    Timed { frame_time_millis: u32, frames: Vec<String>, once: bool },
    /// Other images of the set, one per animation state.
    Animated { states: Vec<(A, String)> },
}

/// The definition of an image: its color and its kind.
pub struct ImageDefinition<C, A> {
    pub color: C,
    pub kind: ImageDefinitionKind<A>,
}

/// An image set: the texture it is drawn from (or the built-in single white
/// texel, when it names none) and its images by name.
pub struct ImageSetDefinition<C, A> {
    pub source: Option<String>,
    pub images: Vec<(String, ImageDefinition<C, A>)>,
}

/// A built image, by kind.  An image made of others names them by their position
/// in the list of built images.
#[derive(Debug, PartialEq)]
pub enum BuiltImageKind<A> {
    Empty,
    Solid,
    Simple { position: (u32, u32), size: (u32, u32), fill: ImageFill },
    Composed { position: (u32, u32), grid_size: (u32, u32) },
    ComposedHorizontal { position: (u32, u32), grid_size: (u32, u32) },
    ComposedVertical { position: (u32, u32), grid_size: (u32, u32) },
    Collected { sub_images: Vec<(usize, SubImageDefinition)> },
    Timed { frame_time_millis: u32, frames: Vec<usize>, once: bool },
    Animated { states: Vec<(A, usize)> },
}

/// A built image: the position of its image set, its color and its kind.
#[derive(Debug, PartialEq)]
pub struct BuiltImage<C, A> {
    pub set: usize,
    pub color: C,
    pub kind: BuiltImageKind<A>,
}

/// A built image, by kind, as a mathematical value.
pub enum ImageShape<A> {
    Empty,
    Solid,
    Simple { position: (u32, u32), size: (u32, u32), fill: ImageFill },
    Composed { position: (u32, u32), grid_size: (u32, u32) },
    ComposedHorizontal { position: (u32, u32), grid_size: (u32, u32) },
    ComposedVertical { position: (u32, u32), grid_size: (u32, u32) },
    Collected { sub_images: Seq<(usize, SubImageDefinition)> },
    Timed { frame_time_millis: u32, frames: Seq<usize>, once: bool },
    Animated { states: Seq<(A, usize)> },
}

/// A built image as a mathematical value.
pub struct ImageModel<C, A> {
    pub set: usize,
    pub color: C,
    pub shape: ImageShape<A>,
}

impl<C, A> View for BuiltImage<C, A> {
    type V = ImageModel<C, A>;

    open spec fn view(&self) -> ImageModel<C, A> {
        ImageModel {
            set: self.set,
            color: self.color,
            shape: match self.kind {
                BuiltImageKind::Empty => ImageShape::Empty,
                BuiltImageKind::Solid => ImageShape::Solid,
                BuiltImageKind::Simple { position, size, fill } => ImageShape::Simple {
                    position,
                    size,
                    fill,
                },
                BuiltImageKind::Composed { position, grid_size } => ImageShape::Composed {
                    position,
                    grid_size,
                },
                BuiltImageKind::ComposedHorizontal { position, grid_size } =>
                    ImageShape::ComposedHorizontal { position, grid_size },
                BuiltImageKind::ComposedVertical { position, grid_size } =>
                    ImageShape::ComposedVertical { position, grid_size },
                BuiltImageKind::Collected { sub_images } => ImageShape::Collected {
                    sub_images: sub_images@,
                },
                BuiltImageKind::Timed { frame_time_millis, frames, once } => ImageShape::Timed {
                    frame_time_millis,
                    frames: frames@,
                    once,
                },
                BuiltImageKind::Animated { states } => ImageShape::Animated { states: states@ },
            },
        }
    }
}

/// The images built so far and the names by which the set reaches them.
pub struct BuildState<C, A> {
    pub images: Seq<ImageModel<C, A>>,
    pub names: Seq<(Seq<char>, usize)>,
}

/// The state held by the list of built images and the names of the set.
pub open spec fn state_of<C, A>(images: Seq<BuiltImage<C, A>>, names: Seq<(String, usize)>) -> BuildState<C, A> {
    BuildState { images: images.map_values(|b: BuiltImage<C, A>| b@), names: named(names) }
}

/// The state after adding `image` under the name `key`; later lookups of `key`
/// find it.
pub open spec fn added<C, A>(st: BuildState<C, A>, key: Seq<char>, image: ImageModel<C, A>) -> BuildState<C, A> {
    BuildState { images: st.images.push(image), names: keyed_set(st.names, key, st.images.len() as usize) }
}

/// The position of the image named `key`, or zero when there is none.
pub open spec fn position_named(names: Seq<(Seq<char>, usize)>, key: Seq<char>) -> usize {
    match keyed_value(names, key) {
        Some(p) => p,
        None => 0,
    }
}

// ---------------------------------------------------------------------------
// Collected images
// ---------------------------------------------------------------------------

/// The sub images that a collected image names; none for another kind.
pub open spec fn sub_images_of<C, A>(def: ImageDefinition<C, A>) -> Seq<(String, SubImageDefinition)> {
    match def.kind {
        ImageDefinitionKind::Collected { sub_images } => sub_images@,
        _ => Seq::empty(),
    }
}

/// Whether every image that `def` collects is named in `names`.
pub open spec fn sub_images_found<C, A>(def: ImageDefinition<C, A>, names: Seq<(Seq<char>, usize)>) -> bool {
    forall|i: int|
        0 <= i < sub_images_of(def).len() ==> has_key(names, #[trigger] sub_images_of(def)[i].0@)
}

/// The collected image of `def`, each of its sub images taken from `names`.
pub open spec fn collected_image<C, A>(set: usize, def: ImageDefinition<C, A>, names: Seq<(Seq<char>, usize)>) -> ImageModel<C, A> {
    ImageModel {
        set,
        color: def.color,
        shape: ImageShape::Collected {
            sub_images: sub_images_of(def).map_values(
                |s: (String, SubImageDefinition)| (position_named(names, s.0@), s.1),
            ),
        },
    }
}

/// Builds the collected image of `item` under its name, if every image it
/// collects is there.
pub open spec fn collect_one<C, A>(item: (Seq<char>, ImageDefinition<C, A>), st: BuildState<C, A>, set: usize) -> Option<BuildState<C, A>> {
    if sub_images_found(item.1, st.names) {
        Some(added(st, item.0, collected_image(set, item.1, st.names)))
    } else {
        None
    }
}

/// Builds the collected images one after another in the given order; fails if
/// one of them, when its turn comes, collects an image that is not there.
pub open spec fn collect_in_order<C, A>(order: Seq<(Seq<char>, ImageDefinition<C, A>)>, st: BuildState<C, A>, set: usize) -> Option<BuildState<C, A>>
    decreases order.len(),
{
    if order.len() == 0 {
        Some(st)
    } else {
        match collect_in_order(order.drop_last(), st, set) {
            Some(s) => collect_one(order.last(), s, set),
            None => None,
        }
    }
}

/// Builds the waiting collected images in turns: the first one is built if every
/// image it collects is there, and otherwise waits again at the back.  Building
/// fails once more of them have failed in a row than are waiting.
pub open spec fn collect_in_turns<C, A>(queue: Seq<(Seq<char>, ImageDefinition<C, A>)>, st: BuildState<C, A>, failures: nat, set: usize) -> Option<BuildState<C, A>>
    decreases queue.len(), queue.len() + 1 - failures,
{
    if queue.len() == 0 {
        Some(st)
    } else if failures > queue.len() {
        None
    } else {
        match collect_one(queue[0], st, set) {
            Some(next) => collect_in_turns(queue.drop_first(), next, 0, set),
            None => collect_in_turns(queue.drop_first().push(queue[0]), st, failures + 1, set),
        }
    }
}

/// Whether one of the items is named `key`.
pub open spec fn names_item<C, A>(items: Seq<(Seq<char>, ImageDefinition<C, A>)>, key: Seq<char>) -> bool {
    exists|m: int| 0 <= m < items.len() && items[m].0 == key
}

proof fn lemma_collect_in_order_names<C, A>(order: Seq<(Seq<char>, ImageDefinition<C, A>)>, st: BuildState<C, A>, set: usize, key: Seq<char>)
    requires
        collect_in_order(order, st, set) is Some,
    ensures
        has_key(collect_in_order(order, st, set)->0.names, key) <==> (has_key(st.names, key)
            || names_item(order, key)),
    decreases order.len(),
{
    if order.len() > 0 {
        let prev = order.drop_last();
        lemma_collect_in_order_names(prev, st, set, key);
        let s = collect_in_order(prev, st, set)->0;
        lemma_keyed_set(s.names, order.last().0, s.images.len() as usize, key);
        if names_item(order, key) && !names_item(prev, key) {
            let m = choose|m: int| 0 <= m < order.len() && order[m].0 == key;
            if m < prev.len() {
                assert(prev[m].0 == key);
            }
        }
        if names_item(prev, key) {
            let m = choose|m: int| 0 <= m < prev.len() && prev[m].0 == key;
            assert(order[m].0 == key);
        }
    }
}

proof fn lemma_collect_in_order_fails_on<C, A>(order: Seq<(Seq<char>, ImageDefinition<C, A>)>, st: BuildState<C, A>, set: usize, k: int)
    requires
        0 <= k < order.len(),
        collect_in_order(order.take(k + 1), st, set) is None,
    ensures
        collect_in_order(order, st, set) is None,
    decreases order.len() - k,
{
    if k + 1 < order.len() {
        assert(order.take(k + 2).drop_last() =~= order.take(k + 1));
        lemma_collect_in_order_fails_on(order, st, set, k + 1);
    } else {
        assert(order.take(k + 1) =~= order);
    }
}

/// The first position of the order whose item is still waiting in `queue`.
proof fn lemma_first_waiting<C, A>(order: Seq<(Seq<char>, ImageDefinition<C, A>)>, queue: Seq<(Seq<char>, ImageDefinition<C, A>)>, i: int) -> (k: int)
    requires
        0 <= i < order.len(),
        queue.to_multiset().count(order[i]) > 0,
    ensures
        0 <= k <= i,
        queue.to_multiset().count(order[k]) > 0,
        forall|j: int| 0 <= j < k ==> queue.to_multiset().count(#[trigger] order[j]) == 0,
    decreases i,
{
    if exists|j: int| 0 <= j < i && queue.to_multiset().count(#[trigger] order[j]) > 0 {
        let j = choose|j: int| 0 <= j < i && queue.to_multiset().count(#[trigger] order[j]) > 0;
        lemma_first_waiting(order, queue, j)
    } else {
        i
    }
}

/// When every waiting image collects an image that is not there, and the images
/// built so far came from `done`, no order of all the images builds them.
proof fn lemma_stuck_fails<C, A>(
    done: Seq<(Seq<char>, ImageDefinition<C, A>)>,
    queue: Seq<(Seq<char>, ImageDefinition<C, A>)>,
    st0: BuildState<C, A>,
    st: BuildState<C, A>,
    set: usize,
    order: Seq<(Seq<char>, ImageDefinition<C, A>)>,
)
    requires
        queue.len() > 0,
        collect_in_order(done, st0, set) == Some(st),
        forall|i: int| 0 <= i < queue.len() ==> !sub_images_found(#[trigger] queue[i].1, st.names),
        order.to_multiset() == done.to_multiset().add(queue.to_multiset()),
    ensures
        collect_in_order(order, st0, set) is None,
{
    broadcast use vstd::seq_lib::group_to_multiset_ensures;
    broadcast use vstd::multiset::group_multiset_axioms;

    assert(queue.to_multiset().count(queue[0]) > 0);
    assert(order.to_multiset().count(queue[0]) > 0);
    let i = choose|i: int| 0 <= i < order.len() && order[i] == queue[0];
    assert(queue.to_multiset().count(order[i]) > 0);
    let k = lemma_first_waiting(order, queue, i);
    let qi = choose|qi: int| 0 <= qi < queue.len() && queue[qi] == order[k];
    assert(!sub_images_found(order[k].1, st.names));
    let prefix = order.take(k);
    match collect_in_order(prefix, st0, set) {
        None => {
            assert(order.take(k + 1).drop_last() =~= prefix);
            lemma_collect_in_order_fails_on(order, st0, set, k);
        },
        Some(sk) => {
            let subs = sub_images_of(order[k].1);
            let m = choose|m: int| 0 <= m < subs.len() && !has_key(st.names, #[trigger] subs[m].0@);
            let missing = subs[m].0@;
            lemma_collect_in_order_names(done, st0, set, missing);
            lemma_collect_in_order_names(prefix, st0, set, missing);
            if names_item(prefix, missing) {
                let j = choose|j: int| 0 <= j < prefix.len() && prefix[j].0 == missing;
                assert(order[j] == prefix[j]);
                assert(queue.to_multiset().count(order[j]) == 0);
                assert(order.to_multiset().count(order[j]) > 0);
                assert(done.to_multiset().count(order[j]) > 0);
                let d = choose|d: int| 0 <= d < done.len() && done[d] == order[j];
                assert(names_item(done, missing));
            }
            assert(!has_key(sk.names, missing));
            assert(!sub_images_found(order[k].1, sk.names));
            assert(order.take(k + 1).drop_last() =~= prefix);
            assert(order.take(k + 1).last() == order[k]);
            lemma_collect_in_order_fails_on(order, st0, set, k);
        },
    }
}

/// Building in turns from the state that `done` built, with the last `failures`
/// waiting images (or all of them) known to fail, agrees with building in some
/// order of all the images, or fails when every order fails.
proof fn lemma_turns_orders<C, A>(
    done: Seq<(Seq<char>, ImageDefinition<C, A>)>,
    queue: Seq<(Seq<char>, ImageDefinition<C, A>)>,
    st0: BuildState<C, A>,
    st: BuildState<C, A>,
    failures: nat,
    set: usize,
)
    requires
        collect_in_order(done, st0, set) == Some(st),
        forall|i: int|
            queue.len() - failures <= i < queue.len() && 0 <= i ==> !sub_images_found(
                #[trigger] queue[i].1,
                st.names,
            ),
    ensures
        match collect_in_turns(queue, st, failures, set) {
            Some(r) => exists|order: Seq<(Seq<char>, ImageDefinition<C, A>)>|
                order.to_multiset() == done.to_multiset().add(queue.to_multiset()) && collect_in_order(
                    order,
                    st0,
                    set,
                ) == Some(r),
            None => forall|order: Seq<(Seq<char>, ImageDefinition<C, A>)>|
                order.to_multiset() == done.to_multiset().add(queue.to_multiset()) ==> collect_in_order(
                    order,
                    st0,
                    set,
                ) is None,
        },
    decreases queue.len(), queue.len() + 1 - failures,
{
    broadcast use vstd::seq_lib::group_to_multiset_ensures;
    broadcast use vstd::multiset::group_multiset_axioms;

    if queue.len() == 0 {
        assert(done.to_multiset().add(queue.to_multiset()) =~= done.to_multiset());
    } else if failures > queue.len() {
        assert forall|order: Seq<(Seq<char>, ImageDefinition<C, A>)>|
            order.to_multiset() == done.to_multiset().add(queue.to_multiset()) implies collect_in_order(
            order,
            st0,
            set,
        ) is None by {
            lemma_stuck_fails(done, queue, st0, st, set, order);
        }
    } else {
        let x = queue[0];
        let rest = queue.drop_first();
        assert(queue =~= seq![x] + rest);
        vstd::seq_lib::lemma_multiset_commutative(seq![x], rest);
        match collect_one(x, st, set) {
            Some(next) => {
                let done2 = done.push(x);
                assert(done2.drop_last() =~= done);
                assert(collect_in_order(done2, st0, set) == Some(next));
                assert(done2.to_multiset().add(rest.to_multiset()) =~= done.to_multiset().add(
                    queue.to_multiset(),
                ));
                lemma_turns_orders(done2, rest, st0, next, 0, set);
            },
            None => {
                let queue2 = rest.push(x);
                assert(queue2 =~= rest + seq![x]);
                vstd::seq_lib::lemma_multiset_commutative(rest, seq![x]);
                assert(queue2.to_multiset() =~= queue.to_multiset());
                assert forall|i: int|
                    queue2.len() - (failures + 1) <= i < queue2.len() && 0 <= i implies !sub_images_found(
                    #[trigger] queue2[i].1,
                    st.names,
                ) by {
                    if i < queue2.len() - 1 {
                        assert(queue2[i] == queue[i + 1]);
                    }
                }
                lemma_turns_orders(done, queue2, st0, st, failures + 1, set);
            },
        }
    }
}

/// Collected images may collect one another.  Building them in turns succeeds
/// exactly when they can all be built in some order in which each one collects
/// only images that are already there; it then gives what building in such an
/// order gives.  When it fails, every order fails.
pub proof fn lemma_collected_order<C, A>(items: Seq<(Seq<char>, ImageDefinition<C, A>)>, st: BuildState<C, A>, set: usize)
    ensures
        match collect_in_turns(items, st, 0, set) {
            Some(r) => exists|order: Seq<(Seq<char>, ImageDefinition<C, A>)>|
                order.to_multiset() == items.to_multiset() && collect_in_order(order, st, set)
                    == Some(r),
            None => forall|order: Seq<(Seq<char>, ImageDefinition<C, A>)>|
                order.to_multiset() == items.to_multiset() ==> collect_in_order(order, st, set) is None,
        },
{
    broadcast use vstd::seq_lib::group_to_multiset_ensures;
    broadcast use vstd::multiset::group_multiset_axioms;

    let none: Seq<(Seq<char>, ImageDefinition<C, A>)> = Seq::empty();
    assert(none.to_multiset() =~= Multiset::empty());
    assert(none.to_multiset().add(items.to_multiset()) =~= items.to_multiset());
    lemma_turns_orders(none, items, st, st, 0, set);
}


/// The waiting collected images: each takes its name from one position of the
/// definitions and its definition from another (they differ for an alias).
pub open spec fn queued_items<C, A>(defs: Seq<(String, ImageDefinition<C, A>)>, queue: Seq<(usize, usize)>) -> Seq<(Seq<char>, ImageDefinition<C, A>)> {
    queue.map_values(|p: (usize, usize)| (defs[p.0 as int].0@, defs[p.1 as int].1))
}

/// Whether every position in the queue is a position of the definitions.
pub open spec fn queue_in_bounds<C, A>(defs: Seq<(String, ImageDefinition<C, A>)>, queue: Seq<(usize, usize)>) -> bool {
    forall|i: int| 0 <= i < queue.len() ==> #[trigger] queue[i].0 < defs.len() && queue[i].1 < defs.len()
}

/// Builds the collected image named by the definition at `key`, defined by the
/// definition at `def`, if every image it collects is there.
fn collect_image<C: Copy, A: Copy>(
    defs: &Vec<(String, ImageDefinition<C, A>)>,
    key: usize,
    def: usize,
    images: &mut Vec<BuiltImage<C, A>>,
    names: &mut Vec<(String, usize)>,
    set: usize,
) -> (ok: bool)
    requires
        key < defs@.len(),
        def < defs@.len(),
    ensures
        collect_one((defs@[key as int].0@, defs@[def as int].1), state_of(old(images)@, old(names)@), set)
            == (if ok {
            Some(state_of(final(images)@, final(names)@))
        } else {
            None
        }),
        !ok ==> final(images)@ == old(images)@ && final(names)@ == old(names)@,
{
    let d = &defs[def].1;
    let ghost n = named(names@);
    let mut subs: Vec<(usize, SubImageDefinition)> = Vec::new();
    match &d.kind {
        ImageDefinitionKind::Collected { sub_images } => {
            let ghost s = sub_images_of(*d);
            let mut i: usize = 0;
            while i < sub_images.len()
                invariant
                    s == sub_images@,
                    s == sub_images_of(*d),
                    *d == defs@[def as int].1,
                    n == named(names@),
                    names@ == old(names)@,
                    images@ == old(images)@,
                    i <= s.len(),
                    subs@ == s.take(i as int).map_values(
                        |e: (String, SubImageDefinition)| (position_named(n, e.0@), e.1),
                    ),
                    forall|j: int| 0 <= j < i ==> has_key(n, #[trigger] s[j].0@),
                decreases s.len() - i,
            {
                match find_entry(names, sub_images[i].0.as_str()) {
                    Some(p) => {
                        proof {
                            lemma_keyed_position(n, s[i as int].0@);
                        }
                        subs.push((names[p].1, sub_images[i].1));
                        proof {
                            assert(subs@ =~= s.take(i + 1).map_values(
                                |e: (String, SubImageDefinition)| (position_named(n, e.0@), e.1),
                            ));
                        }
                    },
                    None => {
                        proof {
                            lemma_keyed_position(n, s[i as int].0@);
                            assert(!has_key(n, sub_images_of(*d)[i as int].0@));
                        }
                        return false;
                    },
                }
                i = i + 1;
            }
            proof {
                assert(s.take(s.len() as int) =~= s);
            }
        },
        _ => {
            proof {
                assert(subs@ =~= sub_images_of(*d).map_values(
                    |e: (String, SubImageDefinition)| (position_named(n, e.0@), e.1),
                ));
            }
        },
    }
    let idx = images.len();
    let ghost before = state_of(images@, names@);
    images.push(BuiltImage { set, color: d.color, kind: BuiltImageKind::Collected { sub_images: subs } });
    put_entry(names, defs[key].0.clone(), idx);
    proof {
        assert(state_of(images@, names@).images =~= before.images.push(collected_image(set, *d, n)));
    }
    true
}

/// Builds the waiting collected images in turns (see `collect_in_turns`).
fn collect_waiting<C: Copy, A: Copy>(
    defs: &Vec<(String, ImageDefinition<C, A>)>,
    queue: Vec<(usize, usize)>,
    images: &mut Vec<BuiltImage<C, A>>,
    names: &mut Vec<(String, usize)>,
    set: usize,
) -> (ok: bool)
    requires
        queue_in_bounds(defs@, queue@),
    ensures
        collect_in_turns(queued_items(defs@, queue@), state_of(old(images)@, old(names)@), 0, set)
            == (if ok {
            Some(state_of(final(images)@, final(names)@))
        } else {
            None
        }),
{
    let ghost goal = collect_in_turns(queued_items(defs@, queue@), state_of(images@, names@), 0, set);
    let mut q = queue;
    let mut failures: usize = 0;
    loop
        invariant
            goal == collect_in_turns(
                queued_items(defs@, queue@),
                state_of(old(images)@, old(names)@),
                0,
                set,
            ),
            queue_in_bounds(defs@, q@),
            failures <= q@.len(),
            collect_in_turns(queued_items(defs@, q@), state_of(images@, names@), failures as nat, set)
                == goal,
        decreases q@.len(), q@.len() + 1 - failures,
    {
        if q.len() == 0 {
            return true;
        }
        let ghost items = queued_items(defs@, q@);
        let ghost st = state_of(images@, names@);
        let len = q.len();
        let (k, t) = q.remove(0);
        proof {
            assert(queued_items(defs@, q@) =~= items.drop_first());
            assert(items[0] == (defs@[k as int].0@, defs@[t as int].1));
        }
        if collect_image(defs, k, t, images, names, set) {
            proof {
                assert(collect_in_turns(items, st, failures as nat, set) == collect_in_turns(
                    items.drop_first(),
                    state_of(images@, names@),
                    0,
                    set,
                ));
            }
            failures = 0;
        } else {
            if failures == len {
                proof {
                    assert(collect_in_turns(items.drop_first().push(items[0]), st, (failures + 1) as nat, set) is None);
                }
                return false;
            }
            q.push((k, t));
            failures = failures + 1;
            proof {
                assert(queued_items(defs@, q@) =~= items.drop_first().push(items[0]));
                assert(collect_in_turns(items, st, (failures - 1) as nat, set) == collect_in_turns(
                    items.drop_first().push(items[0]),
                    st,
                    failures as nat,
                    set,
                ));
            }
        }
    }
}


// ---------------------------------------------------------------------------
// The images of a set, aliases resolved
// ---------------------------------------------------------------------------

/// The definition of the image `empty`, which every set holds and which draws
/// nothing.
pub open spec fn empty_definition<C, A>(color: C) -> ImageDefinition<C, A> {
    ImageDefinition { color, kind: ImageDefinitionKind::Empty }
}

/// The images of a set once `empty` is set to draw nothing.
pub open spec fn with_empty<C, A>(defs: Seq<(String, ImageDefinition<C, A>)>, color: C) -> Seq<(Seq<char>, ImageDefinition<C, A>)> {
    keyed_set(named(defs), "empty"@, empty_definition(color))
}

/// The definition that `def` stands for among `defs`: an alias stands for the
/// definition it names, when there is one; any other definition for itself.
pub open spec fn resolved<C, A>(defs: Seq<(Seq<char>, ImageDefinition<C, A>)>, def: ImageDefinition<C, A>) -> ImageDefinition<C, A> {
    match def.kind {
        ImageDefinitionKind::Alias { from } => match keyed_value(defs, from@) {
            Some(target) => target,
            None => def,
        },
        _ => def,
    }
}

/// The images of a set, `empty` set to draw nothing and each alias replaced by
/// the definition it names.
pub open spec fn set_entries<C, A>(defs: Seq<(String, ImageDefinition<C, A>)>, color: C) -> Seq<(Seq<char>, ImageDefinition<C, A>)> {
    let w = with_empty(defs, color);
    w.map_values(|e: (Seq<char>, ImageDefinition<C, A>)| (e.0, resolved(w, e.1)))
}

/// The message of an alias that names no image of its set.
pub open spec fn alias_missing_message(from: Seq<char>) -> Seq<char> {
    "Unable to locate image alias from '"@ + from + "'"@
}

/// The message for the first alias, among the first `n` images, that names no
/// image of its set.
pub open spec fn alias_error<C, A>(defs: Seq<(Seq<char>, ImageDefinition<C, A>)>, n: int) -> Option<Seq<char>>
    decreases n,
{
    if n <= 0 {
        None
    } else {
        match alias_error(defs, n - 1) {
            Some(e) => Some(e),
            None => match defs[n - 1].1.kind {
                ImageDefinitionKind::Alias { from } => if has_key(defs, from@) {
                    None
                } else {
                    Some(alias_missing_message(from@))
                },
                _ => None,
            },
        }
    }
}

/// Whether some alias names another alias.
pub open spec fn alias_chain<C, A>(defs: Seq<(Seq<char>, ImageDefinition<C, A>)>) -> bool {
    exists|i: int|
        0 <= i < defs.len() && (#[trigger] defs[i].1).kind is Alias && resolved(
            defs,
            defs[i].1,
        ).kind is Alias
}

/// Whether every position and size that a group scales fits in 32 bits.
pub open spec fn group_fits<C, A>(def: ImageDefinition<C, A>) -> bool {
    match def.kind {
        ImageDefinitionKind::Group { group_scale, fill, images } => forall|i: int|
            0 <= i < images@.len() ==> {
                let r = (#[trigger] images@[i]).1;
                &&& r.0 * group_scale.0 <= u32::MAX
                &&& r.1 * group_scale.1 <= u32::MAX
                &&& r.2 * group_scale.0 <= u32::MAX
                &&& r.3 * group_scale.1 <= u32::MAX
            },
        ImageDefinitionKind::Group1x1 { group_scale, fill, images } => forall|i: int|
            0 <= i < images@.len() ==> {
                let r = (#[trigger] images@[i]).1;
                &&& r.0 * group_scale.0 <= u32::MAX
                &&& r.1 * group_scale.1 <= u32::MAX
            },
        _ => true,
    }
}

/// The image a definition of a single region (or of nothing) makes.
pub open spec fn plain_model<C, A>(def: ImageDefinition<C, A>, set: usize) -> ImageModel<C, A> {
    ImageModel {
        set,
        color: def.color,
        shape: match def.kind {
            ImageDefinitionKind::Solid => ImageShape::Solid,
            ImageDefinitionKind::Simple { size, position, fill } => ImageShape::Simple {
                position,
                size,
                fill,
            },
            ImageDefinitionKind::Composed { grid_size, position } => ImageShape::Composed {
                position,
                grid_size,
            },
            ImageDefinitionKind::ComposedHorizontal { grid_size_horiz, position } =>
                ImageShape::ComposedHorizontal { position, grid_size: grid_size_horiz },
            ImageDefinitionKind::ComposedVertical { grid_size_vert, position } =>
                ImageShape::ComposedVertical { position, grid_size: grid_size_vert },
            _ => ImageShape::Empty,
        },
    }
}

/// A definition of a single region builds an image of the same kind, with the
/// same position, size, grid and fill, and with the definition's color; any other
/// definition that is built on its own builds an empty image.
pub proof fn lemma_plain_kinds_kept<C, A>(def: ImageDefinition<C, A>, set: usize)
    ensures
        plain_model(def, set).set == set,
        plain_model(def, set).color == def.color,
        def.kind is Empty ==> plain_model(def, set).shape is Empty,
        def.kind is Solid ==> plain_model(def, set).shape is Solid,
        def.kind matches ImageDefinitionKind::Simple { size, position, fill } ==> plain_model(def, set).shape
            matches ImageShape::Simple { position: p, size: s, fill: f } && p == position && s == size && f == fill,
        def.kind matches ImageDefinitionKind::Composed { grid_size, position } ==> plain_model(def, set).shape
            matches ImageShape::Composed { position: p, grid_size: g } && p == position && g == grid_size,
        def.kind matches ImageDefinitionKind::ComposedHorizontal { grid_size_horiz, position } ==> plain_model(
            def,
            set,
        ).shape matches ImageShape::ComposedHorizontal { position: p, grid_size: g } && p == position && g
            == grid_size_horiz,
        def.kind matches ImageDefinitionKind::ComposedVertical { grid_size_vert, position } ==> plain_model(
            def,
            set,
        ).shape matches ImageShape::ComposedVertical { position: p, grid_size: g } && p == position && g
            == grid_size_vert,
{
}

/// A built image is seen as an image of the same kind, with the same fields.
pub proof fn lemma_built_kinds_seen<C, A>(b: BuiltImage<C, A>)
    ensures
        b@.set == b.set,
        b@.color == b.color,
        b.kind is Empty ==> b@.shape is Empty,
        b.kind is Solid ==> b@.shape is Solid,
        b.kind matches BuiltImageKind::Simple { position, size, fill } ==> b@.shape matches ImageShape::Simple {
            position: p,
            size: s,
            fill: f,
        } && p == position && s == size && f == fill,
        b.kind matches BuiltImageKind::Composed { position, grid_size } ==> b@.shape
            matches ImageShape::Composed { position: p, grid_size: g } && p == position && g == grid_size,
        b.kind matches BuiltImageKind::ComposedHorizontal { position, grid_size } ==> b@.shape
            matches ImageShape::ComposedHorizontal { position: p, grid_size: g } && p == position && g == grid_size,
        b.kind matches BuiltImageKind::ComposedVertical { position, grid_size } ==> b@.shape
            matches ImageShape::ComposedVertical { position: p, grid_size: g } && p == position && g == grid_size,
        b.kind is Collected ==> b@.shape is Collected,
        b.kind is Timed ==> b@.shape is Timed,
        b.kind is Animated ==> b@.shape is Animated,
{
}

/// A group of regions makes one image per entry, in order and under the entry's
/// name: a region at `(x, y)` of size `(w, h)` in grid cells is the region at
/// `(x * sx, y * sy)` of size `(w * sx, h * sy)` in pixels, for the group's scale
/// `(sx, sy)`, with the group's fill and the definition's color.
pub proof fn lemma_group_regions_scaled<C, A>(key: Seq<char>, def: ImageDefinition<C, A>, set: usize)
    requires
        group_fits(def),
    ensures
        def.kind matches ImageDefinitionKind::Group { group_scale, fill, images } ==> {
            let made = plain_images(key, def, set);
            &&& made.len() == images@.len()
            &&& forall|i: int|
                0 <= i < made.len() ==> {
                    let r = (#[trigger] images@[i]).1;
                    &&& made[i].0 == images@[i].0@
                    &&& made[i].1.set == set && made[i].1.color == def.color
                    &&& made[i].1.shape matches ImageShape::Simple { position, size, fill: f } && position.0
                        == r.0 * group_scale.0 && position.1 == r.1 * group_scale.1 && size.0 == r.2
                        * group_scale.0 && size.1 == r.3 * group_scale.1 && f == fill
                }
        },
        def.kind matches ImageDefinitionKind::Group1x1 { group_scale, fill, images } ==> {
            let made = plain_images(key, def, set);
            &&& made.len() == images@.len()
            &&& forall|i: int|
                0 <= i < made.len() ==> {
                    let r = (#[trigger] images@[i]).1;
                    &&& made[i].0 == images@[i].0@
                    &&& made[i].1.set == set && made[i].1.color == def.color
                    &&& made[i].1.shape matches ImageShape::Simple { position, size, fill: f } && position.0
                        == r.0 * group_scale.0 && position.1 == r.1 * group_scale.1 && size == group_scale
                        && f == fill
                }
        },
{
}

/// Whether a definition makes one image on its own.
pub open spec fn is_plain<C, A>(def: ImageDefinition<C, A>) -> bool {
    ||| def.kind is Empty
    ||| def.kind is Solid
    ||| def.kind is Simple
    ||| def.kind is Composed
    ||| def.kind is ComposedHorizontal
    ||| def.kind is ComposedVertical
}

/// The images, with their names, that a definition makes on its own: one for a
/// single region, one per entry of a group, and none for an image made of
/// others, which waits until the images it names are made.
pub open spec fn plain_images<C, A>(key: Seq<char>, def: ImageDefinition<C, A>, set: usize) -> Seq<(Seq<char>, ImageModel<C, A>)> {
    match def.kind {
        ImageDefinitionKind::Group { group_scale, fill, images } => images@.map_values(
            |g: (String, (u32, u32, u32, u32))|
                (
                    g.0@,
                    ImageModel {
                        set,
                        color: def.color,
                        shape: ImageShape::Simple {
                            position: ((g.1.0 * group_scale.0) as u32, (g.1.1 * group_scale.1) as u32),
                            size: ((g.1.2 * group_scale.0) as u32, (g.1.3 * group_scale.1) as u32),
                            fill,
                        },
                    },
                ),
        ),
        ImageDefinitionKind::Group1x1 { group_scale, fill, images } => images@.map_values(
            |g: (String, (u32, u32))|
                (
                    g.0@,
                    ImageModel {
                        set,
                        color: def.color,
                        shape: ImageShape::Simple {
                            position: ((g.1.0 * group_scale.0) as u32, (g.1.1 * group_scale.1) as u32),
                            size: group_scale,
                            fill,
                        },
                    },
                ),
        ),
        ImageDefinitionKind::ComposedGroup { grid_size, images } => images@.map_values(
            |g: (String, (u32, u32))|
                (
                    g.0@,
                    ImageModel {
                        set,
                        color: def.color,
                        shape: ImageShape::Composed { position: g.1, grid_size },
                    },
                ),
        ),
        _ => if is_plain(def) {
            seq![(key, plain_model(def, set))]
        } else {
            Seq::empty()
        },
    }
}

/// The state after adding the given images, one after another.
pub open spec fn add_all<C, A>(st: BuildState<C, A>, ins: Seq<(Seq<char>, ImageModel<C, A>)>) -> BuildState<C, A>
    decreases ins.len(),
{
    if ins.len() == 0 {
        st
    } else {
        let s = add_all(st, ins.drop_last());
        added(s, ins.last().0, ins.last().1)
    }
}

/// The state after adding the images that the first `n` entries make on their own.
pub open spec fn add_plain<C, A>(entries: Seq<(Seq<char>, ImageDefinition<C, A>)>, st: BuildState<C, A>, set: usize, n: int) -> BuildState<C, A>
    decreases n,
{
    if n <= 0 {
        st
    } else {
        add_all(add_plain(entries, st, set, n - 1), plain_images(entries[n - 1].0, entries[n - 1].1, set))
    }
}

/// The entries, among the first `n`, whose definitions satisfy `p`, in order.
pub open spec fn entries_where<C, A>(entries: Seq<(Seq<char>, ImageDefinition<C, A>)>, n: int, p: spec_fn(ImageDefinition<C, A>) -> bool) -> Seq<(Seq<char>, ImageDefinition<C, A>)>
    decreases n,
{
    if n <= 0 {
        Seq::empty()
    } else if p(entries[n - 1].1) {
        entries_where(entries, n - 1, p).push(entries[n - 1])
    } else {
        entries_where(entries, n - 1, p)
    }
}

/// Whether a definition collects other images.
pub open spec fn is_collected<C, A>() -> spec_fn(ImageDefinition<C, A>) -> bool {
    |d: ImageDefinition<C, A>| d.kind is Collected
}

/// Whether a definition shows other images in turn.
pub open spec fn is_timed<C, A>() -> spec_fn(ImageDefinition<C, A>) -> bool {
    |d: ImageDefinition<C, A>| d.kind is Timed
}

/// Whether a definition shows other images by animation state.
pub open spec fn is_animated<C, A>() -> spec_fn(ImageDefinition<C, A>) -> bool {
    |d: ImageDefinition<C, A>| d.kind is Animated
}

/// The position in `defs` of the definition that the entry at `k` of the set's
/// images stands for, or `None` for the definition of `empty`.
fn source_of<C, A>(defs: &Vec<(String, ImageDefinition<C, A>)>, empty_at: Option<usize>, k: usize, Ghost(color): Ghost<C>) -> (r: Option<usize>)
    requires
        k < with_empty(defs@, color).len(),
        match empty_at {
            Some(e) => keyed_position(named(defs@), "empty"@) == Some(e as int),
            None => keyed_position(named(defs@), "empty"@) is None,
        },
    ensures
        set_entries(defs@, color)[k as int].1 == (match r {
            Some(t) => defs@[t as int].1,
            None => empty_definition(color),
        }),
        r matches Some(t) ==> t < defs@.len(),
        k < defs@.len() ==> set_entries(defs@, color)[k as int].0 == defs@[k as int].0@,
        k >= defs@.len() ==> set_entries(defs@, color)[k as int].0 == "empty"@,
{
    let ghost n = named(defs@);
    let ghost w = with_empty(defs@, color);
    proof {
        lemma_keyed_position(n, "empty"@);
        assert(n.len() == defs@.len());
    }
    if k == defs.len() {
        proof {
            assert(w == n.push(("empty"@, empty_definition::<C, A>(color))));
        }
        return None;
    }
    if let Some(e) = empty_at {
        if e == k {
            return None;
        }
    }
    proof {
        assert(w[k as int] == n[k as int]);
        assert(n[k as int] == (defs@[k as int].0@, defs@[k as int].1));
    }
    match &defs[k].1.kind {
        ImageDefinitionKind::Alias { from } => {
            proof {
                lemma_keyed_set(n, "empty"@, empty_definition::<C, A>(color), from@);
            }
            if str_eq(from.as_str(), "empty") {
                None
            } else {
                match find_entry(defs, from.as_str()) {
                    Some(p) => Some(p),
                    None => Some(k),
                }
            }
        },
        _ => Some(k),
    }
}


/// No alias is left once every alias names an image that is not itself an alias.
proof fn lemma_no_alias_left<C, A>(defs: Seq<(String, ImageDefinition<C, A>)>, color: C, k: int)
    requires
        alias_error(with_empty(defs, color), with_empty(defs, color).len() as int) is None,
        !alias_chain(with_empty(defs, color)),
        0 <= k < with_empty(defs, color).len(),
    ensures
        !(set_entries(defs, color)[k].1.kind is Alias),
{
    let w = with_empty(defs, color);
    lemma_alias_error_none(w, w.len() as int, k);
    if w[k].1.kind is Alias {
        lemma_keyed_position(w, w[k].1.kind->from@);
        assert(!(resolved(w, w[k].1).kind is Alias));
    }
}

proof fn lemma_alias_error_none<C, A>(defs: Seq<(Seq<char>, ImageDefinition<C, A>)>, n: int, k: int)
    requires
        alias_error(defs, n) is None,
        0 <= k < n <= defs.len(),
    ensures
        defs[k].1.kind matches ImageDefinitionKind::Alias { from } ==> has_key(defs, from@),
    decreases n,
{
    if k < n - 1 {
        lemma_alias_error_none(defs, n - 1, k);
    }
}

/// The image made by a definition of a single region, or of nothing.
fn plain_image<C: Copy, A: Copy>(def: &ImageDefinition<C, A>, set: usize) -> (b: BuiltImage<C, A>)
    ensures
        b@ == plain_model(*def, set),
{
    let kind = match &def.kind {
        ImageDefinitionKind::Solid => BuiltImageKind::Solid,
        ImageDefinitionKind::Simple { size, position, fill } => BuiltImageKind::Simple {
            position: *position,
            size: *size,
            fill: *fill,
        },
        ImageDefinitionKind::Composed { grid_size, position } => BuiltImageKind::Composed {
            position: *position,
            grid_size: *grid_size,
        },
        ImageDefinitionKind::ComposedHorizontal { grid_size_horiz, position } =>
            BuiltImageKind::ComposedHorizontal { position: *position, grid_size: *grid_size_horiz },
        ImageDefinitionKind::ComposedVertical { grid_size_vert, position } =>
            BuiltImageKind::ComposedVertical { position: *position, grid_size: *grid_size_vert },
        _ => BuiltImageKind::Empty,
    };
    BuiltImage { set, color: def.color, kind }
}

/// Adds an image under the name `key`.
fn add_image<C, A>(images: &mut Vec<BuiltImage<C, A>>, names: &mut Vec<(String, usize)>, key: String, b: BuiltImage<C, A>)
    ensures
        state_of(final(images)@, final(names)@) == added(state_of(old(images)@, old(names)@), key@, b@),
{
    let idx = images.len();
    images.push(b);
    put_entry(names, key, idx);
    proof {
        assert(state_of(images@, names@).images =~= state_of(old(images)@, old(names)@).images.push(b@));
    }
}

/// Adds the images of a group, one per entry.
fn add_group<C: Copy, A: Copy>(
    def: &ImageDefinition<C, A>,
    images: &mut Vec<BuiltImage<C, A>>,
    names: &mut Vec<(String, usize)>,
    set: usize,
    Ghost(key): Ghost<Seq<char>>,
)
    requires
        group_fits(*def),
    ensures
        def.kind is Group || def.kind is Group1x1 || def.kind is ComposedGroup ==> state_of(
            final(images)@,
            final(names)@,
        ) == add_all(state_of(old(images)@, old(names)@), plain_images(key, *def, set)),
{
    let ghost st0 = state_of(images@, names@);
    let ghost gen = plain_images(key, *def, set);
    match &def.kind {
        ImageDefinitionKind::Group { group_scale, fill, images: entries } => {
            let mut j: usize = 0;
            while j < entries.len()
                invariant
                    gen == plain_images(key, *def, set),
                    def.kind == (ImageDefinitionKind::<A>::Group { group_scale: *group_scale, fill: *fill, images: *entries }),
                    group_fits(*def),
                    j <= entries@.len(),
                    gen.len() == entries@.len(),
                    state_of(images@, names@) == add_all(st0, gen.take(j as int)),
                decreases entries@.len() - j,
            {
                let r = entries[j].1;
                proof {
                    assert(entries@[j as int].1 == r);
                }
                let b = BuiltImage {
                    set,
                    color: def.color,
                    kind: BuiltImageKind::Simple {
                        position: (r.0 * group_scale.0, r.1 * group_scale.1),
                        size: (r.2 * group_scale.0, r.3 * group_scale.1),
                        fill: *fill,
                    },
                };
                add_image(images, names, entries[j].0.clone(), b);
                proof {
                    assert(gen.take(j + 1).drop_last() =~= gen.take(j as int));
                    assert(gen.take(j + 1).last() == gen[j as int]);
                }
                j = j + 1;
            }
            proof {
                assert(gen.take(gen.len() as int) =~= gen);
            }
        },
        ImageDefinitionKind::Group1x1 { group_scale, fill, images: entries } => {
            let mut j: usize = 0;
            while j < entries.len()
                invariant
                    gen == plain_images(key, *def, set),
                    def.kind == (ImageDefinitionKind::<A>::Group1x1 { group_scale: *group_scale, fill: *fill, images: *entries }),
                    group_fits(*def),
                    j <= entries@.len(),
                    gen.len() == entries@.len(),
                    state_of(images@, names@) == add_all(st0, gen.take(j as int)),
                decreases entries@.len() - j,
            {
                let r = entries[j].1;
                proof {
                    assert(entries@[j as int].1 == r);
                }
                let b = BuiltImage {
                    set,
                    color: def.color,
                    kind: BuiltImageKind::Simple {
                        position: (r.0 * group_scale.0, r.1 * group_scale.1),
                        size: *group_scale,
                        fill: *fill,
                    },
                };
                add_image(images, names, entries[j].0.clone(), b);
                proof {
                    assert(gen.take(j + 1).drop_last() =~= gen.take(j as int));
                    assert(gen.take(j + 1).last() == gen[j as int]);
                }
                j = j + 1;
            }
            proof {
                assert(gen.take(gen.len() as int) =~= gen);
            }
        },
        ImageDefinitionKind::ComposedGroup { grid_size, images: entries } => {
            let mut j: usize = 0;
            while j < entries.len()
                invariant
                    gen == plain_images(key, *def, set),
                    def.kind == (ImageDefinitionKind::<A>::ComposedGroup { grid_size: *grid_size, images: *entries }),
                    j <= entries@.len(),
                    gen.len() == entries@.len(),
                    state_of(images@, names@) == add_all(st0, gen.take(j as int)),
                decreases entries@.len() - j,
            {
                let b = BuiltImage {
                    set,
                    color: def.color,
                    kind: BuiltImageKind::Composed { position: entries[j].1, grid_size: *grid_size },
                };
                add_image(images, names, entries[j].0.clone(), b);
                proof {
                    assert(gen.take(j + 1).drop_last() =~= gen.take(j as int));
                    assert(gen.take(j + 1).last() == gen[j as int]);
                }
                j = j + 1;
            }
            proof {
                assert(gen.take(gen.len() as int) =~= gen);
            }
        },
        _ => {},
    }
}


/// Whether `empty_at` is the position of the image `empty` among `defs`.
pub open spec fn empty_found<C, A>(defs: Seq<(String, ImageDefinition<C, A>)>, empty_at: Option<usize>) -> bool {
    match empty_at {
        Some(e) => keyed_position(named(defs), "empty"@) == Some(e as int),
        None => keyed_position(named(defs), "empty"@) is None,
    }
}

/// Takes the entry at `k` of the set's images: adds the images it makes on its
/// own, or, if it waits for other images, adds its positions to the matching list.
fn build_entry<C: Copy, A: Copy>(
    defs: &Vec<(String, ImageDefinition<C, A>)>,
    empty: &ImageDefinition<C, A>,
    empty_at: Option<usize>,
    k: usize,
    images: &mut Vec<BuiltImage<C, A>>,
    names: &mut Vec<(String, usize)>,
    set: usize,
    waiting: &mut (Vec<(usize, usize)>, Vec<(usize, usize)>, Vec<(usize, usize)>),
)
    requires
        empty.kind is Empty,
        empty_found(defs@, empty_at),
        k < set_entries(defs@, empty.color).len(),
        !(set_entries(defs@, empty.color)[k as int].1.kind is Alias),
        forall|i: int| 0 <= i < defs@.len() ==> group_fits(#[trigger] defs@[i].1),
        queue_in_bounds(defs@, old(waiting).0@),
        queue_in_bounds(defs@, old(waiting).1@),
        queue_in_bounds(defs@, old(waiting).2@),
    ensures
        ({
            let entries = set_entries(defs@, empty.color);
            let e = entries[k as int];
            &&& state_of(final(images)@, final(names)@) == add_all(
                state_of(old(images)@, old(names)@),
                plain_images(e.0, e.1, set),
            )
            &&& queue_in_bounds(defs@, final(waiting).0@)
            &&& queue_in_bounds(defs@, final(waiting).1@)
            &&& queue_in_bounds(defs@, final(waiting).2@)
            &&& queued_items(defs@, final(waiting).0@) == (if e.1.kind is Collected {
                queued_items(defs@, old(waiting).0@).push(e)
            } else {
                queued_items(defs@, old(waiting).0@)
            })
            &&& queued_items(defs@, final(waiting).1@) == (if e.1.kind is Timed {
                queued_items(defs@, old(waiting).1@).push(e)
            } else {
                queued_items(defs@, old(waiting).1@)
            })
            &&& queued_items(defs@, final(waiting).2@) == (if e.1.kind is Animated {
                queued_items(defs@, old(waiting).2@).push(e)
            } else {
                queued_items(defs@, old(waiting).2@)
            })
        }),
{
    let ghost color = empty.color;
    let ghost entries = set_entries(defs@, color);
    proof {
        assert(*empty == empty_definition::<C, A>(color));
    }
    let src = source_of(defs, empty_at, k, Ghost(color));
    let def = match src {
        Some(t) => &defs[t].1,
        None => empty,
    };
    proof {
        assert(*def == entries[k as int].1);
        assert(group_fits(*def));
    }
    let ghost key = entries[k as int].0;
    let ghost before = state_of(images@, names@);
    match &def.kind {
        ImageDefinitionKind::Collected { .. } => {
            let t = src.unwrap();
            waiting.0.push((k, t));
            proof {
                assert(queued_items(defs@, waiting.0@) =~= queued_items(defs@, old(waiting).0@).push(entries[k as int]));
            }
        },
        ImageDefinitionKind::Timed { .. } => {
            let t = src.unwrap();
            waiting.1.push((k, t));
            proof {
                assert(queued_items(defs@, waiting.1@) =~= queued_items(defs@, old(waiting).1@).push(entries[k as int]));
            }
        },
        ImageDefinitionKind::Animated { .. } => {
            let t = src.unwrap();
            waiting.2.push((k, t));
            proof {
                assert(queued_items(defs@, waiting.2@) =~= queued_items(defs@, old(waiting).2@).push(entries[k as int]));
            }
        },
        ImageDefinitionKind::Group { .. } | ImageDefinitionKind::Group1x1 { .. }
        | ImageDefinitionKind::ComposedGroup { .. } => {
            add_group(def, images, names, set, Ghost(key));
        },
        _ => {
            let name = if k < defs.len() {
                defs[k].0.clone()
            } else {
                String::from_str("empty")
            };
            let b = plain_image(def, set);
            add_image(images, names, name, b);
            proof {
                let ins = plain_images(key, *def, set);
                assert(ins == seq![(key, plain_model(*def, set))]);
                assert(ins.drop_last() =~= Seq::<(Seq<char>, ImageModel<C, A>)>::empty());
                assert(add_all(before, ins.drop_last()) == before);
            }
        },
    }
}

/// Adds the images that the set's definitions make on their own, in order, and
/// returns the positions of the images that wait for others: those that collect
/// others, those shown in turn and those shown by animation state.
fn build_plain<C: Copy, A: Copy>(
    defs: &Vec<(String, ImageDefinition<C, A>)>,
    empty: &ImageDefinition<C, A>,
    empty_at: Option<usize>,
    images: &mut Vec<BuiltImage<C, A>>,
    names: &mut Vec<(String, usize)>,
    set: usize,
) -> (waiting: (Vec<(usize, usize)>, Vec<(usize, usize)>, Vec<(usize, usize)>))
    requires
        empty.kind is Empty,
        empty_found(defs@, empty_at),
        forall|k: int|
            0 <= k < set_entries(defs@, empty.color).len() ==> !((#[trigger] set_entries(
                defs@,
                empty.color,
            )[k]).1.kind is Alias),
        forall|i: int| 0 <= i < defs@.len() ==> group_fits(#[trigger] defs@[i].1),
    ensures
        ({
            let entries = set_entries(defs@, empty.color);
            &&& state_of(final(images)@, final(names)@) == add_plain(
                entries,
                state_of(old(images)@, old(names)@),
                set,
                entries.len() as int,
            )
            &&& queue_in_bounds(defs@, waiting.0@)
            &&& queue_in_bounds(defs@, waiting.1@)
            &&& queue_in_bounds(defs@, waiting.2@)
            &&& queued_items(defs@, waiting.0@) == entries_where(entries, entries.len() as int, is_collected())
            &&& queued_items(defs@, waiting.1@) == entries_where(entries, entries.len() as int, is_timed())
            &&& queued_items(defs@, waiting.2@) == entries_where(entries, entries.len() as int, is_animated())
        }),
{
    let ghost color = empty.color;
    let ghost entries = set_entries(defs@, color);
    let ghost st0 = state_of(images@, names@);
    proof {
        lemma_keyed_position(named(defs@), "empty"@);
    }
    let mut waiting: (Vec<(usize, usize)>, Vec<(usize, usize)>, Vec<(usize, usize)>) = (Vec::new(), Vec::new(), Vec::new());
    proof {
        assert(queued_items(defs@, waiting.0@) =~= entries_where(entries, 0, is_collected()));
        assert(queued_items(defs@, waiting.1@) =~= entries_where(entries, 0, is_timed()));
        assert(queued_items(defs@, waiting.2@) =~= entries_where(entries, 0, is_animated()));
    }
    let mut k: usize = 0;
    while k < defs.len()
        invariant
            color == empty.color,
            entries == set_entries(defs@, color),
            empty.kind is Empty,
            empty_found(defs@, empty_at),
            entries.len() == defs@.len() + (if empty_at is None { 1int } else { 0int }),
            forall|k: int| 0 <= k < entries.len() ==> !((#[trigger] entries[k]).1.kind is Alias),
            forall|i: int| 0 <= i < defs@.len() ==> group_fits(#[trigger] defs@[i].1),
            k <= defs@.len(),
            state_of(images@, names@) == add_plain(entries, st0, set, k as int),
            queue_in_bounds(defs@, waiting.0@),
            queue_in_bounds(defs@, waiting.1@),
            queue_in_bounds(defs@, waiting.2@),
            queued_items(defs@, waiting.0@) == entries_where(entries, k as int, is_collected()),
            queued_items(defs@, waiting.1@) == entries_where(entries, k as int, is_timed()),
            queued_items(defs@, waiting.2@) == entries_where(entries, k as int, is_animated()),
        decreases defs@.len() - k,
    {
        build_entry(defs, empty, empty_at, k, images, names, set, &mut waiting);
        k = k + 1;
    }
    if empty_at.is_none() {
        build_entry(defs, empty, empty_at, k, images, names, set, &mut waiting);
    }
    waiting
}


// ---------------------------------------------------------------------------
// Images shown in turn or by animation state
// ---------------------------------------------------------------------------

/// The message of an image that names an image its set does not hold.
pub open spec fn missing_sub_image_message(id: Seq<char>, parent: Seq<char>) -> Seq<char> {
    "Unable to find image '"@ + id + "' referenced as sub image of '"@ + parent + "'"@
}

/// The message of an image shown in turn that names no frames.
pub open spec fn no_frames_message(parent: Seq<char>) -> Seq<char> {
    "No frames specified for image: "@ + parent
}

/// The message given when the collected images cannot all be built.
pub open spec fn unresolved_collected_message() -> Seq<char> {
    "Unable to resolve all collected images due to cyclic or invalid references"@
}

/// The first of the first `n` names that `names` does not hold, if any.
pub open spec fn first_missing(ids: Seq<Seq<char>>, names: Seq<(Seq<char>, usize)>, n: int) -> Option<Seq<char>>
    decreases n,
{
    if n <= 0 {
        None
    } else {
        match first_missing(ids, names, n - 1) {
            Some(m) => Some(m),
            None => if has_key(names, ids[n - 1]) {
                None
            } else {
                Some(ids[n - 1])
            },
        }
    }
}

/// The names of the frames of an image shown in turn; none for another kind.
pub open spec fn frame_names<C, A>(def: ImageDefinition<C, A>) -> Seq<Seq<char>> {
    match def.kind {
        ImageDefinitionKind::Timed { frames, .. } => frames@.map_values(|f: String| f@),
        _ => Seq::empty(),
    }
}

/// The names of the images of an image shown by animation state; none for
/// another kind.
pub open spec fn state_names<C, A>(def: ImageDefinition<C, A>) -> Seq<Seq<char>> {
    match def.kind {
        ImageDefinitionKind::Animated { states } => states@.map_values(|s: (A, String)| s.1@),
        _ => Seq::empty(),
    }
}

/// The image shown in turn that `def` makes, its frames taken from `names`.
pub open spec fn timed_image<C, A>(set: usize, def: ImageDefinition<C, A>, names: Seq<(Seq<char>, usize)>) -> ImageModel<C, A> {
    ImageModel {
        set,
        color: def.color,
        shape: match def.kind {
            ImageDefinitionKind::Timed { frame_time_millis, frames, once } => ImageShape::Timed {
                frame_time_millis,
                frames: frames@.map_values(|f: String| position_named(names, f@)),
                once,
            },
            _ => ImageShape::Empty,
        },
    }
}

/// The image shown by animation state that `def` makes, its images taken from
/// `names`.
pub open spec fn animated_image<C, A>(set: usize, def: ImageDefinition<C, A>, names: Seq<(Seq<char>, usize)>) -> ImageModel<C, A> {
    ImageModel {
        set,
        color: def.color,
        shape: match def.kind {
            ImageDefinitionKind::Animated { states } => ImageShape::Animated {
                states: states@.map_values(|s: (A, String)| (s.0, position_named(names, s.1@))),
            },
            _ => ImageShape::Animated { states: Seq::empty() },
        },
    }
}

/// Builds the image shown in turn of `item`; fails on its first frame that is
/// not there, or when it names no frames.
pub open spec fn time_one<C, A>(item: (Seq<char>, ImageDefinition<C, A>), st: BuildState<C, A>, set: usize) -> Result<BuildState<C, A>, Seq<char>> {
    let ids = frame_names(item.1);
    match first_missing(ids, st.names, ids.len() as int) {
        Some(m) => Err(missing_sub_image_message(m, item.0)),
        None => if ids.len() == 0 {
            Err(no_frames_message(item.0))
        } else {
            Ok(added(st, item.0, timed_image(set, item.1, st.names)))
        },
    }
}

/// Builds the image shown by animation state of `item`; fails on its first
/// image that is not there.
pub open spec fn animate_one<C, A>(item: (Seq<char>, ImageDefinition<C, A>), st: BuildState<C, A>, set: usize) -> Result<BuildState<C, A>, Seq<char>> {
    let ids = state_names(item.1);
    match first_missing(ids, st.names, ids.len() as int) {
        Some(m) => Err(missing_sub_image_message(m, item.0)),
        None => Ok(added(st, item.0, animated_image(set, item.1, st.names))),
    }
}

/// Builds the first `n` images shown in turn, one after another.
pub open spec fn time_all<C, A>(items: Seq<(Seq<char>, ImageDefinition<C, A>)>, st: BuildState<C, A>, set: usize, n: int) -> Result<BuildState<C, A>, Seq<char>>
    decreases n,
{
    if n <= 0 {
        Ok(st)
    } else {
        match time_all(items, st, set, n - 1) {
            Ok(s) => time_one(items[n - 1], s, set),
            Err(e) => Err(e),
        }
    }
}

/// Builds the first `n` images shown by animation state, one after another.
pub open spec fn animate_all<C, A>(items: Seq<(Seq<char>, ImageDefinition<C, A>)>, st: BuildState<C, A>, set: usize, n: int) -> Result<BuildState<C, A>, Seq<char>>
    decreases n,
{
    if n <= 0 {
        Ok(st)
    } else {
        match animate_all(items, st, set, n - 1) {
            Ok(s) => animate_one(items[n - 1], s, set),
            Err(e) => Err(e),
        }
    }
}

/// Builds the image shown in turn named by the definition at `key` and defined
/// by the definition at `def`.
fn time_image<C: Copy, A: Copy>(
    defs: &Vec<(String, ImageDefinition<C, A>)>,
    key: usize,
    def: usize,
    images: &mut Vec<BuiltImage<C, A>>,
    names: &mut Vec<(String, usize)>,
    set: usize,
) -> (r: Result<(), String>)
    requires
        key < defs@.len(),
        def < defs@.len(),
    ensures
        time_one((defs@[key as int].0@, defs@[def as int].1), state_of(old(images)@, old(names)@), set)
            == (match r {
            Ok(()) => Ok(state_of(final(images)@, final(names)@)),
            Err(m) => Err(m@),
        }),
{
    let d = &defs[def].1;
    let parent = &defs[key].0;
    let ghost n = named(names@);
    let ghost ids = frame_names(*d);
    match &d.kind {
        ImageDefinitionKind::Timed { frame_time_millis, frames, once } => {
            let mut found: Vec<usize> = Vec::new();
            let mut i: usize = 0;
            while i < frames.len()
                invariant
                    *d == defs@[def as int].1,
                    *parent == defs@[key as int].0,
                    names@ == old(names)@,
                    images@ == old(images)@,
                    ids == frame_names(*d),
                    ids == frames@.map_values(|f: String| f@),
                    n == named(names@),
                    i <= frames@.len(),
                    first_missing(ids, n, i as int) is None,
                    found@ == frames@.take(i as int).map_values(|f: String| position_named(n, f@)),
                decreases frames@.len() - i,
            {
                match find_entry(names, frames[i].as_str()) {
                    Some(p) => {
                        proof {
                            lemma_keyed_position(n, frames@[i as int]@);
                        }
                        found.push(names[p].1);
                        proof {
                            assert(found@ =~= frames@.take(i + 1).map_values(|f: String| position_named(n, f@)));
                        }
                    },
                    None => {
                        proof {
                            lemma_keyed_position(n, frames@[i as int]@);
                            assert(first_missing(ids, n, i + 1) == Some(ids[i as int]));
                            lemma_first_missing_stays(ids, n, i + 1, ids.len() as int);
                        }
                        return Err(concat5(
                            "Unable to find image '",
                            frames[i].as_str(),
                            "' referenced as sub image of '",
                            parent.as_str(),
                            "'",
                        ));
                    },
                }
                i = i + 1;
            }
            if frames.len() == 0 {
                let mut m = String::from_str("No frames specified for image: ");
                m.append(parent.as_str());
                return Err(m);
            }
            proof {
                assert(frames@.take(frames@.len() as int) =~= frames@);
            }
            let b = BuiltImage {
                set,
                color: d.color,
                kind: BuiltImageKind::Timed { frame_time_millis: *frame_time_millis, frames: found, once: *once },
            };
            add_image(images, names, parent.clone(), b);
            Ok(())
        },
        _ => {
            let mut m = String::from_str("No frames specified for image: ");
            m.append(parent.as_str());
            Err(m)
        },
    }
}

proof fn lemma_first_missing_stays(ids: Seq<Seq<char>>, names: Seq<(Seq<char>, usize)>, n: int, m: int)
    requires
        0 <= n <= m,
        first_missing(ids, names, n) is Some,
    ensures
        first_missing(ids, names, m) == first_missing(ids, names, n),
    decreases m - n,
{
    if n < m {
        lemma_first_missing_stays(ids, names, n, m - 1);
    }
}

/// Builds the image shown by animation state named by the definition at `key`
/// and defined by the definition at `def`.
fn animate_image<C: Copy, A: Copy>(
    defs: &Vec<(String, ImageDefinition<C, A>)>,
    key: usize,
    def: usize,
    images: &mut Vec<BuiltImage<C, A>>,
    names: &mut Vec<(String, usize)>,
    set: usize,
) -> (r: Result<(), String>)
    requires
        key < defs@.len(),
        def < defs@.len(),
    ensures
        animate_one((defs@[key as int].0@, defs@[def as int].1), state_of(old(images)@, old(names)@), set)
            == (match r {
            Ok(()) => Ok(state_of(final(images)@, final(names)@)),
            Err(m) => Err(m@),
        }),
{
    let d = &defs[def].1;
    let parent = &defs[key].0;
    let ghost n = named(names@);
    let ghost ids = state_names(*d);
    let mut found: Vec<(A, usize)> = Vec::new();
    match &d.kind {
        ImageDefinitionKind::Animated { states } => {
            let mut i: usize = 0;
            while i < states.len()
                invariant
                    *d == defs@[def as int].1,
                    *parent == defs@[key as int].0,
                    names@ == old(names)@,
                    images@ == old(images)@,
                    ids == state_names(*d),
                    ids == states@.map_values(|s: (A, String)| s.1@),
                    n == named(names@),
                    i <= states@.len(),
                    first_missing(ids, n, i as int) is None,
                    found@ == states@.take(i as int).map_values(
                        |s: (A, String)| (s.0, position_named(n, s.1@)),
                    ),
                decreases states@.len() - i,
            {
                match find_entry(names, states[i].1.as_str()) {
                    Some(p) => {
                        proof {
                            lemma_keyed_position(n, states@[i as int].1@);
                        }
                        found.push((states[i].0, names[p].1));
                        proof {
                            assert(found@ =~= states@.take(i + 1).map_values(
                                |s: (A, String)| (s.0, position_named(n, s.1@)),
                            ));
                        }
                    },
                    None => {
                        proof {
                            lemma_keyed_position(n, states@[i as int].1@);
                            assert(first_missing(ids, n, i + 1) == Some(ids[i as int]));
                            lemma_first_missing_stays(ids, n, i + 1, ids.len() as int);
                        }
                        return Err(concat5(
                            "Unable to find image '",
                            states[i].1.as_str(),
                            "' referenced as sub image of '",
                            parent.as_str(),
                            "'",
                        ));
                    },
                }
                i = i + 1;
            }
            proof {
                assert(states@.take(states@.len() as int) =~= states@);
            }
        },
        _ => {
            proof {
                assert(found@ =~= Seq::<(A, usize)>::empty());
            }
        },
    }
    let b = BuiltImage { set, color: d.color, kind: BuiltImageKind::Animated { states: found } };
    add_image(images, names, parent.clone(), b);
    Ok(())
}

proof fn lemma_time_all_fails<C, A>(items: Seq<(Seq<char>, ImageDefinition<C, A>)>, st: BuildState<C, A>, set: usize, n: int, m: int)
    requires
        0 <= n <= m,
        time_all(items, st, set, n) is Err,
    ensures
        time_all(items, st, set, m) == time_all(items, st, set, n),
    decreases m - n,
{
    if n < m {
        lemma_time_all_fails(items, st, set, n, m - 1);
    }
}

proof fn lemma_animate_all_fails<C, A>(items: Seq<(Seq<char>, ImageDefinition<C, A>)>, st: BuildState<C, A>, set: usize, n: int, m: int)
    requires
        0 <= n <= m,
        animate_all(items, st, set, n) is Err,
    ensures
        animate_all(items, st, set, m) == animate_all(items, st, set, n),
    decreases m - n,
{
    if n < m {
        lemma_animate_all_fails(items, st, set, n, m - 1);
    }
}

/// Builds the waiting images shown in turn, one after another.
fn time_waiting<C: Copy, A: Copy>(
    defs: &Vec<(String, ImageDefinition<C, A>)>,
    queue: &Vec<(usize, usize)>,
    images: &mut Vec<BuiltImage<C, A>>,
    names: &mut Vec<(String, usize)>,
    set: usize,
) -> (r: Result<(), String>)
    requires
        queue_in_bounds(defs@, queue@),
    ensures
        time_all(queued_items(defs@, queue@), state_of(old(images)@, old(names)@), set, queue@.len() as int)
            == (match r {
            Ok(()) => Ok(state_of(final(images)@, final(names)@)),
            Err(m) => Err(m@),
        }),
{
    let ghost items = queued_items(defs@, queue@);
    let ghost st0 = state_of(images@, names@);
    let mut i: usize = 0;
    while i < queue.len()
        invariant
            items == queued_items(defs@, queue@),
            queue_in_bounds(defs@, queue@),
            st0 == state_of(old(images)@, old(names)@),
            i <= queue@.len(),
            time_all(items, st0, set, i as int) == Ok::<BuildState<C, A>, Seq<char>>(state_of(images@, names@)),
        decreases queue@.len() - i,
    {
        let (k, t) = queue[i];
        proof {
            assert(queue@[i as int].0 < defs@.len());
            assert(items[i as int] == (defs@[k as int].0@, defs@[t as int].1));
        }
        match time_image(defs, k, t, images, names, set) {
            Ok(()) => {},
            Err(m) => {
                proof {
                    lemma_time_all_fails(items, st0, set, i + 1, queue@.len() as int);
                }
                return Err(m);
            },
        }
        i = i + 1;
    }
    Ok(())
}

/// Builds the waiting images shown by animation state, one after another.
fn animate_waiting<C: Copy, A: Copy>(
    defs: &Vec<(String, ImageDefinition<C, A>)>,
    queue: &Vec<(usize, usize)>,
    images: &mut Vec<BuiltImage<C, A>>,
    names: &mut Vec<(String, usize)>,
    set: usize,
) -> (r: Result<(), String>)
    requires
        queue_in_bounds(defs@, queue@),
    ensures
        animate_all(queued_items(defs@, queue@), state_of(old(images)@, old(names)@), set, queue@.len() as int)
            == (match r {
            Ok(()) => Ok(state_of(final(images)@, final(names)@)),
            Err(m) => Err(m@),
        }),
{
    let ghost items = queued_items(defs@, queue@);
    let ghost st0 = state_of(images@, names@);
    let mut i: usize = 0;
    while i < queue.len()
        invariant
            items == queued_items(defs@, queue@),
            queue_in_bounds(defs@, queue@),
            st0 == state_of(old(images)@, old(names)@),
            i <= queue@.len(),
            animate_all(items, st0, set, i as int) == Ok::<BuildState<C, A>, Seq<char>>(state_of(images@, names@)),
        decreases queue@.len() - i,
    {
        let (k, t) = queue[i];
        proof {
            assert(queue@[i as int].0 < defs@.len());
            assert(items[i as int] == (defs@[k as int].0@, defs@[t as int].1));
        }
        match animate_image(defs, k, t, images, names, set) {
            Ok(()) => {},
            Err(m) => {
                proof {
                    lemma_animate_all_fails(items, st0, set, i + 1, queue@.len() as int);
                }
                return Err(m);
            },
        }
        i = i + 1;
    }
    Ok(())
}

// ---------------------------------------------------------------------------
// All image sets
// ---------------------------------------------------------------------------

/// The names of all images after adding the first `n` names of a set's images,
/// each prefixed with the set's name and a slash.
pub open spec fn merged_names(global: Seq<(Seq<char>, usize)>, set_id: Seq<char>, local: Seq<(Seq<char>, usize)>, n: int) -> Seq<(Seq<char>, usize)>
    decreases n,
{
    if n <= 0 {
        global
    } else {
        keyed_set(merged_names(global, set_id, local, n - 1), set_id + "/"@ + local[n - 1].0, local[n - 1].1)
    }
}

/// The message when a set names a texture that is not there, if it does.
pub open spec fn texture_error(source: Option<String>, textures: Seq<String>) -> Option<Seq<char>> {
    match source {
        Some(s) => if exists|i: int| 0 <= i < textures.len() && textures[i]@ == s@ {
            None
        } else {
            Some("Unable to locate texture "@ + s@)
        },
        None => None,
    }
}

/// Whether building the set stays clear of what cannot be built at all: once its
/// texture is there and every alias names an image, no alias names another alias
/// and every scaled position and size of a group fits in 32 bits.
pub open spec fn set_buildable<C, A>(def: ImageSetDefinition<C, A>, textures: Seq<String>, color: C) -> bool {
    let w = with_empty(def.images@, color);
    (texture_error(def.source, textures) is None && alias_error(w, w.len() as int) is None) ==> {
        &&& !alias_chain(w)
        &&& forall|i: int| 0 <= i < def.images@.len() ==> group_fits(#[trigger] def.images@[i].1)
    }
}

/// Builds one image set after the images built so far, and adds the names of its
/// images, prefixed with the set's name, to `global`.  Fails on a missing
/// texture, then on the first alias that names nothing, then when the collected
/// images cannot all be built, then on the first image shown in turn, and then
/// on the first image shown by animation state, that names an image that is not
/// there.
pub open spec fn set_built<C, A>(
    set_id: Seq<char>,
    def: ImageSetDefinition<C, A>,
    textures: Seq<String>,
    color: C,
    images: Seq<ImageModel<C, A>>,
    global: Seq<(Seq<char>, usize)>,
    set: usize,
) -> Result<(Seq<ImageModel<C, A>>, Seq<(Seq<char>, usize)>), Seq<char>> {
    let w = with_empty(def.images@, color);
    let entries = set_entries(def.images@, color);
    let n = entries.len() as int;
    match texture_error(def.source, textures) {
        Some(e) => Err(e),
        None => match alias_error(w, w.len() as int) {
            Some(e) => Err(e),
            None => {
                let plain = add_plain(entries, BuildState { images, names: Seq::empty() }, set, n);
                match collect_in_turns(entries_where(entries, n, is_collected()), plain, 0, set) {
                    None => Err(unresolved_collected_message()),
                    Some(collected) => {
                        let timed = entries_where(entries, n, is_timed());
                        match time_all(timed, collected, set, timed.len() as int) {
                            Err(e) => Err(e),
                            Ok(shown) => {
                                let animated = entries_where(entries, n, is_animated());
                                match animate_all(animated, shown, set, animated.len() as int) {
                                    Err(e) => Err(e),
                                    Ok(done) => Ok(
                                        (
                                            done.images,
                                            merged_names(global, set_id, done.names, done.names.len() as int),
                                        ),
                                    ),
                                }
                            },
                        }
                    },
                }
            },
        },
    }
}

/// Builds the first `n` image sets, one after another, from no images; fails on
/// the first set that fails.
pub open spec fn sets_built<C, A>(sets: Seq<(String, ImageSetDefinition<C, A>)>, textures: Seq<String>, color: C, n: int) -> Result<(Seq<ImageModel<C, A>>, Seq<(Seq<char>, usize)>), Seq<char>>
    decreases n,
{
    if n <= 0 {
        Ok((Seq::empty(), Seq::empty()))
    } else {
        match sets_built(sets, textures, color, n - 1) {
            Err(e) => Err(e),
            Ok(r) => set_built(sets[n - 1].0@, sets[n - 1].1, textures, color, r.0, r.1, (n - 1) as usize),
        }
    }
}

/// Adds the names of a set's images, each prefixed with the set's name and a
/// slash, to the names of all images.
fn merge_names(global: &mut Vec<(String, usize)>, set_id: &String, local: &Vec<(String, usize)>)
    ensures
        named(final(global)@) == merged_names(named(old(global)@), set_id@, named(local@), local@.len() as int),
{
    let mut i: usize = 0;
    while i < local.len()
        invariant
            i <= local@.len(),
            named(global@) == merged_names(named(old(global)@), set_id@, named(local@), i as int),
        decreases local@.len() - i,
    {
        let key = concat3(set_id.as_str(), "/", local[i].0.as_str());
        put_entry(global, key, local[i].1);
        i = i + 1;
    }
}

/// Checks that the set's texture is there.
fn check_texture(source: &Option<String>, textures: &Vec<String>) -> (r: Option<String>)
    ensures
        match r {
            Some(m) => texture_error(*source, textures@) == Some(m@),
            None => texture_error(*source, textures@) is None,
        },
{
    match source {
        None => None,
        Some(s) => {
            let mut i: usize = 0;
            while i < textures.len()
                invariant
                    *source == Some(*s),
                    i <= textures@.len(),
                    forall|j: int| 0 <= j < i ==> textures@[j]@ != s@,
                decreases textures@.len() - i,
            {
                if str_eq(textures[i].as_str(), s.as_str()) {
                    proof {
                        assert(textures@[i as int]@ == s@);
                    }
                    return None;
                }
                i = i + 1;
            }
            let mut m = String::from_str("Unable to locate texture ");
            m.append(s.as_str());
            Some(m)
        },
    }
}

/// Checks that every alias of the set names an image of the set.
fn check_aliases<C, A>(defs: &Vec<(String, ImageDefinition<C, A>)>, empty_at: Option<usize>, Ghost(color): Ghost<C>) -> (r: Option<String>)
    requires
        empty_found(defs@, empty_at),
    ensures
        match r {
            Some(m) => alias_error(with_empty(defs@, color), with_empty(defs@, color).len() as int) == Some(m@),
            None => alias_error(with_empty(defs@, color), with_empty(defs@, color).len() as int) is None,
        },
{
    let ghost n = named(defs@);
    let ghost w = with_empty(defs@, color);
    proof {
        lemma_keyed_position(n, "empty"@);
    }
    let mut k: usize = 0;
    while k < defs.len()
        invariant
            n == named(defs@),
            w == with_empty(defs@, color),
            empty_found(defs@, empty_at),
            w.len() == defs@.len() + (if empty_at is None { 1int } else { 0int }),
            k <= defs@.len(),
            alias_error(w, k as int) is None,
        decreases defs@.len() - k,
    {
        let is_empty = match empty_at {
            Some(e) => e == k,
            None => false,
        };
        proof {
            if !is_empty {
                assert(w[k as int] == n[k as int]);
            } else {
                assert(w[k as int].1 == empty_definition::<C, A>(color));
            }
        }
        if !is_empty {
            match &defs[k].1.kind {
                ImageDefinitionKind::Alias { from } => {
                    proof {
                        lemma_keyed_set(n, "empty"@, empty_definition::<C, A>(color), from@);
                        lemma_keyed_position(n, from@);
                    }
                    if !str_eq(from.as_str(), "empty") {
                        if find_entry(defs, from.as_str()).is_none() {
                            let m = concat3("Unable to locate image alias from '", from.as_str(), "'");
                            proof {
                                lemma_alias_error_stays(w, k + 1, w.len() as int);
                            }
                            return Some(m);
                        }
                    }
                },
                _ => {},
            }
        }
        k = k + 1;
    }
    proof {
        if empty_at is None {
            assert(w[defs@.len() as int].1 == empty_definition::<C, A>(color));
        }
    }
    None
}

proof fn lemma_alias_error_stays<C, A>(defs: Seq<(Seq<char>, ImageDefinition<C, A>)>, n: int, m: int)
    requires
        0 <= n <= m,
        alias_error(defs, n) is Some,
    ensures
        alias_error(defs, m) == alias_error(defs, n),
    decreases m - n,
{
    if n < m {
        lemma_alias_error_stays(defs, n, m - 1);
    }
}

/// Builds one image set after the images built so far (see `set_built`).
fn build_set<C: Copy, A: Copy>(
    set_id: &String,
    def: &ImageSetDefinition<C, A>,
    textures: &Vec<String>,
    color: C,
    set: usize,
    images: &mut Vec<BuiltImage<C, A>>,
    global: &mut Vec<(String, usize)>,
) -> (r: Result<(), String>)
    requires
        set_buildable(*def, textures@, color),
    ensures
        set_built(
            set_id@,
            *def,
            textures@,
            color,
            old(images)@.map_values(|b: BuiltImage<C, A>| b@),
            named(old(global)@),
            set,
        ) == (match r {
            Ok(()) => Ok((final(images)@.map_values(|b: BuiltImage<C, A>| b@), named(final(global)@))),
            Err(m) => Err(m@),
        }),
{
    if let Some(m) = check_texture(&def.source, textures) {
        return Err(m);
    }
    let empty_at = find_entry(&def.images, "empty");
    if let Some(m) = check_aliases(&def.images, empty_at, Ghost(color)) {
        return Err(m);
    }
    let ghost entries = set_entries(def.images@, color);
    proof {
        assert forall|k: int| 0 <= k < entries.len() implies !((#[trigger] entries[k]).1.kind is Alias) by {
            lemma_no_alias_left(def.images@, color, k);
        }
    }
    let empty = ImageDefinition { color, kind: ImageDefinitionKind::Empty };
    let mut names: Vec<(String, usize)> = Vec::new();
    proof {
        assert(state_of(images@, names@) == BuildState {
            images: old(images)@.map_values(|b: BuiltImage<C, A>| b@),
            names: Seq::<(Seq<char>, usize)>::empty(),
        }) by {
            assert(named(names@) =~= Seq::<(Seq<char>, usize)>::empty());
        }
    }
    let (collected, timed, animated) = build_plain(&def.images, &empty, empty_at, images, &mut names, set);
    if !collect_waiting(&def.images, collected, images, &mut names, set) {
        return Err(String::from_str("Unable to resolve all collected images due to cyclic or invalid references"));
    }
    match time_waiting(&def.images, &timed, images, &mut names, set) {
        Ok(()) => {},
        Err(m) => {
            return Err(m);
        },
    }
    match animate_waiting(&def.images, &animated, images, &mut names, set) {
        Ok(()) => {},
        Err(m) => {
            return Err(m);
        },
    }
    merge_names(global, set_id, &names);
    Ok(())
}

/// The images of all image sets, and the names by which they are reached: the
/// name of an image is the name of its set, a slash, and its name in the set.
pub struct BuiltImages<C, A> {
    pub images: Vec<BuiltImage<C, A>>,
    pub names: Vec<(String, usize)>,
}

/// Builds the image sets of a theme, one after another (see `sets_built`).
/// `textures` names the textures that are there, and `empty_color` is the color
/// of the image `empty` that every set holds.
pub fn build_image_sets<C: Copy, A: Copy>(
    sets: &Vec<(String, ImageSetDefinition<C, A>)>,
    textures: &Vec<String>,
    empty_color: C,
) -> (r: Result<BuiltImages<C, A>, Error>)
    requires
        forall|s: int| 0 <= s < sets@.len() ==> set_buildable(#[trigger] sets@[s].1, textures@, empty_color),
    ensures
        match r {
            Ok(built) => sets_built(sets@, textures@, empty_color, sets@.len() as int) == Ok::<
                (Seq<ImageModel<C, A>>, Seq<(Seq<char>, usize)>),
                Seq<char>,
            >((built.images@.map_values(|b: BuiltImage<C, A>| b@), named(built.names@))),
            Err(e) => e matches Error::Theme(m) && sets_built(sets@, textures@, empty_color, sets@.len() as int)
                == Err::<(Seq<ImageModel<C, A>>, Seq<(Seq<char>, usize)>), Seq<char>>(m@),
        },
{
    let mut images: Vec<BuiltImage<C, A>> = Vec::new();
    let mut names: Vec<(String, usize)> = Vec::new();
    proof {
        assert(images@.map_values(|b: BuiltImage<C, A>| b@) =~= Seq::<ImageModel<C, A>>::empty());
        assert(named(names@) =~= Seq::<(Seq<char>, usize)>::empty());
    }
    let mut s: usize = 0;
    while s < sets.len()
        invariant
            forall|s: int| 0 <= s < sets@.len() ==> set_buildable(#[trigger] sets@[s].1, textures@, empty_color),
            s <= sets@.len(),
            sets_built(sets@, textures@, empty_color, s as int) == Ok::<
                (Seq<ImageModel<C, A>>, Seq<(Seq<char>, usize)>),
                Seq<char>,
            >((images@.map_values(|b: BuiltImage<C, A>| b@), named(names@))),
        decreases sets@.len() - s,
    {
        match build_set(&sets[s].0, &sets[s].1, textures, empty_color, s, &mut images, &mut names) {
            Ok(()) => {},
            Err(m) => {
                proof {
                    lemma_sets_built_fails(sets@, textures@, empty_color, s + 1, sets@.len() as int);
                }
                return Err(Error::Theme(m));
            },
        }
        s = s + 1;
    }
    Ok(BuiltImages { images, names })
}

proof fn lemma_sets_built_fails<C, A>(sets: Seq<(String, ImageSetDefinition<C, A>)>, textures: Seq<String>, color: C, n: int, m: int)
    requires
        0 <= n <= m,
        sets_built(sets, textures, color, n) is Err,
    ensures
        sets_built(sets, textures, color, m) == sets_built(sets, textures, color, n),
    decreases m - n,
{
    if n < m {
        lemma_sets_built_fails(sets, textures, color, n, m - 1);
    }
}

// ---------------------------------------------------------------------------
// Built images are linked without cycles
// ---------------------------------------------------------------------------

/// The positions of the images that a built image is made of.
pub open spec fn parts_of<C, A>(m: ImageModel<C, A>) -> Seq<usize> {
    match m.shape {
        ImageShape::Collected { sub_images } => sub_images.map_values(|s: (usize, SubImageDefinition)| s.0),
        ImageShape::Timed { frames, .. } => frames,
        ImageShape::Animated { states } => states.map_values(|s: (A, usize)| s.1),
        _ => Seq::empty(),
    }
}

/// Whether every image is made only of images that come before it in the list.
pub open spec fn images_linked<C, A>(images: Seq<ImageModel<C, A>>) -> bool {
    forall|i: int, j: int|
        0 <= i < images.len() && 0 <= j < parts_of(images[i]).len() ==> #[trigger] parts_of(images[i])[j] < i
}

/// Whether every name reaches one of the first `n` images.
pub open spec fn names_in_range(names: Seq<(Seq<char>, usize)>, n: nat) -> bool {
    forall|i: int| 0 <= i < names.len() ==> #[trigger] names[i].1 < n
}

/// Whether the images of a state are linked and its names reach them.
pub open spec fn state_linked<C, A>(st: BuildState<C, A>) -> bool {
    images_linked(st.images) && names_in_range(st.names, st.images.len())
}

proof fn lemma_keyed_set_in_range(names: Seq<(Seq<char>, usize)>, key: Seq<char>, value: usize, n: nat)
    requires
        names_in_range(names, n),
        value < n,
    ensures
        names_in_range(keyed_set(names, key, value), n),
{
    let s = keyed_set(names, key, value);
    assert forall|i: int| 0 <= i < s.len() implies #[trigger] s[i].1 < n by {
        match keyed_position(names, key) {
            Some(p) => {
                if i != p {
                    assert(s[i] == names[i]);
                }
            },
            None => {
                if i < names.len() {
                    assert(s[i] == names[i]);
                }
            },
        }
    }
}

proof fn lemma_position_named_in_range(names: Seq<(Seq<char>, usize)>, key: Seq<char>, n: nat)
    requires
        names_in_range(names, n),
        has_key(names, key),
    ensures
        position_named(names, key) < n,
{
    lemma_keyed_position(names, key);
    let p = keyed_position(names, key)->0;
    assert(names[p].1 < n);
}

proof fn lemma_added_linked<C, A>(st: BuildState<C, A>, key: Seq<char>, image: ImageModel<C, A>)
    requires
        state_linked(st),
        forall|j: int| 0 <= j < parts_of(image).len() ==> #[trigger] parts_of(image)[j] < st.images.len(),
    ensures
        state_linked(added(st, key, image)),
{
    let s = added(st, key, image);
    assert forall|i: int, j: int| 0 <= i < s.images.len() && 0 <= j < parts_of(s.images[i]).len() implies
        #[trigger] parts_of(s.images[i])[j] < i by {
        if i < st.images.len() {
            assert(s.images[i] == st.images[i]);
        }
    }
    assert(names_in_range(st.names, s.images.len()));
    lemma_keyed_set_in_range(st.names, key, st.images.len() as usize, s.images.len());
}

proof fn lemma_add_all_linked<C, A>(st: BuildState<C, A>, ins: Seq<(Seq<char>, ImageModel<C, A>)>)
    requires
        state_linked(st),
        forall|i: int| 0 <= i < ins.len() ==> parts_of(#[trigger] ins[i].1).len() == 0,
    ensures
        state_linked(add_all(st, ins)),
    decreases ins.len(),
{
    if ins.len() > 0 {
        lemma_add_all_linked(st, ins.drop_last());
        assert(parts_of(ins[ins.len() - 1].1).len() == 0);
        lemma_added_linked(add_all(st, ins.drop_last()), ins.last().0, ins.last().1);
    }
}

proof fn lemma_add_plain_linked<C, A>(entries: Seq<(Seq<char>, ImageDefinition<C, A>)>, st: BuildState<C, A>, set: usize, n: int)
    requires
        state_linked(st),
    ensures
        state_linked(add_plain(entries, st, set, n)),
    decreases n,
{
    if n > 0 {
        lemma_add_plain_linked(entries, st, set, n - 1);
        let ins = plain_images(entries[n - 1].0, entries[n - 1].1, set);
        assert forall|i: int| 0 <= i < ins.len() implies parts_of(#[trigger] ins[i].1).len() == 0 by {
        }
        lemma_add_all_linked(add_plain(entries, st, set, n - 1), ins);
    }
}

proof fn lemma_collect_one_linked<C, A>(item: (Seq<char>, ImageDefinition<C, A>), st: BuildState<C, A>, set: usize)
    requires
        state_linked(st),
        collect_one(item, st, set) is Some,
    ensures
        state_linked(collect_one(item, st, set)->0),
{
    let image = collected_image(set, item.1, st.names);
    let subs = sub_images_of(item.1);
    assert forall|j: int| 0 <= j < parts_of(image).len() implies #[trigger] parts_of(image)[j] < st.images.len() by {
        assert(has_key(st.names, subs[j].0@));
        lemma_position_named_in_range(st.names, subs[j].0@, st.images.len());
    }
    lemma_added_linked(st, item.0, image);
}

proof fn lemma_collect_in_turns_linked<C, A>(queue: Seq<(Seq<char>, ImageDefinition<C, A>)>, st: BuildState<C, A>, failures: nat, set: usize)
    requires
        state_linked(st),
        collect_in_turns(queue, st, failures, set) is Some,
    ensures
        state_linked(collect_in_turns(queue, st, failures, set)->0),
    decreases queue.len(), queue.len() + 1 - failures,
{
    if queue.len() > 0 && failures <= queue.len() {
        match collect_one(queue[0], st, set) {
            Some(next) => {
                lemma_collect_one_linked(queue[0], st, set);
                lemma_collect_in_turns_linked(queue.drop_first(), next, 0, set);
            },
            None => {
                lemma_collect_in_turns_linked(queue.drop_first().push(queue[0]), st, failures + 1, set);
            },
        }
    }
}

proof fn lemma_first_missing_none(ids: Seq<Seq<char>>, names: Seq<(Seq<char>, usize)>, n: int, i: int)
    requires
        first_missing(ids, names, n) is None,
        0 <= i < n,
    ensures
        has_key(names, ids[i]),
    decreases n,
{
    if i < n - 1 {
        lemma_first_missing_none(ids, names, n - 1, i);
    }
}

proof fn lemma_time_all_linked<C, A>(items: Seq<(Seq<char>, ImageDefinition<C, A>)>, st: BuildState<C, A>, set: usize, n: int)
    requires
        state_linked(st),
        time_all(items, st, set, n) is Ok,
    ensures
        state_linked(time_all(items, st, set, n)->Ok_0),
    decreases n,
{
    if n > 0 {
        lemma_time_all_linked(items, st, set, n - 1);
        let s = time_all(items, st, set, n - 1)->Ok_0;
        let item = items[n - 1];
        let image = timed_image(set, item.1, s.names);
        let ids = frame_names(item.1);
        assert forall|j: int| 0 <= j < parts_of(image).len() implies #[trigger] parts_of(image)[j] < s.images.len() by {
            lemma_first_missing_none(ids, s.names, ids.len() as int, j);
            lemma_position_named_in_range(s.names, ids[j], s.images.len());
        }
        lemma_added_linked(s, item.0, image);
    }
}

proof fn lemma_animate_all_linked<C, A>(items: Seq<(Seq<char>, ImageDefinition<C, A>)>, st: BuildState<C, A>, set: usize, n: int)
    requires
        state_linked(st),
        animate_all(items, st, set, n) is Ok,
    ensures
        state_linked(animate_all(items, st, set, n)->Ok_0),
    decreases n,
{
    if n > 0 {
        lemma_animate_all_linked(items, st, set, n - 1);
        let s = animate_all(items, st, set, n - 1)->Ok_0;
        let item = items[n - 1];
        let image = animated_image(set, item.1, s.names);
        let ids = state_names(item.1);
        assert forall|j: int| 0 <= j < parts_of(image).len() implies #[trigger] parts_of(image)[j] < s.images.len() by {
            lemma_first_missing_none(ids, s.names, ids.len() as int, j);
            lemma_position_named_in_range(s.names, ids[j], s.images.len());
        }
        lemma_added_linked(s, item.0, image);
    }
}

proof fn lemma_merged_in_range(global: Seq<(Seq<char>, usize)>, set_id: Seq<char>, local: Seq<(Seq<char>, usize)>, n: int, count: nat)
    requires
        names_in_range(global, count),
        names_in_range(local, count),
        n <= local.len(),
    ensures
        names_in_range(merged_names(global, set_id, local, n), count),
    decreases n,
{
    if n > 0 {
        lemma_merged_in_range(global, set_id, local, n - 1, count);
        assert(local[n - 1].1 < count);
        lemma_keyed_set_in_range(merged_names(global, set_id, local, n - 1), set_id + "/"@ + local[n - 1].0, local[n - 1].1, count);
    }
}

proof fn lemma_set_built_linked<C, A>(
    set_id: Seq<char>,
    def: ImageSetDefinition<C, A>,
    textures: Seq<String>,
    color: C,
    images: Seq<ImageModel<C, A>>,
    global: Seq<(Seq<char>, usize)>,
    set: usize,
)
    requires
        images_linked(images),
        names_in_range(global, images.len()),
        set_built(set_id, def, textures, color, images, global, set) is Ok,
    ensures
        ({
            let r = set_built(set_id, def, textures, color, images, global, set)->Ok_0;
            images_linked(r.0) && names_in_range(r.1, r.0.len()) && images.len() <= r.0.len()
        }),
{
    let entries = set_entries(def.images@, color);
    let n = entries.len() as int;
    let st0 = BuildState { images, names: Seq::<(Seq<char>, usize)>::empty() };
    let plain = add_plain(entries, st0, set, n);
    lemma_add_plain_linked(entries, st0, set, n);
    lemma_add_plain_grows(entries, st0, set, n);
    let collected = collect_in_turns(entries_where(entries, n, is_collected()), plain, 0, set)->0;
    lemma_collect_in_turns_linked(entries_where(entries, n, is_collected()), plain, 0, set);
    lemma_collect_in_turns_grows(entries_where(entries, n, is_collected()), plain, 0, set);
    let timed = entries_where(entries, n, is_timed());
    let shown = time_all(timed, collected, set, timed.len() as int)->Ok_0;
    lemma_time_all_linked(timed, collected, set, timed.len() as int);
    lemma_time_all_grows(timed, collected, set, timed.len() as int);
    let animated = entries_where(entries, n, is_animated());
    let done = animate_all(animated, shown, set, animated.len() as int)->Ok_0;
    lemma_animate_all_linked(animated, shown, set, animated.len() as int);
    lemma_animate_all_grows(animated, shown, set, animated.len() as int);
    assert(names_in_range(global, done.images.len()));
    lemma_merged_in_range(global, set_id, done.names, done.names.len() as int, done.images.len());
}

proof fn lemma_add_all_grows<C, A>(st: BuildState<C, A>, ins: Seq<(Seq<char>, ImageModel<C, A>)>)
    ensures
        st.images.len() <= add_all(st, ins).images.len(),
    decreases ins.len(),
{
    if ins.len() > 0 {
        lemma_add_all_grows(st, ins.drop_last());
    }
}

proof fn lemma_add_plain_grows<C, A>(entries: Seq<(Seq<char>, ImageDefinition<C, A>)>, st: BuildState<C, A>, set: usize, n: int)
    ensures
        st.images.len() <= add_plain(entries, st, set, n).images.len(),
    decreases n,
{
    if n > 0 {
        lemma_add_plain_grows(entries, st, set, n - 1);
        lemma_add_all_grows(add_plain(entries, st, set, n - 1), plain_images(entries[n - 1].0, entries[n - 1].1, set));
    }
}

proof fn lemma_collect_in_turns_grows<C, A>(queue: Seq<(Seq<char>, ImageDefinition<C, A>)>, st: BuildState<C, A>, failures: nat, set: usize)
    requires
        collect_in_turns(queue, st, failures, set) is Some,
    ensures
        st.images.len() <= collect_in_turns(queue, st, failures, set)->0.images.len(),
    decreases queue.len(), queue.len() + 1 - failures,
{
    if queue.len() > 0 && failures <= queue.len() {
        match collect_one(queue[0], st, set) {
            Some(next) => {
                lemma_collect_in_turns_grows(queue.drop_first(), next, 0, set);
            },
            None => {
                lemma_collect_in_turns_grows(queue.drop_first().push(queue[0]), st, failures + 1, set);
            },
        }
    }
}

proof fn lemma_time_all_grows<C, A>(items: Seq<(Seq<char>, ImageDefinition<C, A>)>, st: BuildState<C, A>, set: usize, n: int)
    requires
        time_all(items, st, set, n) is Ok,
    ensures
        st.images.len() <= time_all(items, st, set, n)->Ok_0.images.len(),
    decreases n,
{
    if n > 0 {
        lemma_time_all_grows(items, st, set, n - 1);
    }
}

proof fn lemma_animate_all_grows<C, A>(items: Seq<(Seq<char>, ImageDefinition<C, A>)>, st: BuildState<C, A>, set: usize, n: int)
    requires
        animate_all(items, st, set, n) is Ok,
    ensures
        st.images.len() <= animate_all(items, st, set, n)->Ok_0.images.len(),
    decreases n,
{
    if n > 0 {
        lemma_animate_all_grows(items, st, set, n - 1);
    }
}

/// The built images are linked without cycles: every image made of other images
/// names only images built before it, and every name reaches a built image.
pub proof fn lemma_built_images_linked<C, A>(sets: Seq<(String, ImageSetDefinition<C, A>)>, textures: Seq<String>, color: C, n: int)
    requires
        sets_built(sets, textures, color, n) is Ok,
    ensures
        ({
            let r = sets_built(sets, textures, color, n)->Ok_0;
            images_linked(r.0) && names_in_range(r.1, r.0.len())
        }),
    decreases n,
{
    if n > 0 {
        lemma_built_images_linked(sets, textures, color, n - 1);
        let r = sets_built(sets, textures, color, n - 1)->Ok_0;
        lemma_set_built_linked(sets[n - 1].0@, sets[n - 1].1, textures, color, r.0, r.1, (n - 1) as usize);
    }
}

// ---------------------------------------------------------------------------
// Every set holds the image `empty`
// ---------------------------------------------------------------------------

proof fn lemma_added_keys<C, A>(st: BuildState<C, A>, key: Seq<char>, image: ImageModel<C, A>, x: Seq<char>)
    ensures
        has_key(added(st, key, image).names, x) <==> (has_key(st.names, x) || x == key),
{
    lemma_keyed_set(st.names, key, st.images.len() as usize, x);
}

proof fn lemma_add_all_keys<C, A>(st: BuildState<C, A>, ins: Seq<(Seq<char>, ImageModel<C, A>)>, x: Seq<char>)
    requires
        has_key(st.names, x) || exists|j: int| 0 <= j < ins.len() && ins[j].0 == x,
    ensures
        has_key(add_all(st, ins).names, x),
    decreases ins.len(),
{
    if ins.len() > 0 {
        let prev = ins.drop_last();
        if !has_key(st.names, x) {
            let j = choose|j: int| 0 <= j < ins.len() && ins[j].0 == x;
            if j < prev.len() {
                assert(prev[j].0 == x);
            }
        }
        if has_key(st.names, x) || exists|j: int| 0 <= j < prev.len() && prev[j].0 == x {
            lemma_add_all_keys(st, prev, x);
        }
        lemma_added_keys(add_all(st, prev), ins.last().0, ins.last().1, x);
    }
}

proof fn lemma_add_plain_keys<C, A>(entries: Seq<(Seq<char>, ImageDefinition<C, A>)>, st: BuildState<C, A>, set: usize, n: int, k: int, x: Seq<char>)
    requires
        0 <= k < n,
        exists|j: int|
            0 <= j < plain_images(entries[k].0, entries[k].1, set).len() && plain_images(
                entries[k].0,
                entries[k].1,
                set,
            )[j].0 == x,
    ensures
        has_key(add_plain(entries, st, set, n).names, x),
    decreases n,
{
    let ins = plain_images(entries[n - 1].0, entries[n - 1].1, set);
    if k < n - 1 {
        lemma_add_plain_keys(entries, st, set, n - 1, k, x);
    }
    lemma_add_all_keys(add_plain(entries, st, set, n - 1), ins, x);
}

proof fn lemma_collect_keeps_keys<C, A>(queue: Seq<(Seq<char>, ImageDefinition<C, A>)>, st: BuildState<C, A>, failures: nat, set: usize, x: Seq<char>)
    requires
        collect_in_turns(queue, st, failures, set) is Some,
        has_key(st.names, x),
    ensures
        has_key(collect_in_turns(queue, st, failures, set)->0.names, x),
    decreases queue.len(), queue.len() + 1 - failures,
{
    if queue.len() > 0 && failures <= queue.len() {
        match collect_one(queue[0], st, set) {
            Some(next) => {
                lemma_added_keys(st, queue[0].0, collected_image(set, queue[0].1, st.names), x);
                lemma_collect_keeps_keys(queue.drop_first(), next, 0, set, x);
            },
            None => {
                lemma_collect_keeps_keys(queue.drop_first().push(queue[0]), st, failures + 1, set, x);
            },
        }
    }
}

proof fn lemma_time_all_keeps_keys<C, A>(items: Seq<(Seq<char>, ImageDefinition<C, A>)>, st: BuildState<C, A>, set: usize, n: int, x: Seq<char>)
    requires
        time_all(items, st, set, n) is Ok,
        has_key(st.names, x),
    ensures
        has_key(time_all(items, st, set, n)->Ok_0.names, x),
    decreases n,
{
    if n > 0 {
        lemma_time_all_keeps_keys(items, st, set, n - 1, x);
        let s = time_all(items, st, set, n - 1)->Ok_0;
        lemma_added_keys(s, items[n - 1].0, timed_image(set, items[n - 1].1, s.names), x);
    }
}

proof fn lemma_animate_all_keeps_keys<C, A>(items: Seq<(Seq<char>, ImageDefinition<C, A>)>, st: BuildState<C, A>, set: usize, n: int, x: Seq<char>)
    requires
        animate_all(items, st, set, n) is Ok,
        has_key(st.names, x),
    ensures
        has_key(animate_all(items, st, set, n)->Ok_0.names, x),
    decreases n,
{
    if n > 0 {
        lemma_animate_all_keeps_keys(items, st, set, n - 1, x);
        let s = animate_all(items, st, set, n - 1)->Ok_0;
        lemma_added_keys(s, items[n - 1].0, animated_image(set, items[n - 1].1, s.names), x);
    }
}

proof fn lemma_merged_keys(global: Seq<(Seq<char>, usize)>, set_id: Seq<char>, local: Seq<(Seq<char>, usize)>, n: int, x: Seq<char>)
    requires
        0 <= n <= local.len(),
        has_key(global, x) || exists|k: int| 0 <= k < n && x == set_id + "/"@ + local[k].0,
    ensures
        has_key(merged_names(global, set_id, local, n), x),
    decreases n,
{
    if n > 0 {
        let prev = merged_names(global, set_id, local, n - 1);
        let key = set_id + "/"@ + local[n - 1].0;
        if has_key(global, x) || exists|k: int| 0 <= k < n - 1 && x == set_id + "/"@ + local[k].0 {
            lemma_merged_keys(global, set_id, local, n - 1, x);
        }
        lemma_keyed_set(prev, key, local[n - 1].1, x);
    }
}

proof fn lemma_set_built_keeps_keys<C, A>(
    set_id: Seq<char>,
    def: ImageSetDefinition<C, A>,
    textures: Seq<String>,
    color: C,
    images: Seq<ImageModel<C, A>>,
    global: Seq<(Seq<char>, usize)>,
    set: usize,
    x: Seq<char>,
)
    requires
        set_built(set_id, def, textures, color, images, global, set) is Ok,
        has_key(global, x) || x == set_id + "/"@ + "empty"@,
    ensures
        has_key(set_built(set_id, def, textures, color, images, global, set)->Ok_0.1, x),
{
    let w = with_empty(def.images@, color);
    let entries = set_entries(def.images@, color);
    let n = entries.len() as int;
    let st0 = BuildState { images, names: Seq::<(Seq<char>, usize)>::empty() };
    let plain = add_plain(entries, st0, set, n);
    let e = "empty"@;
    lemma_keyed_set(named(def.images@), e, empty_definition::<C, A>(color), e);
    lemma_keyed_position(w, e);
    let p = keyed_position(w, e)->0;
    assert(w[p].1 == empty_definition::<C, A>(color));
    assert(entries[p] == (e, empty_definition::<C, A>(color)));
    assert(plain_images(entries[p].0, entries[p].1, set)[0].0 == e);
    lemma_add_plain_keys(entries, st0, set, n, p, e);
    let queue = entries_where(entries, n, is_collected());
    let collected = collect_in_turns(queue, plain, 0, set)->0;
    lemma_collect_keeps_keys(queue, plain, 0, set, e);
    let timed = entries_where(entries, n, is_timed());
    let shown = time_all(timed, collected, set, timed.len() as int)->Ok_0;
    lemma_time_all_keeps_keys(timed, collected, set, timed.len() as int, e);
    let animated = entries_where(entries, n, is_animated());
    let done = animate_all(animated, shown, set, animated.len() as int)->Ok_0;
    lemma_animate_all_keeps_keys(animated, shown, set, animated.len() as int, e);
    if !has_key(global, x) {
        let k = choose|k: int| 0 <= k < done.names.len() && done.names[k].0 == e;
        assert(x == set_id + "/"@ + done.names[k].0);
    }
    lemma_merged_keys(global, set_id, done.names, done.names.len() as int, x);
}

proof fn lemma_sets_built_keeps_keys<C, A>(sets: Seq<(String, ImageSetDefinition<C, A>)>, textures: Seq<String>, color: C, n: int, m: int, x: Seq<char>)
    requires
        0 <= n <= m,
        sets_built(sets, textures, color, m) is Ok,
        has_key(sets_built(sets, textures, color, n)->Ok_0.1, x),
    ensures
        has_key(sets_built(sets, textures, color, m)->Ok_0.1, x),
    decreases m - n,
{
    if n < m {
        lemma_sets_built_ok_prefix(sets, textures, color, n + 1, m);
        let r = sets_built(sets, textures, color, n)->Ok_0;
        lemma_set_built_keeps_keys(sets[n].0@, sets[n].1, textures, color, r.0, r.1, n as usize, x);
        lemma_sets_built_keeps_keys(sets, textures, color, n + 1, m, x);
    }
}

proof fn lemma_sets_built_ok_prefix<C, A>(sets: Seq<(String, ImageSetDefinition<C, A>)>, textures: Seq<String>, color: C, n: int, m: int)
    requires
        0 <= n <= m,
        sets_built(sets, textures, color, m) is Ok,
    ensures
        sets_built(sets, textures, color, n) is Ok,
    decreases m - n,
{
    if n < m {
        lemma_sets_built_ok_prefix(sets, textures, color, n, m - 1);
    }
}

/// Every image set holds the image `empty`, which a theme may name to draw
/// nothing: once the sets are built, the name of each set followed by `/empty`
/// reaches an image.
pub proof fn lemma_empty_image_named<C, A>(sets: Seq<(String, ImageSetDefinition<C, A>)>, textures: Seq<String>, color: C, n: int, s: int)
    requires
        sets_built(sets, textures, color, n) is Ok,
        0 <= s < n,
    ensures
        has_key(sets_built(sets, textures, color, n)->Ok_0.1, sets[s].0@ + "/"@ + "empty"@),
{
    let x = sets[s].0@ + "/"@ + "empty"@;
    lemma_sets_built_ok_prefix(sets, textures, color, s + 1, n);
    let r = sets_built(sets, textures, color, s)->Ok_0;
    lemma_set_built_keeps_keys(sets[s].0@, sets[s].1, textures, color, r.0, r.1, s as usize, x);
    lemma_sets_built_keeps_keys(sets, textures, color, s + 1, n, x);
}

} // verus!
