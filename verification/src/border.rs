//! Borders as a theme writes them: a map that gives either `all` sides at once,
//! or a `width` (left and right) and a `height` (top and bottom), or each of
//! `top`, `bot`, `left` and `right`.  Sides left out are zero.

use vstd::prelude::*;

use crate::text::str_eq;

verus! {

/// Which of the three ways of writing a border a map uses.
#[derive(Copy, Clone, Debug, PartialEq, Eq, Structural)]
pub enum BorderMode {
    /// `all`
    One,
    /// `width` and `height`
    Two,
    /// `top`, `bot`, `left` and `right`
    Four,
}

/// The four sides of a border.
#[derive(Copy, Clone, Debug, PartialEq, Eq)]
pub struct BorderSides<V> {
    pub top: V,
    pub bot: V,
    pub left: V,
    pub right: V,
}

/// The message a border map that cannot be read fails with.
pub open spec fn border_error_message() -> Seq<char> {
    "Unable to parse border from map. Must specify values for: all OR width, height, OR top, bot, left, right Unspecified values are set to 0"@
}

/// The way of writing a border that a key belongs to, and the value slot it sets.
pub open spec fn key_slot(key: Seq<char>) -> Option<(BorderMode, int)> {
    if key == "all"@ {
        Some((BorderMode::One, 0))
    } else if key == "width"@ {
        Some((BorderMode::Two, 0))
    } else if key == "height"@ {
        Some((BorderMode::Two, 1))
    } else if key == "top"@ {
        Some((BorderMode::Four, 0))
    } else if key == "bot"@ {
        Some((BorderMode::Four, 1))
    } else if key == "left"@ {
        Some((BorderMode::Four, 2))
    } else if key == "right"@ {
        Some((BorderMode::Four, 3))
    } else {
        None
    }
}

/// Whether every key of the map is known and of the way of writing `mode`.
pub open spec fn all_of_mode<V>(entries: Seq<(String, V)>, mode: BorderMode) -> bool {
    forall|i: int| 0 <= i < entries.len() ==> (key_slot((#[trigger] entries[i]).0@) matches Some(ks) && ks.0 == mode)
}

/// The way of writing a border that the first key of the map belongs to.
pub open spec fn first_mode<V>(entries: Seq<(String, V)>) -> BorderMode {
    match key_slot(entries[0].0@) {
        Some(ks) => ks.0,
        None => BorderMode::One,
    }
}

/// Whether the map can be read as a border: it is not empty, every key is known,
/// and all keys belong to the same way of writing a border.
pub open spec fn border_map_ok<V>(entries: Seq<(String, V)>) -> bool {
    &&& entries.len() > 0
    &&& key_slot(entries[0].0@) is Some
    &&& all_of_mode(entries, first_mode(entries))
}

/// The value that the map gives slot `slot`: that of its last key for the slot, or
/// `zero` if no key sets it.
pub open spec fn slot_value<V>(entries: Seq<(String, V)>, slot: int, zero: V) -> V
    decreases entries.len(),
{
    if entries.len() == 0 {
        zero
    } else if key_slot(entries.last().0@) matches Some(ks) && ks.1 == slot {
        entries.last().1
    } else {
        slot_value(entries.drop_last(), slot, zero)
    }
}

/// The border a map gives, for the way of writing `mode`.
pub open spec fn border_of<V>(entries: Seq<(String, V)>, mode: BorderMode, zero: V) -> BorderSides<V> {
    let v0 = slot_value(entries, 0, zero);
    let v1 = slot_value(entries, 1, zero);
    match mode {
        BorderMode::One => BorderSides { top: v0, bot: v0, left: v0, right: v0 },
        BorderMode::Two => BorderSides { top: v1, bot: v1, left: v0, right: v0 },
        BorderMode::Four => BorderSides {
            top: v0,
            bot: v1,
            left: slot_value(entries, 2, zero),
            right: slot_value(entries, 3, zero),
        },
    }
}

fn slot_of(key: &str) -> (r: Option<(BorderMode, usize)>)
    ensures
        match r {
            Some((mode, slot)) => key_slot(key@) == Some((mode, slot as int)),
            None => key_slot(key@) is None,
        },
{
    if str_eq(key, "all") {
        Some((BorderMode::One, 0))
    } else if str_eq(key, "width") {
        Some((BorderMode::Two, 0))
    } else if str_eq(key, "height") {
        Some((BorderMode::Two, 1))
    } else if str_eq(key, "top") {
        Some((BorderMode::Four, 0))
    } else if str_eq(key, "bot") {
        Some((BorderMode::Four, 1))
    } else if str_eq(key, "left") {
        Some((BorderMode::Four, 2))
    } else if str_eq(key, "right") {
        Some((BorderMode::Four, 3))
    } else {
        None
    }
}

fn border_error() -> (s: String)
    ensures
        s@ == border_error_message(),
{
    String::from_str(
        "Unable to parse border from map. Must specify values for: all OR width, height, OR top, bot, left, right Unspecified values are set to 0",
    )
}

/// Reads a border from the entries of a theme's border map, in order.  A side that
/// no key sets is `zero`, and a later key for a side overrides an earlier one.
/// Fails if the map is empty, holds an unknown key, or mixes ways of writing a
/// border.
pub fn border_from_entries<V: Copy>(entries: &Vec<(String, V)>, zero: V) -> (r: Result<BorderSides<V>, String>)
    ensures
        (match r {
            Ok(b) => border_map_ok(entries@) && b == border_of(entries@, first_mode(entries@), zero),
            Err(msg) => !border_map_ok(entries@) && msg@ == border_error_message(),
        }),
{
    let mut mode: Option<BorderMode> = None;
    let mut data: [Option<V>; 4] = [None, None, None, None];
    let mut i: usize = 0;
    while i < entries.len()
        invariant
            i <= entries@.len(),
            i == 0 <==> mode is None,
            mode matches Some(m) ==> key_slot(entries@[0].0@) matches Some(ks) && ks.0 == m
                && all_of_mode(entries@.take(i as int), m),
            forall|s: int|
                0 <= s < 4 ==> (match #[trigger] data@[s] {
                    Some(v) => slot_value(entries@.take(i as int), s, zero) == v,
                    None => slot_value(entries@.take(i as int), s, zero) == zero,
                }),
        decreases entries@.len() - i,
    {
        let ghost prefix = entries@.take(i as int);
        let ghost next = entries@.take(i + 1);
        proof {
            assert(next.drop_last() =~= prefix);
            assert(next.last() == entries@[i as int]);
        }
        match slot_of(entries[i].0.as_str()) {
            None => {
                proof {
                    assert(key_slot(entries@[i as int].0@) is None);
                    if border_map_ok(entries@) {
                        assert(all_of_mode(entries@, first_mode(entries@)));
                        assert(key_slot(entries@[i as int].0@) is Some);
                    }
                }
                return Err(border_error());
            },
            Some((key_mode, slot)) => {
                match mode {
                    None => {
                        mode = Some(key_mode);
                    },
                    Some(m) => {
                        if m != key_mode {
                            proof {
                                if border_map_ok(entries@) {
                                    assert(all_of_mode(entries@, first_mode(entries@)));
                                    assert(key_slot(entries@[i as int].0@) matches Some(ks) && ks.0 == m);
                                }
                            }
                            return Err(border_error());
                        }
                    },
                }
                let value = entries[i].1;
                data[slot] = Some(value);
                proof {
                    assert forall|j: int| 0 <= j < next.len() implies (key_slot((#[trigger] next[j]).0@) matches Some(ks)
                        && ks.0 == key_mode) by {
                        if j < i {
                            assert(next[j] == prefix[j]);
                        }
                    }
                }
            },
        }
        i = i + 1;
    }
    proof {
        assert(entries@.take(entries@.len() as int) =~= entries@);
    }
    match mode {
        None => {
            return Err(border_error());
        },
        Some(m) => {
            let v0 = match data[0] {
                Some(v) => v,
                None => zero,
            };
            let v1 = match data[1] {
                Some(v) => v,
                None => zero,
            };
            let v2 = match data[2] {
                Some(v) => v,
                None => zero,
            };
            let v3 = match data[3] {
                Some(v) => v,
                None => zero,
            };
            proof {
                assert(slot_value(entries@, 0, zero) == v0);
                assert(slot_value(entries@, 1, zero) == v1);
                assert(slot_value(entries@, 2, zero) == v2);
                assert(slot_value(entries@, 3, zero) == v3);
            }
            match m {
                BorderMode::One => Ok(BorderSides { top: v0, bot: v0, left: v0, right: v0 }),
                BorderMode::Two => Ok(BorderSides { top: v1, bot: v1, left: v0, right: v0 }),
                BorderMode::Four => Ok(BorderSides { top: v0, bot: v1, left: v2, right: v3 }),
            }
        },
    }
}

} // verus!
