use thyme::border::{border_from_entries, BorderSides};

const MESSAGE: &str = "Unable to parse border from map. Must specify values for: all OR width, height, OR top, bot, left, right Unspecified values are set to 0";

fn entries(list: &[(&str, i32)]) -> Vec<(String, i32)> {
    list.iter().map(|(k, v)| (k.to_string(), *v)).collect()
}

#[test]
fn all_sets_every_side() {
    assert_eq!(
        border_from_entries(&entries(&[("all", 5)]), 0),
        Ok(BorderSides { top: 5, bot: 5, left: 5, right: 5 })
    );
}

#[test]
fn width_and_height_set_pairs_of_sides() {
    assert_eq!(
        border_from_entries(&entries(&[("width", 2), ("height", 3)]), 0),
        Ok(BorderSides { top: 3, bot: 3, left: 2, right: 2 })
    );
    assert_eq!(
        border_from_entries(&entries(&[("height", 3)]), 0),
        Ok(BorderSides { top: 3, bot: 3, left: 0, right: 0 })
    );
}

#[test]
fn sides_left_out_are_zero() {
    assert_eq!(
        border_from_entries(&entries(&[("top", 1), ("left", 4)]), 0),
        Ok(BorderSides { top: 1, bot: 0, left: 4, right: 0 })
    );
    assert_eq!(
        border_from_entries(&entries(&[("right", 9), ("bot", 8)]), -1),
        Ok(BorderSides { top: -1, bot: 8, left: -1, right: 9 })
    );
}

#[test]
fn a_later_key_overrides_an_earlier_one() {
    assert_eq!(
        border_from_entries(&entries(&[("all", 1), ("all", 7)]), 0),
        Ok(BorderSides { top: 7, bot: 7, left: 7, right: 7 })
    );
}

#[test]
fn mixed_unknown_or_missing_keys_are_refused() {
    assert_eq!(border_from_entries(&entries(&[("all", 1), ("top", 2)]), 0), Err(MESSAGE.to_string()));
    assert_eq!(border_from_entries(&entries(&[("width", 1), ("left", 2)]), 0), Err(MESSAGE.to_string()));
    assert_eq!(border_from_entries(&entries(&[("size", 1)]), 0), Err(MESSAGE.to_string()));
    assert_eq!(border_from_entries(&entries(&[]), 0), Err(MESSAGE.to_string()));
}
