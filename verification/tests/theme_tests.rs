use thyme::layout::{Align, HeightRelative, Layout, WidthRelative};
use thyme::theme::{Style, ThemeSet, WidgetThemeDefinition, MAX_FROM_ITERATIONS};
use thyme::image_set::{ImageDefinition, ImageDefinitionKind, ImageFill, ImageSetDefinition};
use thyme::font::FontDefinition;
use thyme::render::FontHandle;
use thyme::Error;

fn unset() -> Style<u32> {
    Style {
        text_color: None,
        image_color: None,
        wants_mouse: None,
        wants_scroll: None,
        text_align: None,
        pos: None,
        screen_pos: None,
        width: None,
        height: None,
        width_from: None,
        height_from: None,
        border: None,
        align: None,
        child_align: None,
        layout: None,
        layout_spacing: None,
    }
}

fn def() -> WidgetThemeDefinition<u32, String> {
    WidgetThemeDefinition {
        from: None,
        text: None,
        font: None,
        background: None,
        foreground: None,
        tooltip: None,
        style: unset(),
        size: None,
        size_from: None,
        children: Vec::new(),
        custom: Vec::new(),
    }
}

fn images() -> Vec<String> {
    vec!["gui/button".to_string(), "gui/arrow_down".to_string(), "gui/frame".to_string()]
}

fn fonts() -> Vec<(String, u32)> {
    vec![("small".to_string(), 10), ("heading".to_string(), 20)]
}

fn font_defs() -> Vec<(String, FontDefinition)> {
    vec![
        ("small".to_string(), FontDefinition { source: "roboto".to_string(), characters: Vec::new() }),
        ("heading".to_string(), FontDefinition { source: "roboto".to_string(), characters: Vec::new() }),
    ]
}

fn font_sources() -> Vec<String> {
    vec!["roboto".to_string()]
}

fn message(e: Error) -> String {
    match e {
        Error::Theme(msg) => msg,
        Error::FontSource(msg) => panic!("unexpected font source error {}", msg),
    }
}

fn button_and_combo_box() -> Vec<(String, WidgetThemeDefinition<u32, String>)> {
    let mut label = def();
    label.text = Some("Hi".to_string());
    label.style.text_align = Some(Align::Center);

    let mut button = def();
    button.background = Some("gui/button".to_string());
    button.font = Some("small".to_string());
    button.style.wants_mouse = Some(true);
    button.style.border = Some(5);
    button.children.push(("label".to_string(), label));

    let mut expand = def();
    expand.size = Some((12, 12));
    expand.style.align = Some(Align::Right);
    expand.foreground = Some("gui/arrow_down".to_string());

    let mut combo_box = def();
    combo_box.from = Some("button".to_string());
    combo_box.style.border = Some(8);
    combo_box.children.push(("expand".to_string(), expand));

    vec![("button".to_string(), button), ("combo_box".to_string(), combo_box)]
}

#[test]
fn themes_are_flattened_in_order() {
    let set = ThemeSet::new(button_and_combo_box(), images(), fonts()).unwrap();
    assert_eq!(set.default_theme().id, "default");
    assert_eq!(set.handle("default").unwrap().id(), 0);
    assert_eq!(set.handle("button").unwrap().id(), 1);
    assert_eq!(set.handle("button/label").unwrap().id(), 2);
    assert_eq!(set.handle("combo_box").unwrap().id(), 3);
    assert_eq!(set.handle("combo_box/expand").unwrap().id(), 4);
    let label = set.theme("button/label").unwrap();
    assert_eq!(label.full_id, "button/label");
    assert_eq!(label.parent_handle, set.handle("button"));
    assert!(set.theme("label").is_none());
}

#[test]
fn a_theme_inherits_what_it_leaves_unset() {
    let set = ThemeSet::new(button_and_combo_box(), images(), fonts()).unwrap();
    let combo = set.theme("combo_box").unwrap();
    assert!(combo.from.is_none());
    assert_eq!(combo.style.wants_mouse, Some(true));
    assert_eq!(combo.style.border, Some(8));
    assert_eq!(combo.background.unwrap().id(), 0);
    assert_eq!(combo.font, Some(10));
    let button = set.theme("button").unwrap();
    assert_eq!(button.style.border, Some(5));
}

#[test]
fn a_theme_gets_copies_of_the_children_it_lacks() {
    let set = ThemeSet::new(button_and_combo_box(), images(), fonts()).unwrap();
    let combo = set.theme("combo_box").unwrap();
    assert_eq!(combo.children.len(), 2);
    let copied = set.theme("combo_box/label").unwrap();
    assert_eq!(copied.id, "label");
    assert_eq!(copied.text.as_deref(), Some("Hi"));
    assert_eq!(copied.style.text_align, Some(Align::Center));
    assert_eq!(copied.parent_handle, set.handle("combo_box"));
    let expand = set.theme("combo_box/expand").unwrap();
    assert_eq!(expand.style.width, Some(12));
    assert_eq!(expand.style.height, Some(12));
    assert_eq!(expand.style.align, Some(Align::Right));
    assert_eq!(expand.foreground.unwrap().id(), 1);
}

#[test]
fn size_takes_the_place_of_width_and_height() {
    let mut item = def();
    item.style.width = Some(1);
    item.style.height = Some(2);
    item.size_from = Some((WidthRelative::Parent, HeightRelative::FontLine));
    item.style.width_from = Some(WidthRelative::Normal);
    let mut sized = def();
    sized.style.width = Some(1);
    sized.size = Some((30, 40));
    let set = ThemeSet::new(
        vec![("item".to_string(), item), ("sized".to_string(), sized)],
        images(),
        fonts(),
    )
    .unwrap();
    let item = set.theme("item").unwrap();
    assert_eq!(item.style.width, Some(1));
    assert_eq!(item.style.height, Some(2));
    assert_eq!(item.style.width_from, Some(WidthRelative::Parent));
    assert_eq!(item.style.height_from, Some(HeightRelative::FontLine));
    let sized = set.theme("sized").unwrap();
    assert_eq!(sized.style.width, Some(30));
    assert_eq!(sized.style.height, Some(40));
}

#[test]
fn from_may_name_a_sibling() {
    let mut title = def();
    title.style.layout = Some(Layout::Horizontal);
    title.text = Some("Title".to_string());
    let mut close = def();
    close.from = Some("title".to_string());
    close.tooltip = Some("Close".to_string());
    let mut window = def();
    window.children.push(("title".to_string(), title));
    window.children.push(("close".to_string(), close));
    let set = ThemeSet::new(vec![("window".to_string(), window)], images(), fonts()).unwrap();
    let close = set.theme("window/close").unwrap();
    assert_eq!(close.style.layout, Some(Layout::Horizontal));
    assert_eq!(close.text.as_deref(), Some("Title"));
    assert_eq!(close.tooltip.as_deref(), Some("Close"));
}

#[test]
fn nested_froms_resolve_in_turn() {
    let mut a = def();
    a.style.wants_scroll = Some(true);
    let mut b = def();
    b.from = Some("a".to_string());
    b.style.child_align = Some(Align::Top);
    let mut c = def();
    c.from = Some("b".to_string());
    let set = ThemeSet::new(
        vec![("c".to_string(), c), ("b".to_string(), b), ("a".to_string(), a)],
        images(),
        fonts(),
    )
    .unwrap();
    let c = set.theme("c").unwrap();
    assert_eq!(c.style.wants_scroll, Some(true));
    assert_eq!(c.style.child_align, Some(Align::Top));
    assert!(c.from.is_none());
}

#[test]
fn custom_data_is_merged_keeping_own_entries() {
    let mut base = def();
    base.custom.push(("tab_width".to_string(), "6".to_string()));
    base.custom.push(("list_bullet".to_string(), "*".to_string()));
    let mut area = def();
    area.from = Some("base".to_string());
    area.custom.push(("list_bullet".to_string(), "-".to_string()));
    let set = ThemeSet::new(
        vec![("base".to_string(), base), ("area".to_string(), area)],
        images(),
        fonts(),
    )
    .unwrap();
    let area = set.theme("area").unwrap();
    assert_eq!(
        area.custom,
        vec![("list_bullet".to_string(), "-".to_string()), ("tab_width".to_string(), "6".to_string())]
    );
}

#[test]
fn a_slash_in_a_theme_name_is_refused() {
    let result = ThemeSet::new(vec![("bad/name".to_string(), def())], images(), fonts());
    assert_eq!(
        message(result.err().unwrap()),
        "'bad/name' theme name invalid.  the '/' character is not allowed"
    );
}

#[test]
fn missing_images_and_fonts_are_reported() {
    let mut child = def();
    child.background = Some("gui/missing".to_string());
    let mut parent = def();
    parent.children.push(("child".to_string(), child));
    let result = ThemeSet::new(vec![("parent".to_string(), parent)], images(), fonts());
    assert_eq!(
        message(result.err().unwrap()),
        "Unable to locate image 'gui/missing' as background for widget 'parent/child'"
    );

    let mut fg = def();
    fg.foreground = Some("nope".to_string());
    let result = ThemeSet::new(vec![("fg".to_string(), fg)], images(), fonts());
    assert_eq!(message(result.err().unwrap()), "Unable to locate image 'nope' as foreground for widget 'fg'");

    let mut font = def();
    font.font = Some("huge".to_string());
    let result = ThemeSet::new(vec![("text".to_string(), font)], images(), fonts());
    assert_eq!(message(result.err().unwrap()), "Unable to locate font 'huge' for widget 'text'");
}

#[test]
fn an_unknown_from_is_reported() {
    let mut x = def();
    x.from = Some("nothing".to_string());
    let result = ThemeSet::new(vec![("x".to_string(), x)], images(), fonts());
    assert_eq!(message(result.err().unwrap()), "Invalid from theme 'nothing' in 'x'");
}

#[test]
fn circular_froms_are_reported() {
    let mut a = def();
    a.from = Some("b".to_string());
    let mut b = def();
    b.from = Some("a".to_string());
    let result = ThemeSet::new(vec![("a".to_string(), a), ("b".to_string(), b)], images(), fonts());
    assert_eq!(
        message(result.err().unwrap()),
        format!(
            "Unable to resolve all from references after {} iterations.  This is most likely caused by a circular reference.",
            MAX_FROM_ITERATIONS
        )
    );
}

#[test]
fn fonts_and_images_are_found_by_name() {
    let set: ThemeSet<u32, u32, String> = ThemeSet::new(Vec::new(), images(), fonts()).unwrap();
    assert_eq!(set.find_font(Some("heading")), Some(20));
    assert_eq!(set.find_font(Some("tiny")), None);
    assert_eq!(set.find_font(None), None);
    assert_eq!(set.find_image(Some("gui/frame")).unwrap().id(), 2);
    assert!(set.find_image(Some("gui/none")).is_none());
    assert!(set.find_image(None).is_none());
}

#[test]
fn style_inheritance_fills_only_unset_settings() {
    let mut own = unset();
    own.pos = Some(1);
    let mut from = unset();
    from.pos = Some(2);
    from.screen_pos = Some(3);
    from.layout = Some(Layout::Vertical);
    let merged = own.inherit(from);
    assert_eq!(merged.pos, Some(1));
    assert_eq!(merged.screen_pos, Some(3));
    assert_eq!(merged.layout, Some(Layout::Vertical));
    let again = merged.inherit(from);
    assert_eq!(again.pos, merged.pos);
    assert_eq!(again.screen_pos, merged.screen_pos);
    let same = own.inherit(unset());
    assert_eq!(same.pos, Some(1));
    assert_eq!(same.screen_pos, None);
}

fn gui_images() -> Vec<(String, ImageSetDefinition<u32, u8>)> {
    let simple = |x: u32| ImageDefinition {
        color: 1,
        kind: ImageDefinitionKind::Simple { size: (4, 4), position: (x, 0), fill: ImageFill::Stretch },
    };
    vec![(
        "gui".to_string(),
        ImageSetDefinition {
            source: None,
            images: vec![
                ("button".to_string(), simple(0)),
                ("arrow_down".to_string(), simple(4)),
                ("frame".to_string(), ImageDefinition { color: 1, kind: ImageDefinitionKind::Solid }),
            ],
        },
    )]
}

#[test]
fn build_makes_the_images_then_the_themes() {
    let (set, built) = ThemeSet::build(button_and_combo_box(), &font_defs(), &font_sources(), vec![10, 20], &gui_images(), &Vec::new(), 0).ok().unwrap();
    assert_eq!(built.names.len(), 4);
    assert_eq!(set.find_image(Some("gui/frame")).unwrap().id(), 2);
    assert_eq!(set.find_image(Some("gui/empty")).unwrap().id(), 3);
    assert_eq!(set.handle("combo_box/expand").unwrap().id(), 4);
    assert_eq!(set.find_font(Some("heading")), Some(20));
    assert_eq!(*set.font(FontHandle::default()), 10);
    assert_eq!(*set.font(FontHandle::default().next()), 20);
}

#[test]
fn build_reports_a_missing_font_source_first() {
    let mut defs = font_defs();
    defs[1].1.source = "serif".to_string();
    let mut sets = gui_images();
    sets[0].1.source = Some("missing".to_string());
    let e = ThemeSet::build(button_and_combo_box(), &defs, &font_sources(), vec![10, 20], &sets, &Vec::new(), 0)
        .err()
        .unwrap();
    assert_eq!(message(e), "Unable to locate font handle serif");
}

#[test]
fn build_gives_every_image_set_an_empty_image() {
    let (set, _) = ThemeSet::build(button_and_combo_box(), &font_defs(), &font_sources(), vec![10, 20], &gui_images(), &Vec::new(), 0)
        .ok()
        .unwrap();
    assert!(set.find_image(Some("gui/empty")).is_some());
    assert!(set.find_image(Some("other/empty")).is_none());
}

#[test]
fn build_reports_image_errors_before_theme_errors() {
    let mut sets = gui_images();
    sets[0].1.source = Some("missing".to_string());
    let mut widgets = button_and_combo_box();
    widgets[0].1.font = Some("tiny".to_string());
    let e = ThemeSet::build(widgets, &font_defs(), &font_sources(), vec![10, 20], &sets, &Vec::new(), 0).err().unwrap();
    assert_eq!(message(e), "Unable to locate texture missing");
}

#[test]
fn build_reports_theme_errors_once_the_images_are_made() {
    let mut widgets = button_and_combo_box();
    widgets[0].1.background = Some("gui/nothing".to_string());
    let e = ThemeSet::build(widgets, &font_defs(), &font_sources(), vec![10, 20], &gui_images(), &Vec::new(), 0).err().unwrap();
    assert_eq!(message(e), "Unable to locate image 'gui/nothing' as background for widget 'button'");
}

#[test]
fn custom_data_is_found_by_theme_and_key() {
    let mut base = def();
    base.custom.push(("tab_width".to_string(), "6".to_string()));
    let mut area = def();
    area.from = Some("base".to_string());
    area.custom.push(("list_bullet".to_string(), "-".to_string()));
    let set = ThemeSet::new(
        vec![("base".to_string(), base), ("area".to_string(), area)],
        images(),
        fonts(),
    )
    .unwrap();
    assert_eq!(set.custom("area", "list_bullet"), Some(&"-".to_string()));
    assert_eq!(set.custom("area", "tab_width"), Some(&"6".to_string()));
    assert_eq!(set.custom("base", "list_bullet"), None);
    assert_eq!(set.custom("nothing", "tab_width"), None);
}

#[test]
fn own_custom_data_wins_and_copied_children_carry_theirs() {
    let mut label = def();
    label.custom.push(("color".to_string(), "red".to_string()));
    let mut base = def();
    base.custom.push(("tab_width".to_string(), "6".to_string()));
    base.children.push(("label".to_string(), label));
    let mut area = def();
    area.from = Some("base".to_string());
    area.custom.push(("tab_width".to_string(), "4".to_string()));
    let set = ThemeSet::new(
        vec![("base".to_string(), base), ("area".to_string(), area)],
        images(),
        fonts(),
    )
    .unwrap();
    assert_eq!(set.custom("area", "tab_width"), Some(&"4".to_string()));
    assert_eq!(set.custom("base", "tab_width"), Some(&"6".to_string()));
    assert_eq!(set.custom("area/label", "color"), Some(&"red".to_string()));
    assert_eq!(set.custom("base/label", "color"), Some(&"red".to_string()));
}

#[test]
fn inherited_custom_data_comes_from_the_named_theme() {
    let mut first = def();
    first.custom.push(("gap".to_string(), "1".to_string()));
    let mut second = def();
    second.custom.push(("gap".to_string(), "2".to_string()));
    let mut area = def();
    area.from = Some("second".to_string());
    let set = ThemeSet::new(
        vec![("first".to_string(), first), ("second".to_string(), second), ("area".to_string(), area)],
        images(),
        fonts(),
    )
    .unwrap();
    assert_eq!(set.custom("area", "gap"), Some(&"2".to_string()));
    assert_eq!(set.custom("first", "gap"), Some(&"1".to_string()));
}

#[test]
fn same_named_children_inherit_from_each_other() {
    let mut label = def();
    label.text = Some("Hi".to_string());
    label.style.border = Some(2);
    let mut base = def();
    base.children.push(("label".to_string(), label));
    let mut own_label = def();
    own_label.style.border = Some(7);
    let mut derived = def();
    derived.from = Some("base".to_string());
    derived.children.push(("label".to_string(), own_label));
    let set = ThemeSet::new(
        vec![("base".to_string(), base), ("derived".to_string(), derived)],
        images(),
        fonts(),
    )
    .unwrap();
    let merged = set.theme("derived/label").unwrap();
    assert_eq!(merged.text.as_deref(), Some("Hi"));
    assert_eq!(merged.style.border, Some(7));
    assert_eq!(set.theme("derived").unwrap().children.len(), 1);
    assert_eq!(set.handle("default").unwrap().id(), 0);
}
