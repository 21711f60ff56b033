use thyme::markdown::{
    markdown_actions, text_area_actions, try_markdown_actions, ColumnAlign, FontMode, MarkdownAction,
    MarkdownState, MdEvent, MdTag, SizeMode,
};

fn describe(a: &MarkdownAction) -> String {
    match a {
        MarkdownAction::Item { text, theme, cell_align, at_new_line, cursor } => {
            format!("item {:?} {} {:?} {} {:?}", text, theme, cell_align, at_new_line, cursor)
        },
        MarkdownAction::NewLine { spacing, cursor } => format!("newline {:?} {:?}", spacing, cursor),
        MarkdownAction::UpdateCursor(cursor) => format!("cursor {:?}", cursor),
        MarkdownAction::Warn(message) => format!("warn {}", message),
    }
}

fn describe_all(actions: &[MarkdownAction]) -> Vec<String> {
    actions.iter().map(describe).collect()
}

#[test]
fn font_modes_combine_and_separate() {
    assert_eq!(FontMode::Normal.push(FontMode::Strong), FontMode::Strong);
    assert_eq!(FontMode::Strong.push(FontMode::Emphasis), FontMode::StrongEmphasis);
    assert_eq!(FontMode::StrongEmphasis.remove(FontMode::Strong), FontMode::Emphasis);
    assert_eq!(FontMode::Emphasis.remove(FontMode::Emphasis), FontMode::Normal);
    assert_eq!(FontMode::Normal.remove(FontMode::Strong), FontMode::Normal);
    assert_eq!(FontMode::Strong.push(FontMode::Strong), FontMode::Strong);
}

#[test]
fn theme_names_follow_size_and_font() {
    assert_eq!(SizeMode::Heading2.theme(), "heading2");
    assert_eq!(FontMode::StrongEmphasis.theme(), "strong_emphasis");
    let state = MarkdownState::new("* ".to_string());
    assert_eq!(state.cur_theme(), "paragraph_normal");
}

#[test]
fn a_heading_and_a_paragraph_with_emphasis() {
    let actions = text_area_actions("# Title\n\nSome *emphasis* text.", "* ".to_string()).unwrap();
    assert_eq!(
        describe_all(&actions),
        vec![
            "item \"Title\" heading1_normal None true Indent(0)",
            "newline OneAndHalf Indent(0)",
            "item \"Some \" paragraph_normal None true Indent(0)",
            "item \"emphasis\" paragraph_emphasis None false Indent(0)",
            "item \" text.\" paragraph_normal None false Indent(0)",
            "newline OneAndHalf Indent(0)",
        ]
    );
}

#[test]
fn an_unordered_list_is_indented_with_bullets() {
    let actions = text_area_actions("* a\n* b\n", "- ".to_string()).unwrap();
    assert_eq!(
        describe_all(&actions),
        vec![
            "cursor Indent(1)",
            "item \"- \" paragraph_normal None true Indent(1)",
            "item \"a\" paragraph_normal None false Indent(1)",
            "newline Single Indent(1)",
            "item \"- \" paragraph_normal None true Indent(1)",
            "item \"b\" paragraph_normal None false Indent(1)",
            "newline Single Indent(1)",
            "newline Single Indent(0)",
        ]
    );
}

#[test]
fn an_ordered_list_counts_its_items() {
    let events = vec![
        MdEvent::Start(MdTag::List(Some(3))),
        MdEvent::Start(MdTag::Item),
        MdEvent::Text("x".to_string()),
        MdEvent::End(MdTag::Item),
        MdEvent::Start(MdTag::Item),
        MdEvent::Text("y".to_string()),
        MdEvent::End(MdTag::Item),
        MdEvent::End(MdTag::List(Some(3))),
    ];
    let actions = try_markdown_actions(&events, "* ".to_string()).unwrap();
    let described = describe_all(&actions);
    assert_eq!(described[1], "item \"3. \" paragraph_normal None true Indent(1)");
    assert_eq!(described[4], "item \"4. \" paragraph_normal None true Indent(1)");
}

#[test]
fn a_list_item_outside_a_list_is_refused() {
    let events = vec![MdEvent::Start(MdTag::Item), MdEvent::Text("x".to_string())];
    assert!(try_markdown_actions(&events, "* ".to_string()).is_none());
}

#[test]
fn table_cells_are_aligned_by_column() {
    let events = vec![
        MdEvent::Start(MdTag::Table(vec![ColumnAlign::Left, ColumnAlign::Right])),
        MdEvent::Start(MdTag::TableHead),
        MdEvent::Start(MdTag::TableCell),
        MdEvent::Text("Name".to_string()),
        MdEvent::End(MdTag::TableCell),
        MdEvent::End(MdTag::TableHead),
        MdEvent::Start(MdTag::TableRow),
        MdEvent::Start(MdTag::TableCell),
        MdEvent::End(MdTag::TableCell),
        MdEvent::Start(MdTag::TableCell),
        MdEvent::Text("42".to_string()),
        MdEvent::End(MdTag::TableCell),
        MdEvent::End(MdTag::TableRow),
        MdEvent::End(MdTag::Table(vec![])),
    ];
    let actions = markdown_actions(&events, "* ".to_string());
    assert_eq!(
        describe_all(&actions),
        vec![
            "cursor Column(0)",
            "item \"Name\" paragraph_strong Some(Top) true Column(0)",
            "newline Single Indent(0)",
            "cursor Column(0)",
            "cursor Column(1)",
            "item \"42\" paragraph_normal Some(TopRight) true Column(1)",
            "newline Single Indent(0)",
        ]
    );
}

#[test]
fn breaks_and_unsupported_elements() {
    let events = vec![
        MdEvent::Text("a".to_string()),
        MdEvent::SoftBreak,
        MdEvent::Text("b".to_string()),
        MdEvent::HardBreak,
        MdEvent::Start(MdTag::Unsupported("BlockQuote".to_string())),
        MdEvent::Unsupported("Rule".to_string()),
    ];
    let actions = markdown_actions(&events, "* ".to_string());
    assert_eq!(
        describe_all(&actions),
        vec![
            "item \"a\" paragraph_normal None true Indent(0)",
            "newline Single Indent(0)",
            "item \"b\" paragraph_normal None true Indent(0)",
            "newline OneAndHalf Indent(0)",
            "warn Tag BlockQuote is unsupported",
            "warn Tag Rule event is unsupported",
        ]
    );
}

#[test]
fn strong_emphasis_nests() {
    let actions = text_area_actions("**bold *both***", "* ".to_string()).unwrap();
    let described = describe_all(&actions);
    assert_eq!(described[0], "item \"bold \" paragraph_strong None true Indent(0)");
    assert_eq!(described[1], "item \"both\" paragraph_strong_emphasis None false Indent(0)");
}
