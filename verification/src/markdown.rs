//! The styling state machine behind the markdown text area.
//!
//! A markdown text is parsed into a sequence of events.  The text area walks
//! through them, keeping track of the current heading size, the strong /
//! emphasis font, nested lists, and table cells, and emits a sequence of
//! actions: place a text item, start a new line, move the layout cursor, or
//! warn about unsupported markdown.  Measuring and placing the items is left
//! to whoever carries out the actions.

use vstd::prelude::*;
use vstd::string::*;

use pulldown_cmark::{Alignment, Event, Options, Parser, Tag};

use crate::layout::Align;
use crate::text::{decimal, push_decimal};

verus! {

/// The alignment of a table column.
#[derive(Copy, Clone, Debug, PartialEq, Eq, Structural)]
pub enum ColumnAlign {
    Unaligned,
    Left,
    Center,
    Right,
}

/// A markdown element that contains other elements.
pub enum MdTag {
    Paragraph,
    Heading(u32),
    /// A list; ordered lists carry the number of their first item.
    List(Option<u64>),
    Item,
    Emphasis,
    Strong,
    /// A table, with the alignment of each of its columns.
    Table(Vec<ColumnAlign>),
    TableHead,
    TableRow,
    TableCell,
    /// Any other element; carries its description.
    Unsupported(String),
}

/// One step of a markdown document, in document order.
pub enum MdEvent {
    Start(MdTag),
    End(MdTag),
    Text(String),
    SoftBreak,
    HardBreak,
    /// Any other event; carries its description.
    Unsupported(String),
}

/// The kind of list currently being written.  Ordered lists carry the number of their next item.
#[derive(Copy, Clone, Debug, PartialEq, Eq, Structural)]
pub enum ListMode {
    Unordered,
    Ordered(u16),
}

/// The text size: normal paragraph text or one of three heading levels.
#[derive(Copy, Clone, Debug, PartialEq, Eq, Structural)]
pub enum SizeMode {
    Paragraph,
    Heading1,
    Heading2,
    Heading3,
}

/// The font style: any combination of strong and emphasis.
#[derive(Copy, Clone, Debug, PartialEq, Eq, Structural)]
pub enum FontMode {
    Normal,
    Strong,
    Emphasis,
    StrongEmphasis,
}

pub open spec fn size_theme(size: SizeMode) -> Seq<char> {
    match size {
        SizeMode::Paragraph => "paragraph"@,
        SizeMode::Heading1 => "heading1"@,
        SizeMode::Heading2 => "heading2"@,
        SizeMode::Heading3 => "heading3"@,
    }
}

pub open spec fn font_theme(font: FontMode) -> Seq<char> {
    match font {
        FontMode::Normal => "normal"@,
        FontMode::Strong => "strong"@,
        FontMode::Emphasis => "emphasis"@,
        FontMode::StrongEmphasis => "strong_emphasis"@,
    }
}

/// The name of the child theme used for text of the given size and font.
pub open spec fn theme_name(size: SizeMode, font: FontMode) -> Seq<char> {
    size_theme(size) + "_"@ + font_theme(font)
}

/// Whether the font style includes strong.
pub open spec fn is_strong(font: FontMode) -> bool {
    font == FontMode::Strong || font == FontMode::StrongEmphasis
}

/// Whether the font style includes emphasis.
pub open spec fn is_emphasis(font: FontMode) -> bool {
    font == FontMode::Emphasis || font == FontMode::StrongEmphasis
}

/// The font style with exactly the given components.
pub open spec fn font_of(strong: bool, emphasis: bool) -> FontMode {
    if strong && emphasis {
        FontMode::StrongEmphasis
    } else if strong {
        FontMode::Strong
    } else if emphasis {
        FontMode::Emphasis
    } else {
        FontMode::Normal
    }
}

impl SizeMode {
    pub fn theme(self) -> (r: &'static str)
        ensures
            r@ == size_theme(self),
    {
        match self {
            SizeMode::Paragraph => "paragraph",
            SizeMode::Heading1 => "heading1",
            SizeMode::Heading2 => "heading2",
            SizeMode::Heading3 => "heading3",
        }
    }
}

impl FontMode {
    pub fn theme(self) -> (r: &'static str)
        ensures
            r@ == font_theme(self),
    {
        match self {
            FontMode::Normal => "normal",
            FontMode::Strong => "strong",
            FontMode::Emphasis => "emphasis",
            FontMode::StrongEmphasis => "strong_emphasis",
        }
    }

    /// Adds the components of `other` to this font style.
    pub fn push(self, other: FontMode) -> (r: FontMode)
        ensures
            r == font_of(is_strong(self) || is_strong(other), is_emphasis(self) || is_emphasis(other)),
    {
        match self {
            FontMode::Normal => other,
            FontMode::Strong => match other {
                FontMode::Normal => FontMode::Strong,
                FontMode::Strong => FontMode::Strong,
                FontMode::Emphasis => FontMode::StrongEmphasis,
                FontMode::StrongEmphasis => FontMode::StrongEmphasis,
            },
            FontMode::Emphasis => match other {
                FontMode::Normal => FontMode::Emphasis,
                FontMode::Strong => FontMode::StrongEmphasis,
                FontMode::Emphasis => FontMode::Emphasis,
                FontMode::StrongEmphasis => FontMode::StrongEmphasis,
            },
            FontMode::StrongEmphasis => FontMode::StrongEmphasis,
        }
    }

    /// Removes the components of `other` from this font style.
    pub fn remove(self, other: FontMode) -> (r: FontMode)
        ensures
            r == font_of(
                is_strong(self) && !is_strong(other),
                is_emphasis(self) && !is_emphasis(other),
            ),
    {
        match self {
            FontMode::Normal => FontMode::Normal,
            FontMode::Strong => match other {
                FontMode::Normal => FontMode::Strong,
                FontMode::Strong => FontMode::Normal,
                FontMode::Emphasis => FontMode::Strong,
                FontMode::StrongEmphasis => FontMode::Normal,
            },
            FontMode::Emphasis => match other {
                FontMode::Normal => FontMode::Emphasis,
                FontMode::Strong => FontMode::Emphasis,
                FontMode::Emphasis => FontMode::Normal,
                FontMode::StrongEmphasis => FontMode::Normal,
            },
            FontMode::StrongEmphasis => match other {
                FontMode::Normal => FontMode::StrongEmphasis,
                FontMode::Strong => FontMode::Emphasis,
                FontMode::Emphasis => FontMode::Strong,
                FontMode::StrongEmphasis => FontMode::Normal,
            },
        }
    }
}

/// Opening and then closing a style that was not already active restores the previous style.
pub proof fn lemma_font_push_then_remove(font: FontMode, other: FontMode)
    requires
        !(is_strong(font) && is_strong(other)),
        !(is_emphasis(font) && is_emphasis(other)),
    ensures
        font_of(
            is_strong(font_of(is_strong(font) || is_strong(other), is_emphasis(font) || is_emphasis(other)))
                && !is_strong(other),
            is_emphasis(font_of(is_strong(font) || is_strong(other), is_emphasis(font) || is_emphasis(other)))
                && !is_emphasis(other),
        ) == font,
{
}

/// Adding styles does not depend on the order in which they are added, and adding
/// a style twice is the same as adding it once.
pub proof fn lemma_font_push_commutative_idempotent(a: FontMode, b: FontMode)
    ensures
        font_of(is_strong(a) || is_strong(b), is_emphasis(a) || is_emphasis(b))
            == font_of(is_strong(b) || is_strong(a), is_emphasis(b) || is_emphasis(a)),
        font_of(is_strong(a) || is_strong(a), is_emphasis(a) || is_emphasis(a)) == a,
{
}

/// Where the layout cursor goes: to a table column, or to the indentation of the
/// current list depth.
#[derive(Copy, Clone, Debug, PartialEq, Eq, Structural)]
pub enum CursorTarget {
    Column(u16),
    Indent(i64),
}

/// The distance to the next line, in multiples of the current line height.
#[derive(Copy, Clone, Debug, PartialEq, Eq, Structural)]
pub enum LineSpacing {
    /// One line
    Single,
    /// One and a half lines
    OneAndHalf,
}

/// What the text area must do next.
pub enum MarkdownAction {
    /// Place a text item using the child theme `theme`.  Inside a table, `cell_align`
    /// gives the alignment of the cell's text.  `at_new_line` tells whether the
    /// item is the first on its line.  Afterwards the cursor moves to `cursor`.
    Item {
        text: String,
        theme: String,
        cell_align: Option<Align>,
        at_new_line: bool,
        cursor: CursorTarget,
    },
    /// Move down to a new line and then move the cursor to `cursor`.
    NewLine { spacing: LineSpacing, cursor: CursorTarget },
    /// Move the cursor to `cursor`.
    UpdateCursor(CursorTarget),
    /// Log a warning once.
    Warn(String),
}

/// An action, with its strings taken as character sequences.
pub enum ActionModel {
    Item {
        text: Seq<char>,
        theme: Seq<char>,
        cell_align: Option<Align>,
        at_new_line: bool,
        cursor: CursorTarget,
    },
    NewLine { spacing: LineSpacing, cursor: CursorTarget },
    UpdateCursor(CursorTarget),
    Warn(Seq<char>),
}

impl View for MarkdownAction {
    type V = ActionModel;

    open spec fn view(&self) -> ActionModel {
        match self {
            MarkdownAction::Item { text, theme, cell_align, at_new_line, cursor } => ActionModel::Item {
                text: text@,
                theme: theme@,
                cell_align: *cell_align,
                at_new_line: *at_new_line,
                cursor: *cursor,
            },
            MarkdownAction::NewLine { spacing, cursor } => ActionModel::NewLine {
                spacing: *spacing,
                cursor: *cursor,
            },
            MarkdownAction::UpdateCursor(c) => ActionModel::UpdateCursor(*c),
            MarkdownAction::Warn(m) => ActionModel::Warn(m@),
        }
    }
}

pub open spec fn action_views(actions: Seq<MarkdownAction>) -> Seq<ActionModel> {
    actions.map_values(|a: MarkdownAction| a@)
}

/// The state of the text area between events.
pub struct MarkdownModel {
    pub list_bullet: Seq<char>,
    pub at_new_line: bool,
    pub table: Seq<ColumnAlign>,
    pub table_header: bool,
    pub table_column: Option<u16>,
    pub indent_level: int,
    pub list_stack: Seq<ListMode>,
    pub size: SizeMode,
    pub font: FontMode,
    pub cur_theme: Seq<char>,
}

pub open spec fn cursor_target(m: MarkdownModel) -> CursorTarget {
    match m.table_column {
        Some(col) => CursorTarget::Column(col),
        None => CursorTarget::Indent(m.indent_level as i64),
    }
}

/// The alignment of a table cell's text: centered in the header row, and
/// otherwise following the column's alignment (left when it has none).
pub open spec fn cell_align(m: MarkdownModel) -> Option<Align> {
    match m.table_column {
        None => None,
        Some(col) => Some(
            if m.table_header {
                Align::Top
            } else if col < m.table.len() {
                match m.table[col as int] {
                    ColumnAlign::Unaligned => Align::TopLeft,
                    ColumnAlign::Left => Align::TopLeft,
                    ColumnAlign::Center => Align::Top,
                    ColumnAlign::Right => Align::TopRight,
                }
            } else {
                Align::TopLeft
            },
        ),
    }
}

pub open spec fn with_size(m: MarkdownModel, size: SizeMode) -> MarkdownModel {
    MarkdownModel { size, cur_theme: theme_name(size, m.font), ..m }
}

pub open spec fn with_font(m: MarkdownModel, font: FontMode) -> MarkdownModel {
    MarkdownModel { font, cur_theme: theme_name(m.size, font), ..m }
}

/// Placing a text item: it uses the current theme and is no longer at a new line afterwards.
pub open spec fn item_step(m: MarkdownModel, text: Seq<char>) -> (MarkdownModel, ActionModel) {
    (
        MarkdownModel { at_new_line: false, ..m },
        ActionModel::Item {
            text,
            theme: m.cur_theme,
            cell_align: cell_align(m),
            at_new_line: m.at_new_line,
            cursor: cursor_target(m),
        },
    )
}

pub open spec fn new_line_step(m: MarkdownModel, spacing: LineSpacing) -> (MarkdownModel, ActionModel) {
    (
        MarkdownModel { at_new_line: true, ..m },
        ActionModel::NewLine { spacing, cursor: cursor_target(m) },
    )
}

/// Either a new line, if something was already placed on the current line, or just a cursor move.
pub open spec fn break_step(m: MarkdownModel) -> (MarkdownModel, ActionModel) {
    if !m.at_new_line {
        new_line_step(m, LineSpacing::Single)
    } else {
        (m, ActionModel::UpdateCursor(cursor_target(m)))
    }
}

pub open spec fn unsupported_message(description: Seq<char>) -> Seq<char> {
    "Tag "@ + description + " is unsupported"@
}

pub open spec fn unsupported_event_message(description: Seq<char>) -> Seq<char> {
    "Tag "@ + description + " event is unsupported"@
}

/// The text of an ordered list item's marker, such as `3. `.
pub open spec fn ordered_marker(n: u16) -> Seq<char> {
    decimal(n as nat) + ". "@
}

pub open spec fn one(m: MarkdownModel, a: ActionModel) -> (MarkdownModel, Seq<ActionModel>) {
    (m, seq![a])
}

pub open spec fn start_step(m: MarkdownModel, tag: MdTag) -> (MarkdownModel, Seq<ActionModel>) {
    match tag {
        MdTag::Paragraph => (MarkdownModel { size: SizeMode::Paragraph, ..m }, seq![]),
        MdTag::Heading(level) => (
            with_size(
                m,
                if level == 1 {
                    SizeMode::Heading1
                } else if level == 2 {
                    SizeMode::Heading2
                } else if level == 3 {
                    SizeMode::Heading3
                } else {
                    SizeMode::Paragraph
                },
            ),
            seq![],
        ),
        MdTag::List(kind) => {
            let m1 = MarkdownModel {
                indent_level: m.indent_level + 1,
                list_stack: m.list_stack.push(
                    match kind {
                        None => ListMode::Unordered,
                        Some(n) => ListMode::Ordered(n as u16),
                    },
                ),
                ..m
            };
            let (m2, a) = break_step(m1);
            one(m2, a)
        },
        MdTag::Item => match m.list_stack.last() {
            ListMode::Unordered => {
                let (m1, a) = item_step(m, m.list_bullet);
                one(m1, a)
            },
            ListMode::Ordered(n) => {
                let m1 = MarkdownModel {
                    list_stack: m.list_stack.update(
                        m.list_stack.len() - 1,
                        ListMode::Ordered((n + 1) as u16),
                    ),
                    ..m
                };
                let (m2, a) = item_step(m1, ordered_marker(n));
                one(m2, a)
            },
        },
        MdTag::Emphasis => (with_font(m, font_of(is_strong(m.font), true)), seq![]),
        MdTag::Strong => (with_font(m, font_of(true, is_emphasis(m.font))), seq![]),
        MdTag::Table(columns) => (MarkdownModel { table: columns@, ..m }, seq![]),
        MdTag::TableHead => (
            with_font(
                MarkdownModel { table_column: Some(0), table_header: true, ..m },
                font_of(true, is_emphasis(m.font)),
            ),
            seq![],
        ),
        MdTag::TableRow => (MarkdownModel { table_column: Some(0), ..m }, seq![]),
        MdTag::TableCell => one(m, ActionModel::UpdateCursor(cursor_target(m))),
        MdTag::Unsupported(description) => one(m, ActionModel::Warn(unsupported_message(description@))),
    }
}

pub open spec fn end_step(m: MarkdownModel, tag: MdTag) -> (MarkdownModel, Seq<ActionModel>) {
    match tag {
        MdTag::Paragraph => {
            let (m1, a) = new_line_step(m, LineSpacing::OneAndHalf);
            one(m1, a)
        },
        MdTag::Heading(_) => {
            let (m1, a) = new_line_step(with_size(m, SizeMode::Paragraph), LineSpacing::OneAndHalf);
            one(m1, a)
        },
        MdTag::List(_) => {
            let m1 = MarkdownModel {
                indent_level: m.indent_level - 1,
                list_stack: if m.list_stack.len() > 0 {
                    m.list_stack.drop_last()
                } else {
                    m.list_stack
                },
                ..m
            };
            if m1.list_stack.len() == 0 {
                let (m2, a) = new_line_step(m1, LineSpacing::Single);
                one(m2, a)
            } else {
                (m1, seq![])
            }
        },
        MdTag::Item => {
            let (m1, a) = break_step(m);
            one(m1, a)
        },
        MdTag::Emphasis => (with_font(m, font_of(is_strong(m.font), false)), seq![]),
        MdTag::Strong => (with_font(m, font_of(false, is_emphasis(m.font))), seq![]),
        MdTag::Table(_) => (MarkdownModel { table: seq![], ..m }, seq![]),
        MdTag::TableHead => {
            let m1 = MarkdownModel { table_column: None, table_header: false, ..m };
            let (m2, a) = new_line_step(m1, LineSpacing::Single);
            (with_font(m2, font_of(false, is_emphasis(m2.font))), seq![a])
        },
        MdTag::TableRow => {
            let (m1, a) = new_line_step(
                MarkdownModel { table_column: None, ..m },
                LineSpacing::Single,
            );
            one(m1, a)
        },
        MdTag::TableCell => (
            MarkdownModel {
                table_column: Some(
                    (match m.table_column {
                        Some(c) => c,
                        None => 0u16,
                    } + 1) as u16,
                ),
                ..m
            },
            seq![],
        ),
        MdTag::Unsupported(description) => one(m, ActionModel::Warn(unsupported_message(description@))),
    }
}

/// What one markdown event does to the text area's state, and the actions it emits.
pub open spec fn event_step(m: MarkdownModel, e: MdEvent) -> (MarkdownModel, Seq<ActionModel>) {
    match e {
        MdEvent::Start(tag) => start_step(m, tag),
        MdEvent::End(tag) => end_step(m, tag),
        MdEvent::Text(text) => {
            let (m1, a) = item_step(m, text@);
            one(m1, a)
        },
        MdEvent::SoftBreak => {
            let (m1, a) = new_line_step(m, LineSpacing::Single);
            one(m1, a)
        },
        MdEvent::HardBreak => {
            let (m1, a) = new_line_step(m, LineSpacing::OneAndHalf);
            one(m1, a)
        },
        MdEvent::Unsupported(description) => one(
            m,
            ActionModel::Warn(unsupported_event_message(description@)),
        ),
    }
}

/// The events the text area can process from the given state: a list item needs an
/// enclosing list, and counters must stay within their integer types.
pub open spec fn event_allowed(m: MarkdownModel, e: MdEvent) -> bool {
    match e {
        MdEvent::Start(MdTag::Item) => m.list_stack.len() > 0 && match m.list_stack.last() {
            ListMode::Ordered(n) => n < u16::MAX,
            ListMode::Unordered => true,
        },
        MdEvent::Start(MdTag::List(_)) => m.indent_level < i64::MAX,
        MdEvent::End(MdTag::List(_)) => m.indent_level > i64::MIN,
        MdEvent::End(MdTag::TableCell) => match m.table_column {
            Some(c) => c < u16::MAX,
            None => true,
        },
        _ => true,
    }
}

/// The theme name always names the current size and font: once they agree they keep
/// agreeing, except when a paragraph starts while a heading size is active, which
/// changes the size without renaming the theme.
pub proof fn lemma_theme_follows_style(m: MarkdownModel, e: MdEvent)
    requires
        m.cur_theme == theme_name(m.size, m.font),
        !(e matches MdEvent::Start(MdTag::Paragraph) && m.size != SizeMode::Paragraph),
    ensures
        event_step(m, e).0.cur_theme == theme_name(event_step(m, e).0.size, event_step(m, e).0.font),
{
}

/// Starting a heading of level 1, 2 or 3 sets the text size to that heading level
/// and keeps the font, emitting nothing, so the next text item uses the theme of
/// that heading level and the font; a heading of any other level sets the size of
/// paragraph text.
pub proof fn lemma_heading_sets_theme(m: MarkdownModel, level: u32, text: String)
    ensures
        ({
            let (m1, started) = event_step(m, MdEvent::Start(MdTag::Heading(level)));
            let acts = event_step(m1, MdEvent::Text(text)).1;
            let size_name = if level == 1 {
                "heading1"@
            } else if level == 2 {
                "heading2"@
            } else if level == 3 {
                "heading3"@
            } else {
                "paragraph"@
            };
            &&& started.len() == 0
            &&& m1.font == m.font
            &&& (level == 1 ==> m1.size == SizeMode::Heading1)
            &&& (level == 2 ==> m1.size == SizeMode::Heading2)
            &&& (level == 3 ==> m1.size == SizeMode::Heading3)
            &&& (level < 1 || level > 3 ==> m1.size == SizeMode::Paragraph)
            &&& acts.len() == 1
            &&& acts[0] matches ActionModel::Item { text: t, theme, .. } && t == text@ && theme == size_name + "_"@
                + font_theme(m.font)
        }),
{
}

/// Emphasis and strong text are switched on and off independently: starting or
/// ending one of them changes only that part of the font, keeps the text size,
/// and the theme then names the size and the new font; nothing is emitted.
pub proof fn lemma_emphasis_and_strong(m: MarkdownModel)
    ensures
        ({
            let (s, a) = event_step(m, MdEvent::Start(MdTag::Emphasis));
            &&& is_emphasis(s.font) && is_strong(s.font) == is_strong(m.font)
            &&& s.size == m.size && s.cur_theme == theme_name(m.size, s.font) && a.len() == 0
        }),
        ({
            let (s, a) = event_step(m, MdEvent::End(MdTag::Emphasis));
            &&& !is_emphasis(s.font) && is_strong(s.font) == is_strong(m.font)
            &&& s.size == m.size && s.cur_theme == theme_name(m.size, s.font) && a.len() == 0
        }),
        ({
            let (s, a) = event_step(m, MdEvent::Start(MdTag::Strong));
            &&& is_strong(s.font) && is_emphasis(s.font) == is_emphasis(m.font)
            &&& s.size == m.size && s.cur_theme == theme_name(m.size, s.font) && a.len() == 0
        }),
        ({
            let (s, a) = event_step(m, MdEvent::End(MdTag::Strong));
            &&& !is_strong(s.font) && is_emphasis(s.font) == is_emphasis(m.font)
            &&& s.size == m.size && s.cur_theme == theme_name(m.size, s.font) && a.len() == 0
        }),
{
}

/// Ending a heading goes back to paragraph text in the same font and starts a new
/// line one and a half lines down.
pub proof fn lemma_heading_end(m: MarkdownModel, level: u32)
    ensures
        ({
            let (s, a) = event_step(m, MdEvent::End(MdTag::Heading(level)));
            &&& s.size == SizeMode::Paragraph
            &&& s.font == m.font
            &&& s.cur_theme == "paragraph"@ + "_"@ + font_theme(m.font)
            &&& s.at_new_line
            &&& a.len() == 1
            &&& a[0] matches ActionModel::NewLine { spacing, .. } && spacing == LineSpacing::OneAndHalf
        }),
{
}

/// The items of an ordered list are numbered one after another: two items in a
/// row in a list whose next number is `n` are marked `n. ` and `n+1. `.
pub proof fn lemma_ordered_items_count_up(m: MarkdownModel, n: u16)
    requires
        m.list_stack.len() > 0,
        m.list_stack.last() == ListMode::Ordered(n),
        n + 1 < u16::MAX,
    ensures
        ({
            let (m1, a1) = event_step(m, MdEvent::Start(MdTag::Item));
            let (m2, a2) = event_step(m1, MdEvent::Start(MdTag::Item));
            &&& a1.len() == 1 && a2.len() == 1
            &&& a1[0] matches ActionModel::Item { text, .. } && text == decimal(n as nat) + ". "@
            &&& a2[0] matches ActionModel::Item { text, .. } && text == decimal((n + 1) as nat) + ". "@
            &&& m2.list_stack.len() == m.list_stack.len()
            &&& m2.list_stack.last() == ListMode::Ordered((n + 2) as u16)
        }),
{
    let m1 = event_step(m, MdEvent::Start(MdTag::Item)).0;
    assert(m1.list_stack.last() == ListMode::Ordered((n + 1) as u16));
}

/// The indentation level is the depth of list nesting: once they agree they keep
/// agreeing, except when a list ends while no list is open (a list item outside
/// any list is not processed at all).
pub proof fn lemma_indent_is_list_depth(m: MarkdownModel, e: MdEvent)
    requires
        m.indent_level == m.list_stack.len(),
        !(e matches MdEvent::End(MdTag::List(_)) && m.list_stack.len() == 0),
        !(e matches MdEvent::Start(MdTag::Item) && m.list_stack.len() == 0),
    ensures
        event_step(m, e).0.indent_level == event_step(m, e).0.list_stack.len(),
{
    match e {
        MdEvent::Start(MdTag::Item) => {
            match m.list_stack.last() {
                ListMode::Ordered(n) => {
                    assert(m.list_stack.update(m.list_stack.len() - 1, ListMode::Ordered((n + 1) as u16)).len()
                        == m.list_stack.len());
                },
                ListMode::Unordered => {},
            }
        },
        _ => {},
    }
}

/// The state of a text area before any event: paragraph size, normal font, at a
/// new line, outside any list or table.
pub open spec fn initial_model(list_bullet: Seq<char>) -> MarkdownModel {
    MarkdownModel {
        list_bullet,
        at_new_line: true,
        table: seq![],
        table_header: false,
        table_column: None,
        indent_level: 0,
        list_stack: seq![],
        size: SizeMode::Paragraph,
        font: FontMode::Normal,
        cur_theme: theme_name(SizeMode::Paragraph, FontMode::Normal),
    }
}

/// The state reached, and all actions emitted, by processing `events` in order.
pub open spec fn run_events(m: MarkdownModel, events: Seq<MdEvent>) -> (MarkdownModel, Seq<ActionModel>)
    decreases events.len(),
{
    if events.len() == 0 {
        (m, seq![])
    } else {
        let (m1, a1) = run_events(m, events.drop_last());
        let (m2, a2) = event_step(m1, events.last());
        (m2, a1 + a2)
    }
}

/// Whether every event can be processed in the state that the events before it lead to.
pub open spec fn run_allowed(m: MarkdownModel, events: Seq<MdEvent>) -> bool
    decreases events.len(),
{
    events.len() == 0 || (run_allowed(m, events.drop_last()) && event_allowed(
        run_events(m, events.drop_last()).0,
        events.last(),
    ))
}

/// The styling state of a markdown text area.
pub struct MarkdownState {
    list_bullet: String,
    currently_at_new_line: bool,
    table: Vec<ColumnAlign>,
    table_header: bool,
    table_column: Option<u16>,
    indent_level: i64,
    list_stack: Vec<ListMode>,
    size: SizeMode,
    font: FontMode,
    cur_theme: String,
}

impl View for MarkdownState {
    type V = MarkdownModel;

    closed spec fn view(&self) -> MarkdownModel {
        MarkdownModel {
            list_bullet: self.list_bullet@,
            at_new_line: self.currently_at_new_line,
            table: self.table@,
            table_header: self.table_header,
            table_column: self.table_column,
            indent_level: self.indent_level as int,
            list_stack: self.list_stack@,
            size: self.size,
            font: self.font,
            cur_theme: self.cur_theme@,
        }
    }
}

fn make_theme(size: SizeMode, font: FontMode) -> (s: String)
    ensures
        s@ == theme_name(size, font),
{
    let mut s = String::from_str(size.theme());
    s.append("_");
    s.append(font.theme());
    s
}

fn unsupported(description: &String, suffix: &str) -> (s: String)
    ensures
        s@ == "Tag "@ + description@ + suffix@,
{
    let mut s = String::from_str("Tag ");
    s.append(description.as_str());
    s.append(suffix);
    s
}

impl MarkdownState {
    /// A text area at its start: paragraph size, normal font, at a new line, outside
    /// any list or table.  `list_bullet` is the marker placed before unordered list items.
    pub fn new(list_bullet: String) -> (s: MarkdownState)
        ensures
            s@ == initial_model(list_bullet@),
    {
        let s = MarkdownState {
            list_bullet,
            currently_at_new_line: true,
            table: Vec::new(),
            table_header: false,
            table_column: None,
            indent_level: 0,
            list_stack: Vec::new(),
            size: SizeMode::Paragraph,
            font: FontMode::Normal,
            cur_theme: make_theme(SizeMode::Paragraph, FontMode::Normal),
        };
        proof {
            assert(s@.table =~= seq![]);
            assert(s@.list_stack =~= seq![]);
        }
        s
    }

    /// The name of the child theme currently used for text.
    pub fn cur_theme(&self) -> (r: &str)
        ensures
            r@ == self@.cur_theme,
    {
        self.cur_theme.as_str()
    }

    fn cursor_target(&self) -> (c: CursorTarget)
        ensures
            c == cursor_target(self@),
    {
        match self.table_column {
            Some(col) => CursorTarget::Column(col),
            None => CursorTarget::Indent(self.indent_level),
        }
    }

    fn cell_align(&self) -> (a: Option<Align>)
        ensures
            a == cell_align(self@),
    {
        match self.table_column {
            None => None,
            Some(col) => {
                let align = if self.table_header {
                    Align::Top
                } else if (col as usize) < self.table.len() {
                    match self.table[col as usize] {
                        ColumnAlign::Unaligned => Align::TopLeft,
                        ColumnAlign::Left => Align::TopLeft,
                        ColumnAlign::Center => Align::Top,
                        ColumnAlign::Right => Align::TopRight,
                    }
                } else {
                    Align::TopLeft
                };
                Some(align)
            },
        }
    }

    fn set_size(&mut self, size: SizeMode)
        ensures
            final(self)@ == with_size(old(self)@, size),
    {
        self.size = size;
        self.cur_theme = make_theme(size, self.font);
    }

    fn set_font(&mut self, font: FontMode)
        ensures
            final(self)@ == with_font(old(self)@, font),
    {
        self.font = font;
        self.cur_theme = make_theme(self.size, font);
    }

    fn item(&mut self, text: String, actions: &mut Vec<MarkdownAction>)
        ensures
            final(self)@ == item_step(old(self)@, text@).0,
            action_views(final(actions)@) == action_views(old(actions)@).push(item_step(old(self)@, text@).1),
    {
        let action = MarkdownAction::Item {
            text,
            theme: self.cur_theme.clone(),
            cell_align: self.cell_align(),
            at_new_line: self.currently_at_new_line,
            cursor: self.cursor_target(),
        };
        actions.push(action);
        self.currently_at_new_line = false;
        proof {
            assert(action_views(final(actions)@) =~= action_views(old(actions)@).push(item_step(old(self)@, text@).1));
        }
    }

    fn new_line(&mut self, spacing: LineSpacing, actions: &mut Vec<MarkdownAction>)
        ensures
            final(self)@ == new_line_step(old(self)@, spacing).0,
            action_views(final(actions)@) == action_views(old(actions)@).push(new_line_step(old(self)@, spacing).1),
    {
        self.currently_at_new_line = true;
        let cursor = self.cursor_target();
        actions.push(MarkdownAction::NewLine { spacing, cursor });
        proof {
            assert(action_views(final(actions)@) =~= action_views(old(actions)@).push(new_line_step(old(self)@, spacing).1));
        }
    }

    fn line_break(&mut self, actions: &mut Vec<MarkdownAction>)
        ensures
            final(self)@ == break_step(old(self)@).0,
            action_views(final(actions)@) == action_views(old(actions)@).push(break_step(old(self)@).1),
    {
        if !self.currently_at_new_line {
            self.new_line(LineSpacing::Single, actions);
        } else {
            let cursor = self.cursor_target();
            actions.push(MarkdownAction::UpdateCursor(cursor));
            proof {
                assert(action_views(final(actions)@) =~= action_views(old(actions)@).push(break_step(old(self)@).1));
            }
        }
    }

    fn warn(&mut self, message: String, actions: &mut Vec<MarkdownAction>)
        ensures
            final(self)@ == old(self)@,
            action_views(final(actions)@) == action_views(old(actions)@).push(ActionModel::Warn(message@)),
    {
        actions.push(MarkdownAction::Warn(message));
        proof {
            assert(action_views(final(actions)@) =~= action_views(old(actions)@).push(ActionModel::Warn(message@)));
        }
    }

    fn update_cursor(&mut self, actions: &mut Vec<MarkdownAction>)
        ensures
            final(self)@ == old(self)@,
            action_views(final(actions)@) == action_views(old(actions)@).push(
                ActionModel::UpdateCursor(cursor_target(old(self)@)),
            ),
    {
        let cursor = self.cursor_target();
        actions.push(MarkdownAction::UpdateCursor(cursor));
        proof {
            assert(action_views(final(actions)@) =~= action_views(old(actions)@).push(
                ActionModel::UpdateCursor(cursor_target(old(self)@)),
            ));
        }
    }

    fn start_tag(&mut self, tag: &MdTag) -> (actions: Vec<MarkdownAction>)
        requires
            event_allowed(old(self)@, MdEvent::Start(*tag)),
        ensures
            (final(self)@, action_views(actions@)) == start_step(old(self)@, *tag),
    {
        let ghost tag0 = *tag;
        let mut actions: Vec<MarkdownAction> = Vec::new();
        proof {
            assert(action_views(actions@) =~= seq![]);
        }
        match tag {
            MdTag::Paragraph => {
                self.size = SizeMode::Paragraph;
            },
            MdTag::Heading(level) => {
                let level = *level;
                let size = if level == 1 {
                    SizeMode::Heading1
                } else if level == 2 {
                    SizeMode::Heading2
                } else if level == 3 {
                    SizeMode::Heading3
                } else {
                    SizeMode::Paragraph
                };
                self.set_size(size);
            },
            MdTag::List(kind) => {
                self.indent_level = self.indent_level + 1;
                let mode = match kind {
                    None => ListMode::Unordered,
                    Some(num) => ListMode::Ordered(*num as u16),
                };
                self.list_stack.push(mode);
                self.line_break(&mut actions);
            },
            MdTag::Item => {
                let last = self.list_stack.len() - 1;
                match self.list_stack[last] {
                    ListMode::Unordered => {
                        let bullet = self.list_bullet.clone();
                        self.item(bullet, &mut actions);
                    },
                    ListMode::Ordered(num) => {
                        self.list_stack.set(last, ListMode::Ordered(num + 1));
                        let mut marker = String::new();
                        push_decimal(&mut marker, num as u64);
                        marker.append(". ");
                        self.item(marker, &mut actions);
                    },
                }
            },
            MdTag::Emphasis => {
                let font = self.font.push(FontMode::Emphasis);
                self.set_font(font);
            },
            MdTag::Strong => {
                let font = self.font.push(FontMode::Strong);
                self.set_font(font);
            },
            MdTag::Table(columns) => {
                self.table = columns.clone();
                proof {
                    assert(self.table@ =~= columns@);
                }
            },
            MdTag::TableHead => {
                self.table_column = Some(0);
                self.table_header = true;
                let font = self.font.push(FontMode::Strong);
                self.set_font(font);
            },
            MdTag::TableRow => {
                self.table_column = Some(0);
            },
            MdTag::TableCell => {
                self.update_cursor(&mut actions);
            },
            MdTag::Unsupported(description) => {
                let message = unsupported(description, " is unsupported");
                self.warn(message, &mut actions);
            },
        }
        proof {
            let (m, acts) = start_step(old(self)@, tag0);
            assert(final(self)@ == m);
            assert(action_views(actions@) =~= acts);
        }
        actions
    }

    fn end_tag(&mut self, tag: &MdTag) -> (actions: Vec<MarkdownAction>)
        requires
            event_allowed(old(self)@, MdEvent::End(*tag)),
        ensures
            (final(self)@, action_views(actions@)) == end_step(old(self)@, *tag),
    {
        let ghost tag0 = *tag;
        let mut actions: Vec<MarkdownAction> = Vec::new();
        proof {
            assert(action_views(actions@) =~= seq![]);
        }
        match tag {
            MdTag::Paragraph => {
                self.new_line(LineSpacing::OneAndHalf, &mut actions);
            },
            MdTag::Heading(_) => {
                self.set_size(SizeMode::Paragraph);
                self.new_line(LineSpacing::OneAndHalf, &mut actions);
            },
            MdTag::List(_) => {
                self.indent_level = self.indent_level - 1;
                self.list_stack.pop();
                if self.list_stack.len() == 0 {
                    self.new_line(LineSpacing::Single, &mut actions);
                }
            },
            MdTag::Item => {
                self.line_break(&mut actions);
            },
            MdTag::Emphasis => {
                let font = self.font.remove(FontMode::Emphasis);
                self.set_font(font);
            },
            MdTag::Strong => {
                let font = self.font.remove(FontMode::Strong);
                self.set_font(font);
            },
            MdTag::Table(_) => {
                self.table.clear();
            },
            MdTag::TableHead => {
                self.table_column = None;
                self.table_header = false;
                self.new_line(LineSpacing::Single, &mut actions);
                let font = self.font.remove(FontMode::Strong);
                self.set_font(font);
            },
            MdTag::TableRow => {
                self.table_column = None;
                self.new_line(LineSpacing::Single, &mut actions);
            },
            MdTag::TableCell => {
                let col = match self.table_column {
                    Some(c) => c,
                    None => 0,
                };
                self.table_column = Some(col + 1);
            },
            MdTag::Unsupported(description) => {
                let message = unsupported(description, " is unsupported");
                self.warn(message, &mut actions);
            },
        }
        proof {
            let (m, acts) = end_step(old(self)@, tag0);
            assert(final(self)@ =~= m);
            assert(action_views(actions@) =~= acts);
        }
        actions
    }

    /// Whether the event can be processed in the current state.
    pub fn allows(&self, event: &MdEvent) -> (r: bool)
        ensures
            r == event_allowed(self@, *event),
    {
        match event {
            MdEvent::Start(MdTag::Item) => {
                if self.list_stack.len() == 0 {
                    false
                } else {
                    match self.list_stack[self.list_stack.len() - 1] {
                        ListMode::Ordered(n) => n < u16::MAX,
                        ListMode::Unordered => true,
                    }
                }
            },
            MdEvent::Start(MdTag::List(_)) => self.indent_level < i64::MAX,
            MdEvent::End(MdTag::List(_)) => self.indent_level > i64::MIN,
            MdEvent::End(MdTag::TableCell) => match self.table_column {
                Some(c) => c < u16::MAX,
                None => true,
            },
            _ => true,
        }
    }

    /// Processes one markdown event and returns the actions it calls for, in order.
    pub fn apply(&mut self, event: &MdEvent) -> (actions: Vec<MarkdownAction>)
        requires
            event_allowed(old(self)@, *event),
        ensures
            (final(self)@, action_views(actions@)) == event_step(old(self)@, *event),
    {
        match event {
            MdEvent::Start(tag) => self.start_tag(tag),
            MdEvent::End(tag) => self.end_tag(tag),
            _ => {
                let mut actions: Vec<MarkdownAction> = Vec::new();
                proof {
                    assert(action_views(actions@) =~= seq![]);
                }
                match event {
                    MdEvent::Text(text) => self.item(text.clone(), &mut actions),
                    MdEvent::SoftBreak => self.new_line(LineSpacing::Single, &mut actions),
                    MdEvent::HardBreak => self.new_line(LineSpacing::OneAndHalf, &mut actions),
                    MdEvent::Unsupported(description) => {
                        let message = unsupported(description, " event is unsupported");
                        self.warn(message, &mut actions);
                    },
                    _ => {},
                }
                proof {
                    assert(action_views(actions@) =~= event_step(old(self)@, *event).1);
                }
                actions
            },
        }
    }
}


/// Runs a fresh text area over `events`.  Returns `None` if some event cannot be
/// processed in the state that the events before it lead to: a list item outside
/// any list, or a counter beyond its integer type.
pub fn try_markdown_actions(events: &Vec<MdEvent>, list_bullet: String) -> (r: Option<Vec<MarkdownAction>>)
    ensures
        r is Some <==> run_allowed(initial_model(list_bullet@), events@),
        r matches Some(actions) ==> action_views(actions@) == run_events(initial_model(list_bullet@), events@).1,
{
    let ghost m0 = initial_model(list_bullet@);
    let mut state = MarkdownState::new(list_bullet);
    let mut actions: Vec<MarkdownAction> = Vec::new();
    let mut i: usize = 0;
    proof {
        assert(events@.take(0) =~= seq![]);
        assert(action_views(actions@) =~= seq![]);
    }
    while i < events.len()
        invariant
            0 <= i <= events@.len(),
            m0 == initial_model(list_bullet@),
            run_allowed(m0, events@.take(i as int)),
            (state@, action_views(actions@)) == run_events(m0, events@.take(i as int)),
        decreases events@.len() - i,
    {
        let ghost prefix = events@.take(i as int);
        let ghost next = events@.take(i + 1);
        proof {
            assert(next.drop_last() =~= prefix);
            assert(next.last() == events@[i as int]);
        }
        if !state.allows(&events[i]) {
            proof {
                if run_allowed(m0, events@) {
                    lemma_run_allowed_prefix(m0, events@, (i + 1) as nat);
                    assert(run_allowed(m0, next));
                    assert(event_allowed(run_events(m0, prefix).0, events@[i as int]));
                    assert(false);
                }
            }
            return None;
        }
        let new_actions = state.apply(&events[i]);
        let ghost before = actions@;
        let mut rest = new_actions;
        actions.append(&mut rest);
        proof {
            assert(action_views(actions@) =~= action_views(before) + action_views(new_actions@));
        }
        i = i + 1;
    }
    proof {
        assert(events@.take(events@.len() as int) =~= events@);
    }
    Some(actions)
}

/// A prefix of a sequence of events that can all be processed can also be processed.
proof fn lemma_run_allowed_prefix(m: MarkdownModel, events: Seq<MdEvent>, k: nat)
    requires
        k <= events.len(),
        run_allowed(m, events),
    ensures
        run_allowed(m, events.take(k as int)),
    decreases events.len(),
{
    if k < events.len() {
        assert(events.drop_last().take(k as int) =~= events.take(k as int));
        lemma_run_allowed_prefix(m, events.drop_last(), k);
    } else {
        assert(events.take(k as int) =~= events);
    }
}

/// Runs a fresh text area over `events`, each of which can be processed in the
/// state that the events before it lead to, and returns all actions in order.
pub fn markdown_actions(events: &Vec<MdEvent>, list_bullet: String) -> (actions: Vec<MarkdownAction>)
    requires
        run_allowed(initial_model(list_bullet@), events@),
    ensures
        action_views(actions@) == run_events(initial_model(list_bullet@), events@).1,
{
    match try_markdown_actions(events, list_bullet) {
        Some(actions) => actions,
        None => Vec::new(),
    }
}


/// `pulldown_cmark::Event`, a markdown event as the parser produces it.
#[verifier::external_type_specification]
#[verifier::external_body]
pub struct ExMarkdownEvent<'a>(Event<'a>);

/// `pulldown_cmark::Tag`, a markdown element as the parser produces it.
#[verifier::external_type_specification]
#[verifier::external_body]
pub struct ExMarkdownTag<'a>(Tag<'a>);

/// `pulldown_cmark::Alignment`, the alignment of a table column.
#[verifier::external_type_specification]
#[verifier::external_body]
pub struct ExMarkdownAlignment(Alignment);

/// The events that `pulldown_cmark`'s parser, with tables enabled, produces for a
/// text, each converted to an `MdEvent`.
pub uninterp spec fn markdown_events(text: Seq<char>) -> Seq<MdEvent>;

/// Parses `text` with `pulldown_cmark::Parser::new_ext`, with tables enabled, and
/// converts each event.  The events are a function of the text alone; the
/// contract names them and states nothing else about them.  The parser's source
/// holds `unreachable!`, `panic!` and `unwrap` calls that nothing here shows no
/// text reaches: on such a text this call unwinds.
#[verifier::external_body]
fn parse_markdown(text: &str) -> (events: Vec<MdEvent>)
    ensures
        events@ == markdown_events(text@),
{
    Parser::new_ext(text, Options::ENABLE_TABLES).map(md_event).collect()
}

/// Converts a `pulldown_cmark::Event`; events the text area does not handle keep their description.
#[verifier::external_body]
fn md_event(event: Event) -> MdEvent {
    match event {
        Event::Start(tag) => MdEvent::Start(md_tag(tag)),
        Event::End(tag) => MdEvent::End(md_tag(tag)),
        Event::Text(text) => MdEvent::Text(text.to_string()),
        Event::SoftBreak => MdEvent::SoftBreak,
        Event::HardBreak => MdEvent::HardBreak,
        other => MdEvent::Unsupported(format!("{:?}", other)),
    }
}

/// Converts a `pulldown_cmark::Tag`; tags the text area does not handle keep their description.
#[verifier::external_body]
fn md_tag(tag: Tag) -> MdTag {
    match tag {
        Tag::Paragraph => MdTag::Paragraph,
        Tag::Heading(level) => MdTag::Heading(level),
        Tag::List(first) => MdTag::List(first),
        Tag::Item => MdTag::Item,
        Tag::Emphasis => MdTag::Emphasis,
        Tag::Strong => MdTag::Strong,
        Tag::Table(columns) => MdTag::Table(columns.into_iter().map(md_alignment).collect()),
        Tag::TableHead => MdTag::TableHead,
        Tag::TableRow => MdTag::TableRow,
        Tag::TableCell => MdTag::TableCell,
        other => MdTag::Unsupported(format!("{:?}", other)),
    }
}

/// Converts a `pulldown_cmark::Alignment`.
#[verifier::external_body]
fn md_alignment(align: Alignment) -> ColumnAlign {
    match align {
        Alignment::None => ColumnAlign::Unaligned,
        Alignment::Left => ColumnAlign::Left,
        Alignment::Center => ColumnAlign::Center,
        Alignment::Right => ColumnAlign::Right,
    }
}

/// Parses `text` as markdown and runs a fresh text area, whose unordered list items
/// are marked with `list_bullet`, over the events.  Returns `None` exactly when some
/// event cannot be processed in the state the events before it lead to (see
/// `try_markdown_actions`).  The parsing is `pulldown_cmark`'s: its source holds
/// `unreachable!`, `panic!` and `unwrap` calls that nothing here shows no text
/// reaches, so on such a text this function may unwind instead of returning.
pub fn text_area_actions(text: &str, list_bullet: String) -> (r: Option<Vec<MarkdownAction>>)
    ensures
        r is Some <==> run_allowed(initial_model(list_bullet@), markdown_events(text@)),
        r matches Some(actions) ==> action_views(actions@) == run_events(
            initial_model(list_bullet@),
            markdown_events(text@),
        ).1,
{
    let events = parse_markdown(text);
    try_markdown_actions(&events, list_bullet)
}

} // verus!
