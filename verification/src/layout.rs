//! Enumerations that describe how widgets are placed, as written in a theme.

use vstd::prelude::*;

verus! {

/// Where a widget, or the text inside it, is anchored within its parent.
#[derive(Copy, Clone, Debug, PartialEq, Eq, Hash, Structural)]
pub enum Align {
    Left,
    Right,
    Bot,
    Top,
    Center,
    BotLeft,
    BotRight,
    TopLeft,
    TopRight,
}

/// How a parent moves its cursor after each child widget.
#[derive(Copy, Clone, Debug, PartialEq, Eq, Hash, Structural)]
pub enum Layout {
    Horizontal,
    Vertical,
    Free,
}

/// What a widget's width is computed from.
#[derive(Copy, Clone, Debug, PartialEq, Eq, Hash, Structural)]
pub enum WidthRelative {
    Normal,
    Parent,
}

/// What a widget's height is computed from.
#[derive(Copy, Clone, Debug, PartialEq, Eq, Hash, Structural)]
pub enum HeightRelative {
    Normal,
    Parent,
    FontLine,
}

/// When an optional part of a widget, such as a scrollbar, is shown.
#[derive(Copy, Clone, Debug, PartialEq, Eq, Structural)]
pub enum ShowElement {
    /// Never show the element
    Never,
    /// Always show the element
    Always,
    /// Show the element based on some external condition, such as whether
    /// the content of a scrollpane is larger than the scrollpane.
    Sometimes,
}

impl ShowElement {
    /// Whether the element is shown, given whether the external condition holds.
    pub fn show(self, content: bool) -> (r: bool)
        ensures
            r == match self {
                ShowElement::Never => false,
                ShowElement::Sometimes => content,
                ShowElement::Always => true,
            },
    {
        match self {
            ShowElement::Never => false,
            ShowElement::Sometimes => content,
            ShowElement::Always => true,
        }
    }
}

} // verus!
