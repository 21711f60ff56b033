//! Thyme is a themable immediate mode GUI toolkit.  This crate holds the parts of
//! Thyme that decide things without floating point arithmetic or a window system:
//! resource handles, benchmark bookkeeping, markdown styling, widget identifiers,
//! input and modal state, render group ordering, theme resolution and glyph packing.

use vstd::prelude::*;
use vstd::string::*;

pub mod render;
pub mod text;
pub mod layout;
pub mod markdown;
pub mod bench;
pub mod ids;
pub mod groups;
pub mod input;
pub mod input_field;
pub mod image;
pub mod theme;
pub mod font;
pub mod state;
pub mod assets;
pub mod border;
pub mod image_set;


verus! {

/// A generic error that can come from a variety of internal sources.
#[derive(Debug, Clone)]
pub enum Error {
    Theme(String),
    FontSource(String),
}

/// The text describing an error, as it is displayed.
pub open spec fn error_message(e: Error) -> Seq<char> {
    match e {
        Error::Theme(msg) => "Error creating theme from theme definition: "@ + msg@,
        Error::FontSource(msg) => "Error reading font source: "@ + msg@,
    }
}

impl Error {
    /// The text describing this error, as it is displayed.
    pub fn message(&self) -> (s: String)
        ensures
            s@ == error_message(*self),
    {
        match self {
            Error::Theme(msg) => {
                let mut s = String::from_str("Error creating theme from theme definition: ");
                s.append(msg.as_str());
                s
            },
            Error::FontSource(msg) => {
                let mut s = String::from_str("Error reading font source: ");
                s.append(msg.as_str());
                s
            },
        }
    }
}

/// Global options that may be specified when building the Thyme context.  These
/// options cannot be changed afterwards.
#[derive(Debug, Clone, Copy, PartialEq, Eq, Structural)]
pub struct BuildOptions {
    /// Whether to enable background file monitoring for live reload.  To actually
    /// make use of it, the application checks for changes between frames.  The
    /// default value is `true`.
    pub enable_live_reload: bool,
}

impl Default for BuildOptions {
    fn default() -> (o: BuildOptions)
        ensures
            o.enable_live_reload,
    {
        BuildOptions { enable_live_reload: true }
    }
}

} // verus!
