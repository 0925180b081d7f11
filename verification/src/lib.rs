//! The core of a language server for shader packs: the include graph of a
//! workspace, the scanner that finds `#include` directives, the engine that
//! flattens a shader and its includes into one document, and the parser that
//! maps a GLSL driver's diagnostics back onto the files of the workspace.
//!
//! Paths and texts are byte strings. A path uses `/` as its separator.

use vstd::prelude::*;

pub mod consts;
pub mod dfs;
pub mod diagnostics;
pub mod dot;
pub mod graph;
pub mod includes;
pub mod lint;
pub mod merge_views;
pub mod paths;
pub mod protocol;
pub mod server;
pub mod text;

verus! {

/// Where the quoted path of an `#include` directive stands in the including
/// file: the line, counted from zero, and the byte columns of the path.
#[derive(Clone, Copy, Debug, PartialEq, Eq, Hash, Structural)]
pub struct IncludePosition {
    pub line: usize,
    pub start: usize,
    pub end: usize,
}

impl IncludePosition {
    /// The position as it is shown in messages: `{line: ` and the line and
    /// `}`.
    pub open spec fn label_of(self) -> Seq<u8> {
        text::ascii("{line: ") + text::decimal(self.line as nat) + text::ascii("}")
    }

    /// The position as it is shown in messages, see [`Self::label_of`].
    pub fn label(&self) -> (shown: Vec<u8>)
        ensures
            shown@ == self.label_of(),
    {
        proof {
            reveal_strlit("{line: ");
            reveal_strlit("}");
        }
        let mut shown = text::to_vec(text::ascii_bytes("{line: "));
        text::push_decimal(&mut shown, self.line as u128);
        text::push_bytes(&mut shown, text::ascii_bytes("}"));
        shown
    }
}

/// The kind of shader that a top-level file holds.
#[derive(Clone, Copy, Debug, PartialEq, Eq, Hash, Structural)]
pub enum TreeType {
    Fragment,
    Vertex,
    Geometry,
    Compute,
}

} // verus!
