//! Constants of the server.

use vstd::prelude::*;

verus! {

/// The tag that every diagnostic of this server carries as its source.
pub const SOURCE: &'static str = "mc-glsl";

/// The column at which the range of a diagnostic ends: far enough to the
/// right to cover a whole line whatever its width.
pub const LINE_END: u32 = 1000;

/// What a driver's line number is ahead of the line that it speaks of.
pub const LINE_OFFSET: u32 = 2;

} // verus!
