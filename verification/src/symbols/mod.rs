//! Semantically grouped glyph constants.
//!
//! Grouping is by role, not appearance. Every glyph is written with `\u{...}`
//! escapes so the source stays pure ASCII.

pub mod html;
pub mod nav;
pub mod status;

use vstd::prelude::*;

verus! {

/// Variation selector-15: force text presentation (not emoji colour).
pub const VS15: &'static str = "\u{FE0E}";

/// Variation selector-16: force emoji presentation.
pub const VS16: &'static str = "\u{FE0F}";

} // verus!
