//! Status / state glyphs for UI chrome and CLI.

use vstd::prelude::*;

verus! {

/// Check mark (U+2713) + VS15 -- verified / ok (text presentation).
pub const OK: &'static str = "\u{2713}\u{FE0E}";

/// White heavy check mark (U+2705) -- badge-style pass.
pub const PASS: &'static str = "\u{2705}";

/// Ballot X (U+2717) -- fail / error.
pub const FAIL: &'static str = "\u{2717}";

/// Cross mark (U+274C) -- badge-style fail.
pub const REJECT: &'static str = "\u{274C}";

/// Multiplication X (U+2715) -- light dismiss / clear.
pub const CROSS: &'static str = "\u{2715}";

/// Warning sign (U+26A0) + VS15 -- warn.
pub const WARN: &'static str = "\u{26A0}\u{FE0E}";

/// Stopwatch (U+23F1) + VS15 -- pending / elapsed timer.
pub const TIMER: &'static str = "\u{23F1}\u{FE0E}";

/// Alias for [`TIMER`].
pub const PENDING: &'static str = TIMER;

/// Alarm clock (U+23F0) + VS15.
pub const ALARM: &'static str = "\u{23F0}\u{FE0E}";

/// Hourglass with flowing sand (U+23F3) + VS15 -- waiting.
pub const HOURGLASS: &'static str = "\u{23F3}\u{FE0E}";

/// Black circle (U+25CF) -- live / in-progress dot.
pub const LIVE: &'static str = "\u{25CF}";

/// Black square (U+25A0) -- stop / done.
pub const STOP: &'static str = "\u{25A0}";

/// Black right-pointing triangle (U+25B6) + VS15 -- play.
pub const PLAY: &'static str = "\u{25B6}\u{FE0E}";

} // verus!
