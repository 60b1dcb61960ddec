//! Syntax behavior bits (`OnigSyntaxType.behavior`).

use vstd::prelude::*;

verus! {

pub const CONTEXT_INDEP_REPEAT_OPS: u32 = 1 << 0;
pub const CONTEXT_INVALID_REPEAT_OPS: u32 = 1 << 1;
pub const ALLOW_UNMATCHED_CLOSE_SUBEXP: u32 = 1 << 2;
pub const ALLOW_INVALID_INTERVAL: u32 = 1 << 3;
pub const ALLOW_INTERVAL_LOW_ABBREV: u32 = 1 << 4;
pub const STRICT_CHECK_BACKREF: u32 = 1 << 5;
pub const DIFFERENT_LEN_ALT_LOOK_BEHIND: u32 = 1 << 6;
pub const CAPTURE_ONLY_NAMED_GROUP: u32 = 1 << 7;
pub const ALLOW_MULTIPLEX_DEFINITION_NAME: u32 = 1 << 8;
pub const FIXED_INTERVAL_IS_GREEDY_ONLY: u32 = 1 << 9;
pub const ISOLATED_OPTION_CONTINUE_BRANCH: u32 = 1 << 10;
pub const VARIABLE_LEN_LOOK_BEHIND: u32 = 1 << 11;
pub const PYTHON: u32 = 1 << 12;
pub const WHOLE_OPTIONS: u32 = 1 << 13;
pub const BRE_ANCHOR_AT_EDGE_OF_SUBEXP: u32 = 1 << 14;
pub const ESC_P_WITH_ONE_CHAR_PROP: u32 = 1 << 15;
pub const NOT_NEWLINE_IN_NEGATIVE_CC: u32 = 1 << 20;
pub const BACKSLASH_ESCAPE_IN_CC: u32 = 1 << 21;
pub const ALLOW_EMPTY_RANGE_IN_CC: u32 = 1 << 22;
pub const ALLOW_DOUBLE_RANGE_OP_IN_CC: u32 = 1 << 23;
pub const ALLOW_CHAR_TYPE_FOLLOWED_BY_MINUS_IN_CC: u32 = 1 << 27;
/// Oniguruma names this `CONTEXT_INDEP_ANCHORS` at bit 31; unused in practice.
pub const CONTEXT_INDEP_ANCHORS_DUMMY: u32 = 0;
} // verus!
