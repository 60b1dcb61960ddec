//! Syntax operator bits (`OnigSyntaxType.op`).

use vstd::prelude::*;

verus! {

pub const VARIABLE_META_CHARACTERS: u32 = 1 << 0;
pub const DOT_ANYCHAR: u32 = 1 << 1;
pub const ASTERISK_ZERO_INF: u32 = 1 << 2;
pub const ESC_ASTERISK_ZERO_INF: u32 = 1 << 3;
pub const PLUS_ONE_INF: u32 = 1 << 4;
pub const ESC_PLUS_ONE_INF: u32 = 1 << 5;
pub const QMARK_ZERO_ONE: u32 = 1 << 6;
pub const ESC_QMARK_ZERO_ONE: u32 = 1 << 7;
pub const BRACE_INTERVAL: u32 = 1 << 8;
pub const ESC_BRACE_INTERVAL: u32 = 1 << 9;
pub const VBAR_ALT: u32 = 1 << 10;
pub const ESC_VBAR_ALT: u32 = 1 << 11;
pub const LPAREN_SUBEXP: u32 = 1 << 12;
pub const ESC_LPAREN_SUBEXP: u32 = 1 << 13;
pub const ESC_AZ_BUF_ANCHOR: u32 = 1 << 14;
pub const ESC_CAPITAL_G_BEGIN_ANCHOR: u32 = 1 << 15;
pub const DECIMAL_BACKREF: u32 = 1 << 16;
pub const BRACKET_CC: u32 = 1 << 17;
pub const ESC_W_WORD: u32 = 1 << 18;
pub const ESC_LTGT_WORD_BEGIN_END: u32 = 1 << 19;
pub const ESC_B_WORD_BOUND: u32 = 1 << 20;
pub const ESC_S_WHITE_SPACE: u32 = 1 << 21;
pub const ESC_D_DIGIT: u32 = 1 << 22;
pub const LINE_ANCHOR: u32 = 1 << 23;
pub const POSIX_BRACKET: u32 = 1 << 24;
pub const QMARK_NON_GREEDY: u32 = 1 << 25;
pub const ESC_CONTROL_CHARS: u32 = 1 << 26;
pub const ESC_C_CONTROL: u32 = 1 << 27;
pub const ESC_OCTAL3: u32 = 1 << 28;
pub const ESC_X_HEX2: u32 = 1 << 29;
pub const ESC_X_BRACE_HEX8: u32 = 1 << 30;
pub const ESC_O_BRACE_OCTAL: u32 = 1 << 31;
} // verus!
