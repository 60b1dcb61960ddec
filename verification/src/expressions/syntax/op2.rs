//! Second word of syntax operator bits (`OnigSyntaxType.op2`).

use vstd::prelude::*;

verus! {

pub const ESC_CAPITAL_Q_QUOTE: u32 = 1 << 0;
pub const QMARK_GROUP_EFFECT: u32 = 1 << 1;
pub const OPTION_PERL: u32 = 1 << 2;
pub const OPTION_RUBY: u32 = 1 << 3;
pub const PLUS_POSSESSIVE_REPEAT: u32 = 1 << 4;
pub const PLUS_POSSESSIVE_INTERVAL: u32 = 1 << 5;
pub const CCLASS_SET_OP: u32 = 1 << 6;
pub const QMARK_LT_NAMED_GROUP: u32 = 1 << 7;
pub const ESC_K_NAMED_BACKREF: u32 = 1 << 8;
pub const ESC_G_SUBEXP_CALL: u32 = 1 << 9;
pub const ESC_CAPITAL_C_BAR_CONTROL: u32 = 1 << 11;
pub const ESC_CAPITAL_M_BAR_META: u32 = 1 << 12;
pub const ESC_V_VTAB: u32 = 1 << 13;
pub const ESC_U_HEX4: u32 = 1 << 14;
pub const ESC_GNU_BUF_ANCHOR: u32 = 1 << 15;
pub const ESC_P_BRACE_CHAR_PROPERTY: u32 = 1 << 16;
pub const ESC_P_BRACE_CIRCUMFLEX_NOT: u32 = 1 << 17;
pub const ESC_H_XDIGIT: u32 = 1 << 19;
pub const INEFFECTIVE_ESCAPE: u32 = 1 << 20;
pub const QMARK_LPAREN_IF_ELSE: u32 = 1 << 21;
pub const ESC_CAPITAL_K_KEEP: u32 = 1 << 22;
pub const ESC_CAPITAL_R_GENERAL_NEWLINE: u32 = 1 << 23;
pub const ESC_CAPITAL_N_O_SUPER_DOT: u32 = 1 << 24;
pub const QMARK_TILDE_ABSENT_GROUP: u32 = 1 << 25;
pub const ESC_X_Y_TEXT_SEGMENT: u32 = 1 << 26;
pub const QMARK_PERL_SUBEXP_CALL: u32 = 1 << 27;
pub const QMARK_BRACE_CALLOUT_CONTENTS: u32 = 1 << 28;
pub const ASTERISK_CALLOUT_NAME: u32 = 1 << 29;
pub const OPTION_ONIGURUMA: u32 = 1 << 30;
pub const QMARK_CAPITAL_P_NAME: u32 = 1 << 31;
} // verus!
