//! Compile/search options and `OnigSyntaxType` flag tables.

pub mod behavior;
pub mod op;
pub mod op2;

use vstd::prelude::*;
use super::encoding::Encoding;

verus! {

/// Compile- and search-time option bits (Oniguruma `OnigOptionType`).
#[derive(Clone, Copy, Debug, PartialEq, Eq, Structural)]
pub struct Options(pub u32);

impl Options {
    pub open spec fn none_spec() -> Options {
        Options(0)
    }

    pub fn none() -> (r: Options)
        ensures
            r == Self::none_spec(),
    {
        Options(0)
    }
    pub open spec fn ignorecase_spec() -> Options {
        Options(1)
    }

    pub fn ignorecase() -> (r: Options)
        ensures
            r == Self::ignorecase_spec(),
    {
        Options(1)
    }
    pub open spec fn extend_spec() -> Options {
        Options(2)
    }

    pub fn extend() -> (r: Options)
        ensures
            r == Self::extend_spec(),
    {
        Options(2)
    }
    pub open spec fn multiline_spec() -> Options {
        Options(4)
    }

    pub fn multiline() -> (r: Options)
        ensures
            r == Self::multiline_spec(),
    {
        Options(4)
    }
    pub open spec fn singleline_spec() -> Options {
        Options(8)
    }

    pub fn singleline() -> (r: Options)
        ensures
            r == Self::singleline_spec(),
    {
        Options(8)
    }
    pub open spec fn find_longest_spec() -> Options {
        Options(16)
    }

    pub fn find_longest() -> (r: Options)
        ensures
            r == Self::find_longest_spec(),
    {
        Options(16)
    }
    pub open spec fn find_not_empty_spec() -> Options {
        Options(32)
    }

    pub fn find_not_empty() -> (r: Options)
        ensures
            r == Self::find_not_empty_spec(),
    {
        Options(32)
    }
    pub open spec fn negate_singleline_spec() -> Options {
        Options(64)
    }

    pub fn negate_singleline() -> (r: Options)
        ensures
            r == Self::negate_singleline_spec(),
    {
        Options(64)
    }
    pub open spec fn dont_capture_group_spec() -> Options {
        Options(128)
    }

    pub fn dont_capture_group() -> (r: Options)
        ensures
            r == Self::dont_capture_group_spec(),
    {
        Options(128)
    }
    pub open spec fn capture_group_spec() -> Options {
        Options(256)
    }

    pub fn capture_group() -> (r: Options)
        ensures
            r == Self::capture_group_spec(),
    {
        Options(256)
    }
    pub open spec fn notbol_spec() -> Options {
        Options(512)
    }

    pub fn notbol() -> (r: Options)
        ensures
            r == Self::notbol_spec(),
    {
        Options(512)
    }
    pub open spec fn noteol_spec() -> Options {
        Options(1024)
    }

    pub fn noteol() -> (r: Options)
        ensures
            r == Self::noteol_spec(),
    {
        Options(1024)
    }
    pub open spec fn ignorecase_is_ascii_spec() -> Options {
        Options(8192)
    }

    pub fn ignorecase_is_ascii() -> (r: Options)
        ensures
            r == Self::ignorecase_is_ascii_spec(),
    {
        Options(8192)
    }
    pub open spec fn word_is_ascii_spec() -> Options {
        Options(16384)
    }

    pub fn word_is_ascii() -> (r: Options)
        ensures
            r == Self::word_is_ascii_spec(),
    {
        Options(16384)
    }
    pub open spec fn digit_is_ascii_spec() -> Options {
        Options(32768)
    }

    pub fn digit_is_ascii() -> (r: Options)
        ensures
            r == Self::digit_is_ascii_spec(),
    {
        Options(32768)
    }
    pub open spec fn space_is_ascii_spec() -> Options {
        Options(65536)
    }

    pub fn space_is_ascii() -> (r: Options)
        ensures
            r == Self::space_is_ascii_spec(),
    {
        Options(65536)
    }
    pub open spec fn posix_is_ascii_spec() -> Options {
        Options(131072)
    }

    pub fn posix_is_ascii() -> (r: Options)
        ensures
            r == Self::posix_is_ascii_spec(),
    {
        Options(131072)
    }
    pub open spec fn text_segment_extended_grapheme_cluster_spec() -> Options {
        Options(262144)
    }

    pub fn text_segment_extended_grapheme_cluster() -> (r: Options)
        ensures
            r == Self::text_segment_extended_grapheme_cluster_spec(),
    {
        Options(262144)
    }
    pub open spec fn text_segment_word_spec() -> Options {
        Options(524288)
    }

    pub fn text_segment_word() -> (r: Options)
        ensures
            r == Self::text_segment_word_spec(),
    {
        Options(524288)
    }
    pub open spec fn not_begin_string_spec() -> Options {
        Options(1048576)
    }

    pub fn not_begin_string() -> (r: Options)
        ensures
            r == Self::not_begin_string_spec(),
    {
        Options(1048576)
    }
    pub open spec fn not_end_string_spec() -> Options {
        Options(2097152)
    }

    pub fn not_end_string() -> (r: Options)
        ensures
            r == Self::not_end_string_spec(),
    {
        Options(2097152)
    }
    pub open spec fn not_begin_position_spec() -> Options {
        Options(4194304)
    }

    pub fn not_begin_position() -> (r: Options)
        ensures
            r == Self::not_begin_position_spec(),
    {
        Options(4194304)
    }
    pub open spec fn callback_each_match_spec() -> Options {
        Options(8388608)
    }

    pub fn callback_each_match() -> (r: Options)
        ensures
            r == Self::callback_each_match_spec(),
    {
        Options(8388608)
    }
    pub open spec fn match_whole_string_spec() -> Options {
        Options(16777216)
    }

    pub fn match_whole_string() -> (r: Options)
        ensures
            r == Self::match_whole_string_spec(),
    {
        Options(16777216)
    }

    /// Every bit of `other` is set in `self`.
    pub open spec fn has(self, other: Options) -> bool {
        self.0 & other.0 == other.0
    }

    /// Every bit of `other` is set in `self`.
    pub fn contains(self, other: Options) -> (r: bool)
        ensures
            r == self.has(other),
    {
        self.0 & other.0 == other.0
    }

    /// The bits set in either.
    pub fn union(self, other: Options) -> (r: Options)
        ensures
            r.0 == self.0 | other.0,
    {
        Options(self.0 | other.0)
    }

    /// The bits of `self` not set in `other`.
    pub fn difference(self, other: Options) -> (r: Options)
        ensures
            r.0 == self.0 & !other.0,
    {
        Options(self.0 & !other.0)
    }

    /// Turn the bits of `other` on or off.
    pub fn set(&mut self, other: Options, on: bool)
        ensures
            on ==> final(self).0 == old(self).0 | other.0,
            !on ==> final(self).0 == old(self).0 & !other.0,
    {
        if on {
            self.0 = self.0 | other.0;
        } else {
            self.0 = self.0 & !other.0;
        }
    }
}

/// Syntax operator/behavior bits (`OnigSyntaxType`).
#[derive(Clone, Copy, Debug, PartialEq, Eq, Structural)]
pub struct Syntax {
    pub op: u32,
    pub op2: u32,
    pub behavior: u32,
    pub options: Options,
    pub meta_escape: u32,
    pub meta_anychar: u32,
    pub meta_anytime: u32,
    pub meta_zero_or_one: u32,
    pub meta_one_or_more: u32,
    pub meta_anychar_anytime: u32,
}

pub const GNU_OP: u32 = op::DOT_ANYCHAR | op::BRACKET_CC | op::POSIX_BRACKET | op::ASTERISK_ZERO_INF
    | op::PLUS_ONE_INF | op::QMARK_ZERO_ONE | op::BRACE_INTERVAL | op::VBAR_ALT | op::LPAREN_SUBEXP
    | op::ESC_AZ_BUF_ANCHOR | op::ESC_CAPITAL_G_BEGIN_ANCHOR | op::DECIMAL_BACKREF | op::ESC_W_WORD
    | op::ESC_B_WORD_BOUND | op::ESC_S_WHITE_SPACE | op::ESC_D_DIGIT | op::LINE_ANCHOR
    | op::ESC_LTGT_WORD_BEGIN_END;

pub const GNU_BV: u32 = behavior::CONTEXT_INDEP_ANCHORS_DUMMY | behavior::CONTEXT_INDEP_REPEAT_OPS
    | behavior::CONTEXT_INVALID_REPEAT_OPS | behavior::ALLOW_INVALID_INTERVAL
    | behavior::BACKSLASH_ESCAPE_IN_CC | behavior::ALLOW_DOUBLE_RANGE_OP_IN_CC;

pub const ONIGURUMA_OP: u32 = (GNU_OP | op::QMARK_NON_GREEDY | op::ESC_OCTAL3 | op::ESC_X_HEX2
    | op::ESC_X_BRACE_HEX8 | op::ESC_O_BRACE_OCTAL | op::ESC_CONTROL_CHARS | op::ESC_C_CONTROL)
    & !op::ESC_LTGT_WORD_BEGIN_END;

pub const ONIGURUMA_OP2: u32 = op2::QMARK_GROUP_EFFECT | op2::OPTION_RUBY | op2::OPTION_ONIGURUMA
    | op2::QMARK_LT_NAMED_GROUP | op2::ESC_K_NAMED_BACKREF | op2::ESC_G_SUBEXP_CALL
    | op2::ESC_P_BRACE_CHAR_PROPERTY | op2::ESC_P_BRACE_CIRCUMFLEX_NOT
    | op2::PLUS_POSSESSIVE_REPEAT | op2::PLUS_POSSESSIVE_INTERVAL | op2::CCLASS_SET_OP
    | op2::ESC_CAPITAL_C_BAR_CONTROL | op2::ESC_CAPITAL_M_BAR_META | op2::ESC_V_VTAB
    | op2::ESC_H_XDIGIT | op2::ESC_CAPITAL_K_KEEP | op2::ESC_CAPITAL_R_GENERAL_NEWLINE
    | op2::ESC_CAPITAL_N_O_SUPER_DOT | op2::QMARK_TILDE_ABSENT_GROUP | op2::ESC_X_Y_TEXT_SEGMENT
    | op2::QMARK_LPAREN_IF_ELSE | op2::ASTERISK_CALLOUT_NAME | op2::QMARK_BRACE_CALLOUT_CONTENTS
    | op2::ESC_U_HEX4;

pub const ONIGURUMA_BV: u32 = GNU_BV | behavior::DIFFERENT_LEN_ALT_LOOK_BEHIND
    | behavior::CAPTURE_ONLY_NAMED_GROUP | behavior::ALLOW_MULTIPLEX_DEFINITION_NAME
    | behavior::FIXED_INTERVAL_IS_GREEDY_ONLY | behavior::ALLOW_INTERVAL_LOW_ABBREV
    | behavior::VARIABLE_LEN_LOOK_BEHIND | behavior::WHOLE_OPTIONS
    | behavior::ESC_P_WITH_ONE_CHAR_PROP | behavior::ALLOW_CHAR_TYPE_FOLLOWED_BY_MINUS_IN_CC;

/// A syntax with these bits and the default meta characters (`\` escapes,
/// no variable metas).
pub open spec fn syntax_with(op: u32, op2: u32, behavior: u32, options: Options) -> Syntax {
    Syntax {
        op,
        op2,
        behavior,
        options,
        meta_escape: 92,
        meta_anychar: 0,
        meta_anytime: 0,
        meta_zero_or_one: 0,
        meta_one_or_more: 0,
        meta_anychar_anytime: 0,
    }
}

impl Syntax {
    fn with(op: u32, op2: u32, behavior: u32, options: Options) -> (r: Syntax)
        ensures
            r == syntax_with(op, op2, behavior, options),
    {
        Syntax {
            op,
            op2,
            behavior,
            options,
            meta_escape: 92,
            meta_anychar: 0,
            meta_anytime: 0,
            meta_zero_or_one: 0,
            meta_one_or_more: 0,
            meta_anychar_anytime: 0,
        }
    }

    pub open spec fn op_on(self, bit: u32) -> bool {
        self.op & bit != 0
    }

    pub open spec fn op2_on(self, bit: u32) -> bool {
        self.op2 & bit != 0
    }

    pub open spec fn behavior_on(self, bit: u32) -> bool {
        self.behavior & bit != 0
    }

    pub fn has_op(self, bit: u32) -> (r: bool)
        ensures
            r == self.op_on(bit),
    {
        self.op & bit != 0
    }

    pub fn has_op2(self, bit: u32) -> (r: bool)
        ensures
            r == self.op2_on(bit),
    {
        self.op2 & bit != 0
    }

    pub fn has_behavior(self, bit: u32) -> (r: bool)
        ensures
            r == self.behavior_on(bit),
    {
        self.behavior & bit != 0
    }

    /// Set a variable meta character (`onig_set_meta_char`): 0 escape,
    /// 1 anychar, 2 anytime, 3 zero-or-one, 4 one-or-more, 5 anychar-anytime;
    /// any other `what` changes nothing.
    pub fn set_meta_char(&mut self, what: u32, code: u32)
        ensures
            *final(self) == (if what == 0 {
                Syntax { meta_escape: code, ..*old(self) }
            } else if what == 1 {
                Syntax { meta_anychar: code, ..*old(self) }
            } else if what == 2 {
                Syntax { meta_anytime: code, ..*old(self) }
            } else if what == 3 {
                Syntax { meta_zero_or_one: code, ..*old(self) }
            } else if what == 4 {
                Syntax { meta_one_or_more: code, ..*old(self) }
            } else if what == 5 {
                Syntax { meta_anychar_anytime: code, ..*old(self) }
            } else {
                *old(self)
            }),
    {
        if what == 0 {
            self.meta_escape = code;
        } else if what == 1 {
            self.meta_anychar = code;
        } else if what == 2 {
            self.meta_anytime = code;
        } else if what == 3 {
            self.meta_zero_or_one = code;
        } else if what == 4 {
            self.meta_one_or_more = code;
        } else if what == 5 {
            self.meta_anychar_anytime = code;
        }
    }

    /// The `asis` syntax.
    pub open spec fn asis_spec() -> Syntax {
        syntax_with(0, op2::INEFFECTIVE_ESCAPE, 0, Options(0))
    }

    /// Every character literal; `\` stands for itself.
    pub fn asis() -> (r: Syntax)
        ensures
            r == Syntax::asis_spec(),
    {
        Syntax {
        op: 0,
        op2: op2::INEFFECTIVE_ESCAPE,
        behavior: 0,
        options: Options(0),
            meta_escape: 92,
            meta_anychar: 0,
            meta_anytime: 0,
            meta_zero_or_one: 0,
            meta_one_or_more: 0,
            meta_anychar_anytime: 0,
        }
    }

    /// The `posix_basic` syntax.
    pub open spec fn posix_basic_spec() -> Syntax {
        syntax_with(
            GNU_OP & !(op::PLUS_ONE_INF | op::QMARK_ZERO_ONE | op::VBAR_ALT | op::LPAREN_SUBEXP)
                | op::ESC_LPAREN_SUBEXP | op::ESC_BRACE_INTERVAL | op::POSIX_BRACKET
                | op::DOT_ANYCHAR | op::BRACKET_CC | op::ASTERISK_ZERO_INF | op::LINE_ANCHOR,
            0,
            behavior::BRE_ANCHOR_AT_EDGE_OF_SUBEXP,
            Options(8u32 | 4u32),
        )
    }

    pub fn posix_basic() -> (r: Syntax)
        ensures
            r == Syntax::posix_basic_spec(),
    {
        Self::with(
            GNU_OP & !(op::PLUS_ONE_INF | op::QMARK_ZERO_ONE | op::VBAR_ALT | op::LPAREN_SUBEXP)
                | op::ESC_LPAREN_SUBEXP | op::ESC_BRACE_INTERVAL | op::POSIX_BRACKET
                | op::DOT_ANYCHAR | op::BRACKET_CC | op::ASTERISK_ZERO_INF | op::LINE_ANCHOR,
            0,
            behavior::BRE_ANCHOR_AT_EDGE_OF_SUBEXP,
            Options::singleline().union(Options::multiline()),
        )
    }

    /// The `posix_extended` syntax.
    pub open spec fn posix_extended_spec() -> Syntax {
        syntax_with(
            GNU_OP,
            0,
            behavior::CONTEXT_INDEP_REPEAT_OPS | behavior::CONTEXT_INVALID_REPEAT_OPS
                | behavior::ALLOW_UNMATCHED_CLOSE_SUBEXP | behavior::ALLOW_DOUBLE_RANGE_OP_IN_CC,
            Options(8u32 | 4u32),
        )
    }

    pub fn posix_extended() -> (r: Syntax)
        ensures
            r == Syntax::posix_extended_spec(),
    {
        Self::with(
            GNU_OP,
            0,
            behavior::CONTEXT_INDEP_REPEAT_OPS | behavior::CONTEXT_INVALID_REPEAT_OPS
                | behavior::ALLOW_UNMATCHED_CLOSE_SUBEXP | behavior::ALLOW_DOUBLE_RANGE_OP_IN_CC,
            Options::singleline().union(Options::multiline()),
        )
    }

    /// The `emacs` syntax.
    pub open spec fn emacs_spec() -> Syntax {
        syntax_with(
            op::DOT_ANYCHAR | op::BRACKET_CC | op::ESC_BRACE_INTERVAL | op::ESC_LPAREN_SUBEXP
                | op::ESC_VBAR_ALT | op::ASTERISK_ZERO_INF | op::PLUS_ONE_INF | op::QMARK_ZERO_ONE
                | op::DECIMAL_BACKREF | op::LINE_ANCHOR | op::ESC_CONTROL_CHARS,
            op2::ESC_GNU_BUF_ANCHOR | op2::QMARK_GROUP_EFFECT,
            0,
            Options(0),
        )
    }

    pub fn emacs() -> (r: Syntax)
        ensures
            r == Syntax::emacs_spec(),
    {
        Self::with(
            op::DOT_ANYCHAR | op::BRACKET_CC | op::ESC_BRACE_INTERVAL | op::ESC_LPAREN_SUBEXP
                | op::ESC_VBAR_ALT | op::ASTERISK_ZERO_INF | op::PLUS_ONE_INF | op::QMARK_ZERO_ONE
                | op::DECIMAL_BACKREF | op::LINE_ANCHOR | op::ESC_CONTROL_CHARS,
            op2::ESC_GNU_BUF_ANCHOR | op2::QMARK_GROUP_EFFECT,
            0,
            Options::none(),
        )
    }

    /// The `grep` syntax.
    pub open spec fn grep_spec() -> Syntax {
        syntax_with(
            op::DOT_ANYCHAR | op::BRACKET_CC | op::POSIX_BRACKET | op::ESC_BRACE_INTERVAL
                | op::ESC_LPAREN_SUBEXP | op::ESC_VBAR_ALT | op::ASTERISK_ZERO_INF
                | op::ESC_PLUS_ONE_INF | op::ESC_QMARK_ZERO_ONE | op::LINE_ANCHOR | op::ESC_W_WORD
                | op::ESC_B_WORD_BOUND | op::ESC_LTGT_WORD_BEGIN_END | op::DECIMAL_BACKREF,
            0,
            behavior::NOT_NEWLINE_IN_NEGATIVE_CC | behavior::BRE_ANCHOR_AT_EDGE_OF_SUBEXP,
            Options(0),
        )
    }

    pub fn grep() -> (r: Syntax)
        ensures
            r == Syntax::grep_spec(),
    {
        Self::with(
            op::DOT_ANYCHAR | op::BRACKET_CC | op::POSIX_BRACKET | op::ESC_BRACE_INTERVAL
                | op::ESC_LPAREN_SUBEXP | op::ESC_VBAR_ALT | op::ASTERISK_ZERO_INF
                | op::ESC_PLUS_ONE_INF | op::ESC_QMARK_ZERO_ONE | op::LINE_ANCHOR | op::ESC_W_WORD
                | op::ESC_B_WORD_BOUND | op::ESC_LTGT_WORD_BEGIN_END | op::DECIMAL_BACKREF,
            0,
            behavior::NOT_NEWLINE_IN_NEGATIVE_CC | behavior::BRE_ANCHOR_AT_EDGE_OF_SUBEXP,
            Options::none(),
        )
    }

    /// The `gnu_regex` syntax.
    pub open spec fn gnu_regex_spec() -> Syntax {
        syntax_with(GNU_OP, 0, GNU_BV, Options(0))
    }

    pub fn gnu_regex() -> (r: Syntax)
        ensures
            r == Syntax::gnu_regex_spec(),
    {
        Self::with(GNU_OP, 0, GNU_BV, Options::none())
    }

    /// The `java` syntax.
    pub open spec fn java_spec() -> Syntax {
        syntax_with(
            (GNU_OP | op::QMARK_NON_GREEDY | op::ESC_CONTROL_CHARS | op::ESC_C_CONTROL
                | op::ESC_OCTAL3 | op::ESC_X_HEX2) & !(op::ESC_LTGT_WORD_BEGIN_END
                | op::POSIX_BRACKET),
            op2::ESC_CAPITAL_Q_QUOTE | op2::QMARK_GROUP_EFFECT | op2::OPTION_PERL
                | op2::PLUS_POSSESSIVE_REPEAT | op2::PLUS_POSSESSIVE_INTERVAL | op2::CCLASS_SET_OP
                | op2::ESC_V_VTAB | op2::ESC_U_HEX4 | op2::ESC_P_BRACE_CHAR_PROPERTY,
            GNU_BV | behavior::ISOLATED_OPTION_CONTINUE_BRANCH
                | behavior::DIFFERENT_LEN_ALT_LOOK_BEHIND | behavior::VARIABLE_LEN_LOOK_BEHIND
                | behavior::ALLOW_CHAR_TYPE_FOLLOWED_BY_MINUS_IN_CC,
            Options(8),
        )
    }

    pub fn java() -> (r: Syntax)
        ensures
            r == Syntax::java_spec(),
    {
        Self::with(
            (GNU_OP | op::QMARK_NON_GREEDY | op::ESC_CONTROL_CHARS | op::ESC_C_CONTROL
                | op::ESC_OCTAL3 | op::ESC_X_HEX2) & !(op::ESC_LTGT_WORD_BEGIN_END
                | op::POSIX_BRACKET),
            op2::ESC_CAPITAL_Q_QUOTE | op2::QMARK_GROUP_EFFECT | op2::OPTION_PERL
                | op2::PLUS_POSSESSIVE_REPEAT | op2::PLUS_POSSESSIVE_INTERVAL | op2::CCLASS_SET_OP
                | op2::ESC_V_VTAB | op2::ESC_U_HEX4 | op2::ESC_P_BRACE_CHAR_PROPERTY,
            GNU_BV | behavior::ISOLATED_OPTION_CONTINUE_BRANCH
                | behavior::DIFFERENT_LEN_ALT_LOOK_BEHIND | behavior::VARIABLE_LEN_LOOK_BEHIND
                | behavior::ALLOW_CHAR_TYPE_FOLLOWED_BY_MINUS_IN_CC,
            Options::singleline(),
        )
    }

    /// The `perl` syntax.
    pub open spec fn perl_spec() -> Syntax {
        syntax_with(PERL_OP, PERL_OP2, PERL_BV, Options(8))
    }

    pub fn perl() -> (r: Syntax)
        ensures
            r == Syntax::perl_spec(),
    {
        Self::with(PERL_OP, PERL_OP2, PERL_BV, Options::singleline())
    }

    /// The `perl_ng` syntax.
    pub open spec fn perl_ng_spec() -> Syntax {
        syntax_with(
            PERL_OP,
            PERL_OP2 | op2::QMARK_LT_NAMED_GROUP | op2::ESC_K_NAMED_BACKREF
                | op2::ESC_G_SUBEXP_CALL | op2::QMARK_PERL_SUBEXP_CALL,
            PERL_BV | behavior::CAPTURE_ONLY_NAMED_GROUP
                | behavior::ALLOW_MULTIPLEX_DEFINITION_NAME,
            Options(8),
        )
    }

    pub fn perl_ng() -> (r: Syntax)
        ensures
            r == Syntax::perl_ng_spec(),
    {
        let mut s = Self::perl();
        s.op2 = s.op2 | op2::QMARK_LT_NAMED_GROUP | op2::ESC_K_NAMED_BACKREF
            | op2::ESC_G_SUBEXP_CALL | op2::QMARK_PERL_SUBEXP_CALL;
        s.behavior = s.behavior | behavior::CAPTURE_ONLY_NAMED_GROUP
            | behavior::ALLOW_MULTIPLEX_DEFINITION_NAME;
        s
    }

    /// The `python` syntax.
    pub open spec fn python_spec() -> Syntax {
        syntax_with(
            (GNU_OP | op::QMARK_NON_GREEDY | op::ESC_OCTAL3 | op::ESC_X_HEX2
                | op::ESC_CONTROL_CHARS | op::ESC_C_CONTROL) & !(op::ESC_LTGT_WORD_BEGIN_END
                | op::POSIX_BRACKET),
            op2::QMARK_GROUP_EFFECT | op2::OPTION_PERL | op2::QMARK_LPAREN_IF_ELSE
                | op2::ASTERISK_CALLOUT_NAME | op2::ESC_P_BRACE_CHAR_PROPERTY
                | op2::ESC_P_BRACE_CIRCUMFLEX_NOT | op2::QMARK_CAPITAL_P_NAME
                | op2::ESC_CAPITAL_K_KEEP | op2::ESC_V_VTAB | op2::ESC_U_HEX4,
            GNU_BV | behavior::ISOLATED_OPTION_CONTINUE_BRANCH
                | behavior::ALLOW_INTERVAL_LOW_ABBREV | behavior::PYTHON,
            Options(8),
        )
    }

    pub fn python() -> (r: Syntax)
        ensures
            r == Syntax::python_spec(),
    {
        Self::with(
            (GNU_OP | op::QMARK_NON_GREEDY | op::ESC_OCTAL3 | op::ESC_X_HEX2
                | op::ESC_CONTROL_CHARS | op::ESC_C_CONTROL) & !(op::ESC_LTGT_WORD_BEGIN_END
                | op::POSIX_BRACKET),
            op2::QMARK_GROUP_EFFECT | op2::OPTION_PERL | op2::QMARK_LPAREN_IF_ELSE
                | op2::ASTERISK_CALLOUT_NAME | op2::ESC_P_BRACE_CHAR_PROPERTY
                | op2::ESC_P_BRACE_CIRCUMFLEX_NOT | op2::QMARK_CAPITAL_P_NAME
                | op2::ESC_CAPITAL_K_KEEP | op2::ESC_V_VTAB | op2::ESC_U_HEX4,
            GNU_BV | behavior::ISOLATED_OPTION_CONTINUE_BRANCH
                | behavior::ALLOW_INTERVAL_LOW_ABBREV | behavior::PYTHON,
            Options::singleline(),
        )
    }

    /// The `oniguruma` syntax.
    pub open spec fn oniguruma_spec() -> Syntax {
        syntax_with(ONIGURUMA_OP, ONIGURUMA_OP2, ONIGURUMA_BV, Options(0))
    }

    /// Default syntax (`ONIG_SYNTAX_ONIGURUMA`).
    pub fn oniguruma() -> (r: Syntax)
        ensures
            r == Syntax::oniguruma_spec(),
    {
        Self::with(ONIGURUMA_OP, ONIGURUMA_OP2, ONIGURUMA_BV, Options(0))
    }
}

pub const PERL_OP: u32 = (GNU_OP | op::QMARK_NON_GREEDY | op::ESC_OCTAL3 | op::ESC_X_HEX2
    | op::ESC_X_BRACE_HEX8 | op::ESC_O_BRACE_OCTAL | op::ESC_CONTROL_CHARS | op::ESC_C_CONTROL)
    & !op::ESC_LTGT_WORD_BEGIN_END;

pub const PERL_OP2: u32 = op2::ESC_CAPITAL_Q_QUOTE | op2::QMARK_GROUP_EFFECT | op2::OPTION_PERL
    | op2::PLUS_POSSESSIVE_REPEAT | op2::PLUS_POSSESSIVE_INTERVAL | op2::QMARK_LPAREN_IF_ELSE
    | op2::QMARK_TILDE_ABSENT_GROUP | op2::QMARK_BRACE_CALLOUT_CONTENTS
    | op2::ASTERISK_CALLOUT_NAME | op2::ESC_X_Y_TEXT_SEGMENT | op2::ESC_P_BRACE_CHAR_PROPERTY
    | op2::ESC_P_BRACE_CIRCUMFLEX_NOT | op2::ESC_CAPITAL_K_KEEP
    | op2::ESC_CAPITAL_R_GENERAL_NEWLINE | op2::ESC_CAPITAL_N_O_SUPER_DOT;

pub const PERL_BV: u32 = GNU_BV | behavior::ISOLATED_OPTION_CONTINUE_BRANCH
    | behavior::ALLOW_CHAR_TYPE_FOLLOWED_BY_MINUS_IN_CC | behavior::ESC_P_WITH_ONE_CHAR_PROP;

/// SQL-like variable metas: `%` stands for `.*` and `_` for `.`.
pub fn sql_syntax() -> (r: Syntax)
    ensures
        r == (Syntax {
            op: ONIGURUMA_OP | op::VARIABLE_META_CHARACTERS,
            meta_anychar: 95,
            meta_anychar_anytime: 37,
            ..syntax_with(ONIGURUMA_OP, ONIGURUMA_OP2, ONIGURUMA_BV, Options(0))
        }),
{
    let mut s = Syntax::oniguruma();
    s.op = s.op | op::VARIABLE_META_CHARACTERS;
    s.set_meta_char(1, 95);
    s.set_meta_char(5, 37);
    s
}

/// True when this encoding treats POSIX/Unicode word tests as Unicode.
pub fn unicode_word(enc: Encoding, opt: Options) -> (r: bool)
    ensures
        r == (enc.unicode() && !opt.has(Options::word_is_ascii_spec()) && !opt.has(
            Options::posix_is_ascii_spec(),
        )),
{
    enc.is_unicode() && !opt.contains(Options::word_is_ascii()) && !opt.contains(
        Options::posix_is_ascii(),
    )
}

} // verus!
