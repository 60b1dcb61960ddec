//! The integer ids and result codes of the Oniguruma-shaped C interface, and
//! the mapping from ids to encodings and syntaxes. The `extern "C"` entry
//! points themselves handle raw pointers and live with the application.

use vstd::prelude::*;
use super::encoding::Encoding;
use super::syntax::Syntax;

verus! {

pub const ONIG_NORMAL: i32 = 0;
pub const ONIG_MISMATCH: i32 = -1;
pub const ONIGERR_INVALID_ARGUMENT: i32 = -6;
pub const ONIGERR_MEMORY: i32 = -5;
pub const ONIGERR_COMPILE: i32 = -100;

pub const ONIG_ENCODING_ASCII: u32 = 1;
pub const ONIG_ENCODING_UTF8: u32 = 2;
pub const ONIG_ENCODING_UTF16_BE: u32 = 3;
pub const ONIG_ENCODING_UTF16_LE: u32 = 4;
pub const ONIG_ENCODING_UTF32_BE: u32 = 5;
pub const ONIG_ENCODING_UTF32_LE: u32 = 6;
pub const ONIG_ENCODING_ISO_8859_1: u32 = 7;
pub const ONIG_ENCODING_EUC_JP: u32 = 8;
pub const ONIG_ENCODING_SJIS: u32 = 9;
pub const ONIG_ENCODING_BIG5: u32 = 10;
pub const ONIG_ENCODING_GB18030: u32 = 11;
pub const ONIG_ENCODING_KOI8_R: u32 = 12;
pub const ONIG_ENCODING_CP1251: u32 = 13;

pub const ONIG_SYNTAX_ONIGURUMA: u32 = 0;
pub const ONIG_SYNTAX_POSIX_BASIC: u32 = 1;
pub const ONIG_SYNTAX_POSIX_EXTENDED: u32 = 2;
pub const ONIG_SYNTAX_PERL: u32 = 3;
pub const ONIG_SYNTAX_PERL_NG: u32 = 4;
pub const ONIG_SYNTAX_JAVA: u32 = 5;
pub const ONIG_SYNTAX_PYTHON: u32 = 6;
pub const ONIG_SYNTAX_GNU_REGEX: u32 = 7;
pub const ONIG_SYNTAX_EMACS: u32 = 8;
pub const ONIG_SYNTAX_GREP: u32 = 9;
pub const ONIG_SYNTAX_ASIS: u32 = 10;

/// The encoding an id names. The multi-byte East Asian encodings and the
/// Cyrillic single-byte tables (ids `EUC_JP` through `CP1251`) are not
/// provided, so their ids name none; every unknown id means UTF-8.
pub fn enc_from_id(id: u32) -> (r: Option<Encoding>)
    ensures
        id == ONIG_ENCODING_ASCII ==> r == Some(Encoding::ASCII),
        id == ONIG_ENCODING_UTF16_BE ==> r == Some(Encoding::UTF16_BE),
        id == ONIG_ENCODING_UTF16_LE ==> r == Some(Encoding::UTF16_LE),
        id == ONIG_ENCODING_UTF32_BE ==> r == Some(Encoding::UTF32_BE),
        id == ONIG_ENCODING_UTF32_LE ==> r == Some(Encoding::UTF32_LE),
        id == ONIG_ENCODING_ISO_8859_1 ==> r == Some(Encoding::ISO_8859_1),
        ONIG_ENCODING_EUC_JP <= id <= ONIG_ENCODING_CP1251 ==> r is None,
        (id == ONIG_ENCODING_UTF8 || id < ONIG_ENCODING_ASCII || id > ONIG_ENCODING_CP1251)
            ==> r == Some(Encoding::UTF8),
{
    if id == ONIG_ENCODING_ASCII {
        Some(Encoding::ASCII)
    } else if id == ONIG_ENCODING_UTF16_BE {
        Some(Encoding::UTF16_BE)
    } else if id == ONIG_ENCODING_UTF16_LE {
        Some(Encoding::UTF16_LE)
    } else if id == ONIG_ENCODING_UTF32_BE {
        Some(Encoding::UTF32_BE)
    } else if id == ONIG_ENCODING_UTF32_LE {
        Some(Encoding::UTF32_LE)
    } else if id == ONIG_ENCODING_ISO_8859_1 {
        Some(Encoding::ISO_8859_1)
    } else if ONIG_ENCODING_EUC_JP <= id && id <= ONIG_ENCODING_CP1251 {
        None
    } else {
        Some(Encoding::UTF8)
    }
}

/// The syntax an id names; every unknown id means Oniguruma's own.
pub fn syntax_from_id(id: u32) -> (r: Syntax)
    ensures
        id == ONIG_SYNTAX_POSIX_BASIC ==> r == Syntax::posix_basic_spec(),
        id == ONIG_SYNTAX_POSIX_EXTENDED ==> r == Syntax::posix_extended_spec(),
        id == ONIG_SYNTAX_PERL ==> r == Syntax::perl_spec(),
        id == ONIG_SYNTAX_PERL_NG ==> r == Syntax::perl_ng_spec(),
        id == ONIG_SYNTAX_JAVA ==> r == Syntax::java_spec(),
        id == ONIG_SYNTAX_PYTHON ==> r == Syntax::python_spec(),
        id == ONIG_SYNTAX_GNU_REGEX ==> r == Syntax::gnu_regex_spec(),
        id == ONIG_SYNTAX_EMACS ==> r == Syntax::emacs_spec(),
        id == ONIG_SYNTAX_GREP ==> r == Syntax::grep_spec(),
        id == ONIG_SYNTAX_ASIS ==> r == Syntax::asis_spec(),
        (id == ONIG_SYNTAX_ONIGURUMA || id > ONIG_SYNTAX_ASIS) ==> r == Syntax::oniguruma_spec(),
{
    if id == ONIG_SYNTAX_POSIX_BASIC {
        Syntax::posix_basic()
    } else if id == ONIG_SYNTAX_POSIX_EXTENDED {
        Syntax::posix_extended()
    } else if id == ONIG_SYNTAX_PERL {
        Syntax::perl()
    } else if id == ONIG_SYNTAX_PERL_NG {
        Syntax::perl_ng()
    } else if id == ONIG_SYNTAX_JAVA {
        Syntax::java()
    } else if id == ONIG_SYNTAX_PYTHON {
        Syntax::python()
    } else if id == ONIG_SYNTAX_GNU_REGEX {
        Syntax::gnu_regex()
    } else if id == ONIG_SYNTAX_EMACS {
        Syntax::emacs()
    } else if id == ONIG_SYNTAX_GREP {
        Syntax::grep()
    } else if id == ONIG_SYNTAX_ASIS {
        Syntax::asis()
    } else {
        Syntax::oniguruma()
    }
}

} // verus!
