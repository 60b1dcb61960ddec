//! Character types and Unicode 16.0 properties.

use vstd::prelude::*;
use super::encoding::Encoding;
use super::syntax::Options;
use crate::text::{char_from_u32, is_scalar, str_eq};

verus! {

/// Character type classes used by the pattern syntax.
#[derive(Clone, Copy, Debug, PartialEq, Eq, Structural)]
pub enum Ctype {
    Word,
    Digit,
    Space,
    Xdigit,
    Alnum,
    Alpha,
    Ascii,
    Blank,
    Cntrl,
    Graph,
    Lower,
    Print,
    Punct,
    Upper,
    Hiragana,
    Katakana,
    Newline,
    /// Unicode general category, coarse: C L M N P S Z
    Gc(u8),
}

// ---------------------------------------------------------------------------
// General category
// ---------------------------------------------------------------------------

/// The two-letter general-category abbreviation that the Unicode 16.0 tables
/// of `unicode_general_category` give for `c`.
pub uninterp spec fn general_category_abbrev(c: char) -> Seq<char>;

/// `unicode_general_category::get_general_category(c).abbreviation()`: the
/// general category of `c` as its two-letter abbreviation. The crate's
/// `abbreviation` maps every category to a two-letter string.
#[verifier::external_body]
fn gc_abbreviation(c: char) -> (r: &'static str)
    ensures
        r@ == general_category_abbrev(c),
        r@.len() == 2,
{
    unicode_general_category::get_general_category(c).abbreviation()
}

/// The abbreviation of general-category number `k` (0 = Cn, 1 = Lu, ...,
/// 29 = Co).
pub open spec fn gc_letters(k: u8) -> (char, char) {
    if k == 0 { ('C', 'n') }
    else if k == 1 { ('L', 'u') }
    else if k == 2 { ('L', 'l') }
    else if k == 3 { ('L', 't') }
    else if k == 4 { ('L', 'm') }
    else if k == 5 { ('L', 'o') }
    else if k == 6 { ('M', 'n') }
    else if k == 7 { ('M', 'c') }
    else if k == 8 { ('M', 'e') }
    else if k == 9 { ('N', 'd') }
    else if k == 10 { ('N', 'l') }
    else if k == 11 { ('N', 'o') }
    else if k == 12 { ('P', 'c') }
    else if k == 13 { ('P', 'd') }
    else if k == 14 { ('P', 's') }
    else if k == 15 { ('P', 'e') }
    else if k == 16 { ('P', 'i') }
    else if k == 17 { ('P', 'f') }
    else if k == 18 { ('P', 'o') }
    else if k == 19 { ('S', 'm') }
    else if k == 20 { ('S', 'c') }
    else if k == 21 { ('S', 'k') }
    else if k == 22 { ('S', 'o') }
    else if k == 23 { ('Z', 's') }
    else if k == 24 { ('Z', 'l') }
    else if k == 25 { ('Z', 'p') }
    else if k == 26 { ('C', 'c') }
    else if k == 27 { ('C', 'f') }
    else if k == 28 { ('C', 's') }
    else if k == 29 { ('C', 'o') }
    else { (' ', ' ') }
}

fn gc_pair(k: u8) -> (r: (char, char))
    ensures
        r == gc_letters(k),
{
    if k == 0 { ('C', 'n') }
    else if k == 1 { ('L', 'u') }
    else if k == 2 { ('L', 'l') }
    else if k == 3 { ('L', 't') }
    else if k == 4 { ('L', 'm') }
    else if k == 5 { ('L', 'o') }
    else if k == 6 { ('M', 'n') }
    else if k == 7 { ('M', 'c') }
    else if k == 8 { ('M', 'e') }
    else if k == 9 { ('N', 'd') }
    else if k == 10 { ('N', 'l') }
    else if k == 11 { ('N', 'o') }
    else if k == 12 { ('P', 'c') }
    else if k == 13 { ('P', 'd') }
    else if k == 14 { ('P', 's') }
    else if k == 15 { ('P', 'e') }
    else if k == 16 { ('P', 'i') }
    else if k == 17 { ('P', 'f') }
    else if k == 18 { ('P', 'o') }
    else if k == 19 { ('S', 'm') }
    else if k == 20 { ('S', 'c') }
    else if k == 21 { ('S', 'k') }
    else if k == 22 { ('S', 'o') }
    else if k == 23 { ('Z', 's') }
    else if k == 24 { ('Z', 'l') }
    else if k == 25 { ('Z', 'p') }
    else if k == 26 { ('C', 'c') }
    else if k == 27 { ('C', 'f') }
    else if k == 28 { ('C', 's') }
    else if k == 29 { ('C', 'o') }
    else { (' ', ' ') }
}

/// The category number whose abbreviation is `name`, if any.
pub open spec fn gc_index(name: Seq<char>) -> Option<u8> {
    if name.len() != 2 {
        None
    } else {
        gc_index_of(name[0], name[1], 0)
    }
}

pub open spec fn gc_index_of(a: char, b: char, k: u8) -> Option<u8>
    decreases 30 - k,
{
    if k >= 30 {
        None
    } else if gc_letters(k) == (a, b) {
        Some(k)
    } else {
        gc_index_of(a, b, (k + 1) as u8)
    }
}

fn find_gc(a: char, b: char) -> (r: Option<u8>)
    ensures
        r == gc_index_of(a, b, 0),
{
    let mut k: u8 = 0;
    while k < 30
        invariant
            k <= 30,
            gc_index_of(a, b, 0) == gc_index_of(a, b, k),
        decreases 30 - k,
    {
        let (x, y) = gc_pair(k);
        if x == a && y == b {
            return Some(k);
        }
        k = k + 1;
    }
    None
}

/// General-category number of `cp`: 0 (Cn) for unassigned code points and
/// for values beyond U+10FFFF, 28 (Cs) for surrogates.
pub open spec fn gc_spec(cp: u32) -> u8 {
    if is_scalar(cp) {
        match gc_index(general_category_abbrev(cp as char)) {
            Some(k) => k,
            None => 0,
        }
    } else if 0xD800 <= cp && cp <= 0xDFFF {
        28
    } else {
        0
    }
}

/// General-category number of `cp` (see [`gc_spec`]).
pub fn gc(cp: u32) -> (r: u8)
    ensures
        r == gc_spec(cp),
        r < 30,
{
    match char_from_u32(cp) {
        Some(c) => {
            let s = gc_abbreviation(c);
            let a = s.get_char(0);
            let b = s.get_char(1);
            proof {
                assert(c == cp as char);
                assert(general_category_abbrev(cp as char)[0] == a);
            }
            let k = find_gc(a, b);
            proof {
                lemma_gc_index_bound(a, b, 0);
            }
            match k {
                Some(k) => k,
                None => 0,
            }
        },
        None => {
            if 0xD800 <= cp && cp <= 0xDFFF {
                28
            } else {
                0
            }
        },
    }
}

proof fn lemma_gc_index_bound(a: char, b: char, k: u8)
    ensures
        gc_index_of(a, b, k) matches Some(j) ==> j < 30,
    decreases 30 - k,
{
    if k < 30 && gc_letters(k) != (a, b) {
        lemma_gc_index_bound(a, b, (k + 1) as u8);
    }
}

/// First letter of the general category of `cp`.
pub open spec fn gc_major(cp: u32) -> char {
    gc_letters(gc_spec(cp)).0
}

// ---------------------------------------------------------------------------
// Classifiers
// ---------------------------------------------------------------------------

pub open spec fn ascii_word_spec(cp: u32) -> bool {
    (0x30 <= cp && cp <= 0x39) || (0x41 <= cp && cp <= 0x5a) || (0x61 <= cp && cp <= 0x7a)
        || cp == 0x5f
}

pub fn is_ascii_word(cp: u32) -> (r: bool)
    ensures
        r == ascii_word_spec(cp),
{
    (0x30 <= cp && cp <= 0x39) || (0x41 <= cp && cp <= 0x5a) || (0x61 <= cp && cp <= 0x7a)
        || cp == 0x5f
}

pub fn is_ascii_digit(cp: u32) -> (r: bool)
    ensures
        r == (0x30 <= cp && cp <= 0x39),
{
    0x30 <= cp && cp <= 0x39
}

pub open spec fn ascii_space_spec(cp: u32) -> bool {
    cp == 0x09 || cp == 0x0a || cp == 0x0b || cp == 0x0c || cp == 0x0d || cp == 0x20
}

pub fn is_ascii_space(cp: u32) -> (r: bool)
    ensures
        r == ascii_space_spec(cp),
{
    cp == 0x09 || cp == 0x0a || cp == 0x0b || cp == 0x0c || cp == 0x0d || cp == 0x20
}

pub open spec fn xdigit_spec(cp: u32) -> bool {
    (0x30 <= cp && cp <= 0x39) || (0x41 <= cp && cp <= 0x46) || (0x61 <= cp && cp <= 0x66)
}

pub fn is_xdigit(cp: u32) -> (r: bool)
    ensures
        r == xdigit_spec(cp),
{
    is_ascii_digit(cp) || (0x41 <= cp && cp <= 0x46) || (0x61 <= cp && cp <= 0x66)
}

/// Unicode word: Letter | Mark | Number | Connector_Punctuation.
pub open spec fn unicode_word_spec(cp: u32) -> bool {
    ascii_word_spec(cp) || (1 <= gc_spec(cp) && gc_spec(cp) <= 12)
}

pub fn is_unicode_word(cp: u32) -> (r: bool)
    ensures
        r == unicode_word_spec(cp),
{
    if is_ascii_word(cp) {
        return true;
    }
    let g = gc(cp);
    1 <= g && g <= 12
}

pub open spec fn mark_spec(cp: u32) -> bool {
    6 <= gc_spec(cp) && gc_spec(cp) <= 8
}

fn is_mark(cp: u32) -> (r: bool)
    ensures
        r == mark_spec(cp),
{
    let g = gc(cp);
    6 <= g && g <= 8
}

pub open spec fn unicode_space_spec(cp: u32) -> bool {
    cp == 0x09 || cp == 0x0a || cp == 0x0b || cp == 0x0c || cp == 0x0d || cp == 0x20 || cp == 0x85
        || cp == 0xa0 || cp == 0x1680 || (0x2000 <= cp && cp <= 0x200a) || cp == 0x2028 || cp
        == 0x2029 || cp == 0x202f || cp == 0x205f || cp == 0x3000
}

pub fn is_unicode_space(cp: u32) -> (r: bool)
    ensures
        r == unicode_space_spec(cp),
{
    cp == 0x09 || cp == 0x0a || cp == 0x0b || cp == 0x0c || cp == 0x0d || cp == 0x20 || cp == 0x85
        || cp == 0xa0 || cp == 0x1680 || (0x2000 <= cp && cp <= 0x200a) || cp == 0x2028 || cp
        == 0x2029 || cp == 0x202f || cp == 0x205f || cp == 0x3000
}

/// General category Nd.
pub fn is_decimal_number(cp: u32) -> (r: bool)
    ensures
        r == (gc_spec(cp) == 9),
{
    gc(cp) == 9
}

pub open spec fn hiragana_spec(cp: u32) -> bool {
    (0x3041 <= cp && cp <= 0x3096) || (0x3099 <= cp && cp <= 0x309f) || (0x1b001 <= cp && cp
        <= 0x1b11f)
}

pub fn is_hiragana(cp: u32) -> (r: bool)
    ensures
        r == hiragana_spec(cp),
{
    (0x3041 <= cp && cp <= 0x3096) || (0x3099 <= cp && cp <= 0x309f) || (0x1b001 <= cp && cp
        <= 0x1b11f)
}

pub open spec fn katakana_spec(cp: u32) -> bool {
    (0x30a0 <= cp && cp <= 0x30ff) || (0x31f0 <= cp && cp <= 0x31ff) || (0xff65 <= cp && cp
        <= 0xff9f) || (0x32d0 <= cp && cp <= 0x32fe)
}

pub fn is_katakana(cp: u32) -> (r: bool)
    ensures
        r == katakana_spec(cp),
{
    (0x30a0 <= cp && cp <= 0x30ff) || (0x31f0 <= cp && cp <= 0x31ff) || (0xff65 <= cp && cp
        <= 0xff9f) || (0x32d0 <= cp && cp <= 0x32fe)
}

/// The general category of `cp` starts with the ASCII letter `letter`.
pub fn is_gc(cp: u32, letter: u8) -> (r: bool)
    ensures
        r == (gc_major(cp) == (letter as char)),
{
    let (a, _b) = gc_pair(gc(cp));
    a == (letter as char)
}

fn is_gc_char(cp: u32, letter: char) -> (r: bool)
    ensures
        r == (gc_major(cp) == letter),
{
    let (a, _b) = gc_pair(gc(cp));
    a == letter
}

pub open spec fn ascii_mode(enc: Encoding, opt: Options, what: Options) -> bool {
    opt.has(what) || opt.has(Options::posix_is_ascii_spec()) || !enc.unicode()
}

pub open spec fn word_spec(enc: Encoding, opt: Options, cp: u32) -> bool {
    if ascii_mode(enc, opt, Options::word_is_ascii_spec()) {
        if !enc.unicode() && cp > 0x7f {
            true
        } else {
            ascii_word_spec(cp)
        }
    } else {
        unicode_word_spec(cp)
    }
}

pub fn is_word(enc: Encoding, opt: Options, cp: u32) -> (r: bool)
    ensures
        r == word_spec(enc, opt, cp),
{
    if opt.contains(Options::word_is_ascii()) || opt.contains(Options::posix_is_ascii())
        || !enc.is_unicode() {
        if !enc.is_unicode() && cp > 0x7f {
            return true;
        }
        return is_ascii_word(cp);
    }
    is_unicode_word(cp)
}

pub open spec fn digit_spec(enc: Encoding, opt: Options, cp: u32) -> bool {
    if ascii_mode(enc, opt, Options::digit_is_ascii_spec()) {
        0x30 <= cp && cp <= 0x39
    } else {
        gc_spec(cp) == 9
    }
}

pub fn is_digit(enc: Encoding, opt: Options, cp: u32) -> (r: bool)
    ensures
        r == digit_spec(enc, opt, cp),
{
    if opt.contains(Options::digit_is_ascii()) || opt.contains(Options::posix_is_ascii())
        || !enc.is_unicode() {
        return is_ascii_digit(cp);
    }
    is_decimal_number(cp)
}

pub open spec fn space_spec(enc: Encoding, opt: Options, cp: u32) -> bool {
    if ascii_mode(enc, opt, Options::space_is_ascii_spec()) {
        ascii_space_spec(cp)
    } else {
        unicode_space_spec(cp)
    }
}

pub fn is_space(enc: Encoding, opt: Options, cp: u32) -> (r: bool)
    ensures
        r == space_spec(enc, opt, cp),
{
    if opt.contains(Options::space_is_ascii()) || opt.contains(Options::posix_is_ascii())
        || !enc.is_unicode() {
        return is_ascii_space(cp);
    }
    is_unicode_space(cp)
}

// ---------------------------------------------------------------------------
// std's Unicode character predicates
// ---------------------------------------------------------------------------

/// What `char::is_alphabetic` answers for `c`.
pub uninterp spec fn std_alphabetic(c: char) -> bool;

/// What `char::is_lowercase` answers for `c`.
pub uninterp spec fn std_lowercase(c: char) -> bool;

/// What `char::is_uppercase` answers for `c`.
pub uninterp spec fn std_uppercase(c: char) -> bool;

/// `char::is_alphabetic` from std (Unicode `Alphabetic` property).
#[verifier::external_body]
fn char_is_alphabetic(c: char) -> (r: bool)
    ensures
        r == std_alphabetic(c),
{
    c.is_alphabetic()
}

/// `char::is_lowercase` from std (Unicode `Lowercase` property).
#[verifier::external_body]
fn char_is_lowercase(c: char) -> (r: bool)
    ensures
        r == std_lowercase(c),
{
    c.is_lowercase()
}

/// `char::is_uppercase` from std (Unicode `Uppercase` property).
#[verifier::external_body]
fn char_is_uppercase(c: char) -> (r: bool)
    ensures
        r == std_uppercase(c),
{
    c.is_uppercase()
}

pub open spec fn alphabetic_cp(cp: u32) -> bool {
    is_scalar(cp) && std_alphabetic(cp as char)
}

fn cp_alphabetic(cp: u32) -> (r: bool)
    ensures
        r == alphabetic_cp(cp),
{
    match char_from_u32(cp) {
        Some(c) => {
            proof { assert(c == cp as char); }
            char_is_alphabetic(c)
        },
        None => false,
    }
}

fn cp_lowercase(cp: u32) -> (r: bool)
    ensures
        r == (is_scalar(cp) && std_lowercase(cp as char)),
{
    match char_from_u32(cp) {
        Some(c) => {
            proof { assert(c == cp as char); }
            char_is_lowercase(c)
        },
        None => false,
    }
}

fn cp_uppercase(cp: u32) -> (r: bool)
    ensures
        r == (is_scalar(cp) && std_uppercase(cp as char)),
{
    match char_from_u32(cp) {
        Some(c) => {
            proof { assert(c == cp as char); }
            char_is_uppercase(c)
        },
        None => false,
    }
}

// ---------------------------------------------------------------------------
// POSIX brackets
// ---------------------------------------------------------------------------

pub open spec fn posix_ascii(enc: Encoding, opt: Options) -> bool {
    opt.has(Options::posix_is_ascii_spec()) || !enc.unicode()
}

pub open spec fn cntrl_spec(ascii: bool, cp: u32) -> bool {
    if ascii {
        cp <= 0x1f || cp == 0x7f
    } else {
        cp <= 0x1f || (0x7f <= cp && cp <= 0x9f)
    }
}

pub open spec fn graph_spec(ascii: bool, cp: u32) -> bool {
    if ascii {
        0x21 <= cp && cp <= 0x7e
    } else {
        !unicode_space_spec(cp) && !cntrl_spec(ascii, cp)
    }
}

fn cntrl(ascii: bool, cp: u32) -> (r: bool)
    ensures
        r == cntrl_spec(ascii, cp),
{
    if ascii {
        cp <= 0x1f || cp == 0x7f
    } else {
        cp <= 0x1f || (0x7f <= cp && cp <= 0x9f)
    }
}

fn graph(ascii: bool, cp: u32) -> (r: bool)
    ensures
        r == graph_spec(ascii, cp),
{
    if ascii {
        0x21 <= cp && cp <= 0x7e
    } else {
        !is_unicode_space(cp) && !cntrl(ascii, cp)
    }
}

/// Membership of `cp` in the POSIX bracket class `name` (`[:name:]`); an
/// unknown name matches nothing.
pub open spec fn posix_spec(name: Seq<char>, enc: Encoding, opt: Options, cp: u32) -> bool {
    let ascii = posix_ascii(enc, opt);
    if name == "alnum"@ {
        if ascii { ascii_word_spec(cp) && cp != 0x5f } else { alphabetic_cp(cp) || gc_spec(cp) == 9 }
    }
    else if name == "alpha"@ {
        if ascii { (0x41 <= cp && cp <= 0x5a) || (0x61 <= cp && cp <= 0x7a) } else { alphabetic_cp(cp) }
    }
    else if name == "ascii"@ {
        cp <= 0x7f
    }
    else if name == "blank"@ {
        cp == 0x09 || cp == 0x20 || (!ascii && ((0x2000 <= cp && cp <= 0x200a) || cp == 0x3000 || cp == 0xa0))
    }
    else if name == "cntrl"@ {
        cntrl_spec(ascii, cp)
    }
    else if name == "digit"@ {
        digit_spec(enc, opt, cp)
    }
    else if name == "graph"@ {
        graph_spec(ascii, cp)
    }
    else if name == "lower"@ {
        if ascii { 0x61 <= cp && cp <= 0x7a } else { is_scalar(cp) && std_lowercase(cp as char) }
    }
    else if name == "print"@ {
        graph_spec(ascii, cp) || space_spec(enc, opt, cp)
    }
    else if name == "punct"@ {
        if ascii { (0x21 <= cp && cp <= 0x2f) || (0x3a <= cp && cp <= 0x40) || (0x5b <= cp && cp <= 0x60) || (0x7b <= cp && cp <= 0x7e) } else { gc_major(cp) == 'P' || gc_major(cp) == 'S' }
    }
    else if name == "space"@ {
        space_spec(enc, opt, cp)
    }
    else if name == "upper"@ {
        if ascii { 0x41 <= cp && cp <= 0x5a } else { is_scalar(cp) && std_uppercase(cp as char) }
    }
    else if name == "xdigit"@ {
        xdigit_spec(cp)
    }
    else if name == "word"@ {
        word_spec(enc, opt, cp)
    }
    else if name == "hiragana"@ {
        hiragana_spec(cp)
    }
    else if name == "katakana"@ {
        katakana_spec(cp)
    }
    else {
        false
    }
}

/// Membership of `cp` in the POSIX bracket class `name`.
pub fn posix(name: &str, enc: Encoding, opt: Options, cp: u32) -> (r: bool)
    ensures
        r == posix_spec(name@, enc, opt, cp),
{
    let ascii = opt.contains(Options::posix_is_ascii()) || !enc.is_unicode();
    if str_eq(name, "alnum") {
        if ascii { is_ascii_word(cp) && cp != 0x5f } else { cp_alphabetic(cp) || is_decimal_number(cp) }
    }
    else if str_eq(name, "alpha") {
        if ascii { (0x41 <= cp && cp <= 0x5a) || (0x61 <= cp && cp <= 0x7a) } else { cp_alphabetic(cp) }
    }
    else if str_eq(name, "ascii") {
        cp <= 0x7f
    }
    else if str_eq(name, "blank") {
        cp == 0x09 || cp == 0x20 || (!ascii && ((0x2000 <= cp && cp <= 0x200a) || cp == 0x3000 || cp == 0xa0))
    }
    else if str_eq(name, "cntrl") {
        cntrl(ascii, cp)
    }
    else if str_eq(name, "digit") {
        is_digit(enc, opt, cp)
    }
    else if str_eq(name, "graph") {
        graph(ascii, cp)
    }
    else if str_eq(name, "lower") {
        if ascii { 0x61 <= cp && cp <= 0x7a } else { cp_lowercase(cp) }
    }
    else if str_eq(name, "print") {
        graph(ascii, cp) || is_space(enc, opt, cp)
    }
    else if str_eq(name, "punct") {
        if ascii { (0x21 <= cp && cp <= 0x2f) || (0x3a <= cp && cp <= 0x40) || (0x5b <= cp && cp <= 0x60) || (0x7b <= cp && cp <= 0x7e) } else { is_gc_char(cp, 'P') || is_gc_char(cp, 'S') }
    }
    else if str_eq(name, "space") {
        is_space(enc, opt, cp)
    }
    else if str_eq(name, "upper") {
        if ascii { 0x41 <= cp && cp <= 0x5a } else { cp_uppercase(cp) }
    }
    else if str_eq(name, "xdigit") {
        is_xdigit(cp)
    }
    else if str_eq(name, "word") {
        is_word(enc, opt, cp)
    }
    else if str_eq(name, "hiragana") {
        is_hiragana(cp)
    }
    else if str_eq(name, "katakana") {
        is_katakana(cp)
    }
    else {
        false
    }
}

pub open spec fn latin_spec(cp: u32) -> bool {
    (0x0041 <= cp && cp <= 0x005a) || (0x0061 <= cp && cp <= 0x007a) || (0x00c0 <= cp && cp
        <= 0x00d6) || (0x00d8 <= cp && cp <= 0x00f6) || (0x00f8 <= cp && cp <= 0x024f) || (0x1e00
        <= cp && cp <= 0x1eff) || (0x2c60 <= cp && cp <= 0x2c7f) || (0xa720 <= cp && cp <= 0xa7ff)
        || (0xab30 <= cp && cp <= 0xab6f)
}

fn is_latin(cp: u32) -> (r: bool)
    ensures
        r == latin_spec(cp),
{
    (0x0041 <= cp && cp <= 0x005a) || (0x0061 <= cp && cp <= 0x007a) || (0x00c0 <= cp && cp
        <= 0x00d6) || (0x00d8 <= cp && cp <= 0x00f6) || (0x00f8 <= cp && cp <= 0x024f) || (0x1e00
        <= cp && cp <= 0x1eff) || (0x2c60 <= cp && cp <= 0x2c7f) || (0xa720 <= cp && cp <= 0xa7ff)
        || (0xab30 <= cp && cp <= 0xab6f)
}

/// Membership of `cp` in the named property `\p{name}`: a one-letter name is
/// a major general category, a two-letter category abbreviation is that exact
/// category, then the named properties and scripts, else a POSIX class name.
pub open spec fn property_spec(name: Seq<char>, enc: Encoding, opt: Options, cp: u32) -> bool {
    if name.len() == 1 {
        gc_major(cp) == name[0]
    } else if name.len() == 2 && gc_index(name) is Some {
        gc_spec(cp) == gc_index(name)->Some_0
    }
    else if name == "Alnum"@ || name == "alnum"@ {
        posix_spec("alnum"@, enc, opt, cp)
    }
    else if name == "Alpha"@ || name == "alpha"@ {
        posix_spec("alpha"@, enc, opt, cp)
    }
    else if name == "Blank"@ || name == "blank"@ {
        posix_spec("blank"@, enc, opt, cp)
    }
    else if name == "Cntrl"@ || name == "cntrl"@ {
        posix_spec("cntrl"@, enc, opt, cp)
    }
    else if name == "Digit"@ || name == "digit"@ {
        posix_spec("digit"@, enc, opt, cp)
    }
    else if name == "Graph"@ || name == "graph"@ {
        posix_spec("graph"@, enc, opt, cp)
    }
    else if name == "Lower"@ || name == "lower"@ {
        posix_spec("lower"@, enc, opt, cp)
    }
    else if name == "Print"@ || name == "print"@ {
        posix_spec("print"@, enc, opt, cp)
    }
    else if name == "Punct"@ || name == "punct"@ {
        posix_spec("punct"@, enc, opt, cp)
    }
    else if name == "Space"@ || name == "space"@ {
        posix_spec("space"@, enc, opt, cp)
    }
    else if name == "Upper"@ || name == "upper"@ {
        posix_spec("upper"@, enc, opt, cp)
    }
    else if name == "XDigit"@ || name == "xdigit"@ {
        posix_spec("xdigit"@, enc, opt, cp)
    }
    else if name == "Word"@ || name == "word"@ {
        posix_spec("word"@, enc, opt, cp)
    }
    else if name == "ASCII"@ || name == "ascii"@ {
        posix_spec("ascii"@, enc, opt, cp)
    }
    else if name == "Hiragana"@ || name == "hiragana"@ || name == "Hira"@ {
        hiragana_spec(cp)
    }
    else if name == "Katakana"@ || name == "katakana"@ || name == "Kana"@ {
        katakana_spec(cp)
    }
    else if name == "Letter"@ {
        gc_major(cp) == 'L'
    }
    else if name == "Mark"@ {
        gc_major(cp) == 'M'
    }
    else if name == "Number"@ {
        gc_major(cp) == 'N'
    }
    else if name == "Punctuation"@ {
        gc_major(cp) == 'P'
    }
    else if name == "Symbol"@ {
        gc_major(cp) == 'S'
    }
    else if name == "Separator"@ {
        gc_major(cp) == 'Z'
    }
    else if name == "Other"@ {
        gc_major(cp) == 'C'
    }
    else if name == "Any"@ {
        true
    }
    else if name == "Assigned"@ {
        gc_spec(cp) != 0
    }
    else if name == "Latin"@ || name == "Latn"@ {
        latin_spec(cp)
    }
    else if name == "Greek"@ || name == "Grek"@ {
        (0x0370 <= cp && cp <= 0x03ff) || (0x1f00 <= cp && cp <= 0x1fff)
    }
    else if name == "Cyrillic"@ || name == "Cyrl"@ {
        (0x0400 <= cp && cp <= 0x04ff) || (0x0500 <= cp && cp <= 0x052f) || (0x2de0 <= cp && cp <= 0x2dff) || (0xa640 <= cp && cp <= 0xa69f)
    }
    else if name == "Han"@ || name == "Hani"@ {
        (0x3400 <= cp && cp <= 0x4dbf) || (0x4e00 <= cp && cp <= 0x9fff) || (0xf900 <= cp && cp <= 0xfaff) || (0x20000 <= cp && cp <= 0x2a6df)
    }
    else if name == "Hangul"@ || name == "Hang"@ {
        (0x1100 <= cp && cp <= 0x11ff) || (0x3130 <= cp && cp <= 0x318f) || (0xac00 <= cp && cp <= 0xd7af)
    }
    else if name == "Common"@ || name == "Zyyy"@ {
        !latin_spec(cp) && !hiragana_spec(cp) && !katakana_spec(cp)
    }
    else {
        posix_spec(name, enc, opt, cp)
    }
}

/// Membership of `cp` in the named property `\p{name}`.
pub fn property(name: &str, enc: Encoding, opt: Options, cp: u32) -> (r: bool)
    ensures
        r == property_spec(name@, enc, opt, cp),
{
    let n = name.unicode_len();
    if n == 1 {
        return is_gc_char(cp, name.get_char(0));
    }
    if n == 2 {
        let a = name.get_char(0);
        let b = name.get_char(1);
        proof {
            assert(name@ =~= seq![a, b]);
        }
        match find_gc(a, b) {
            Some(k) => {
                return gc(cp) == k;
            },
            None => {},
        }
    }
    if str_eq(name, "Alnum") || str_eq(name, "alnum") {
        posix("alnum", enc, opt, cp)
    }
    else if str_eq(name, "Alpha") || str_eq(name, "alpha") {
        posix("alpha", enc, opt, cp)
    }
    else if str_eq(name, "Blank") || str_eq(name, "blank") {
        posix("blank", enc, opt, cp)
    }
    else if str_eq(name, "Cntrl") || str_eq(name, "cntrl") {
        posix("cntrl", enc, opt, cp)
    }
    else if str_eq(name, "Digit") || str_eq(name, "digit") {
        posix("digit", enc, opt, cp)
    }
    else if str_eq(name, "Graph") || str_eq(name, "graph") {
        posix("graph", enc, opt, cp)
    }
    else if str_eq(name, "Lower") || str_eq(name, "lower") {
        posix("lower", enc, opt, cp)
    }
    else if str_eq(name, "Print") || str_eq(name, "print") {
        posix("print", enc, opt, cp)
    }
    else if str_eq(name, "Punct") || str_eq(name, "punct") {
        posix("punct", enc, opt, cp)
    }
    else if str_eq(name, "Space") || str_eq(name, "space") {
        posix("space", enc, opt, cp)
    }
    else if str_eq(name, "Upper") || str_eq(name, "upper") {
        posix("upper", enc, opt, cp)
    }
    else if str_eq(name, "XDigit") || str_eq(name, "xdigit") {
        posix("xdigit", enc, opt, cp)
    }
    else if str_eq(name, "Word") || str_eq(name, "word") {
        posix("word", enc, opt, cp)
    }
    else if str_eq(name, "ASCII") || str_eq(name, "ascii") {
        posix("ascii", enc, opt, cp)
    }
    else if str_eq(name, "Hiragana") || str_eq(name, "hiragana") || str_eq(name, "Hira") {
        is_hiragana(cp)
    }
    else if str_eq(name, "Katakana") || str_eq(name, "katakana") || str_eq(name, "Kana") {
        is_katakana(cp)
    }
    else if str_eq(name, "Letter") {
        is_gc_char(cp, 'L')
    }
    else if str_eq(name, "Mark") {
        is_gc_char(cp, 'M')
    }
    else if str_eq(name, "Number") {
        is_gc_char(cp, 'N')
    }
    else if str_eq(name, "Punctuation") {
        is_gc_char(cp, 'P')
    }
    else if str_eq(name, "Symbol") {
        is_gc_char(cp, 'S')
    }
    else if str_eq(name, "Separator") {
        is_gc_char(cp, 'Z')
    }
    else if str_eq(name, "Other") {
        is_gc_char(cp, 'C')
    }
    else if str_eq(name, "Any") {
        true
    }
    else if str_eq(name, "Assigned") {
        gc(cp) != 0
    }
    else if str_eq(name, "Latin") || str_eq(name, "Latn") {
        is_latin(cp)
    }
    else if str_eq(name, "Greek") || str_eq(name, "Grek") {
        (0x0370 <= cp && cp <= 0x03ff) || (0x1f00 <= cp && cp <= 0x1fff)
    }
    else if str_eq(name, "Cyrillic") || str_eq(name, "Cyrl") {
        (0x0400 <= cp && cp <= 0x04ff) || (0x0500 <= cp && cp <= 0x052f) || (0x2de0 <= cp && cp <= 0x2dff) || (0xa640 <= cp && cp <= 0xa69f)
    }
    else if str_eq(name, "Han") || str_eq(name, "Hani") {
        (0x3400 <= cp && cp <= 0x4dbf) || (0x4e00 <= cp && cp <= 0x9fff) || (0xf900 <= cp && cp <= 0xfaff) || (0x20000 <= cp && cp <= 0x2a6df)
    }
    else if str_eq(name, "Hangul") || str_eq(name, "Hang") {
        (0x1100 <= cp && cp <= 0x11ff) || (0x3130 <= cp && cp <= 0x318f) || (0xac00 <= cp && cp <= 0xd7af)
    }
    else if str_eq(name, "Common") || str_eq(name, "Zyyy") {
        !is_latin(cp) && !is_hiragana(cp) && !is_katakana(cp)
    }
    else {
        posix(name, enc, opt, cp)
    }
}

/// Extended grapheme cluster boundary (UAX #29 subset): break everywhere
/// except inside CR LF, before a mark, and between Hangul jamo.
pub open spec fn grapheme_break_spec(prev: Option<u32>, cur: u32) -> bool {
    match prev {
        None => true,
        Some(p) => if p == 0x0d && cur == 0x0a {
            false
        } else if cur == 0x0a || cur == 0x0d {
            true
        } else if mark_spec(cur) {
            false
        } else if 0x1100 <= p && p <= 0x11ff && 0x1100 <= cur && cur <= 0x11ff {
            false
        } else {
            true
        },
    }
}

pub fn grapheme_break(prev: Option<u32>, cur: u32) -> (r: bool)
    ensures
        r == grapheme_break_spec(prev, cur),
{
    match prev {
        None => true,
        Some(p) => if p == 0x0d && cur == 0x0a {
            false
        } else if cur == 0x0a || cur == 0x0d {
            true
        } else if is_mark(cur) {
            false
        } else if 0x1100 <= p && p <= 0x11ff && 0x1100 <= cur && cur <= 0x11ff {
            false
        } else {
            true
        },
    }
}

/// User-defined Unicode property: name -> inclusive ranges.
#[derive(Clone, Debug)]
pub struct UserProperty {
    pub name: String,
    pub ranges: Vec<(u32, u32)>,
}

impl UserProperty {
    /// Some range holds `cp`.
    pub open spec fn holds(self, cp: u32) -> bool {
        exists|i: int| 0 <= i < self.ranges@.len() && (#[trigger] self.ranges@[i]).0 <= cp <= self.ranges@[i].1
    }

    pub fn contains(&self, cp: u32) -> (r: bool)
        ensures
            r == self.holds(cp),
    {
        let mut i: usize = 0;
        while i < self.ranges.len()
            invariant
                i <= self.ranges@.len(),
                forall|j: int| 0 <= j < i ==> !((#[trigger] self.ranges@[j]).0 <= cp <= self.ranges@[j].1),
            decreases self.ranges@.len() - i,
        {
            let (a, b) = self.ranges[i];
            if a <= cp && cp <= b {
                return true;
            }
            i = i + 1;
        }
        false
    }
}

} // verus!
