//! Character-class membership and case folding, shared by the VM and the
//! compile-time prefilters so the two can never disagree.

use vstd::prelude::*;
use super::super::ast::{same_class, same_item, same_items, CharClass, ClassItem};
use super::super::encoding::Encoding;
use super::super::syntax::Options;
use super::super::unicode::{self, UserProperty};
use crate::text::{char_from_u32, is_scalar, str_eq};

verus! {

/// The first two characters `char::to_lowercase` yields for `c`.
pub uninterp spec fn std_lower_two(c: char) -> (Option<char>, Option<char>);

/// The first two characters `char::to_uppercase` yields for `c`.
pub uninterp spec fn std_upper_two(c: char) -> (Option<char>, Option<char>);

/// `char::to_lowercase` from std: the first two characters of the mapping
/// (the mapping has one character for most letters and up to three).
#[verifier::external_body]
fn char_to_lowercase(c: char) -> (r: (Option<char>, Option<char>))
    ensures
        r == std_lower_two(c),
{
    let mut it = c.to_lowercase();
    let a = it.next();
    let b = it.next();
    (a, b)
}

/// `char::to_uppercase` from std: the first two characters of the mapping.
#[verifier::external_body]
fn char_to_uppercase(c: char) -> (r: (Option<char>, Option<char>))
    ensures
        r == std_upper_two(c),
{
    let mut it = c.to_uppercase();
    let a = it.next();
    let b = it.next();
    (a, b)
}

/// ASCII lower case of a code point below 0x80.
pub open spec fn ascii_lower(cp: u32) -> u32 {
    if 0x41 <= cp <= 0x5a { (cp + 32) as u32 } else { cp }
}

/// ASCII upper case of a code point below 0x80.
pub open spec fn ascii_upper(cp: u32) -> u32 {
    if 0x61 <= cp <= 0x7a { (cp - 32) as u32 } else { cp }
}

/// The one-character result of a std case mapping, if it is one character.
pub open spec fn single(m: (Option<char>, Option<char>), cp: u32) -> u32 {
    match m {
        (Some(one), None) => one as u32,
        _ => cp,
    }
}

/// Simple case fold: ASCII lower case below 0x80; above, std's lower case
/// when it is a single character (and not when `ascii_only`).
pub open spec fn fold_spec(cp: u32, ascii_only: bool) -> u32 {
    if cp < 0x80 {
        ascii_lower(cp)
    } else if ascii_only || !is_scalar(cp) {
        cp
    } else {
        single(std_lower_two(cp as char), cp)
    }
}

/// Upper-case counterpart, for range membership under IGNORECASE.
pub open spec fn unfold_spec(cp: u32) -> u32 {
    if cp < 0x80 {
        ascii_upper(cp)
    } else if !is_scalar(cp) {
        cp
    } else {
        single(std_upper_two(cp as char), cp)
    }
}

pub fn fold_cp(cp: u32, ascii_only: bool) -> (r: u32)
    ensures
        r == fold_spec(cp, ascii_only),
{
    if cp < 0x80 {
        return if 0x41 <= cp && cp <= 0x5a { cp + 32 } else { cp };
    }
    if ascii_only {
        return cp;
    }
    match char_from_u32(cp) {
        Some(c) => match char_to_lowercase(c) {
            (Some(one), None) => one as u32,
            _ => cp,
        },
        None => cp,
    }
}

pub fn unfold_up(cp: u32) -> (r: u32)
    ensures
        r == unfold_spec(cp),
{
    if cp < 0x80 {
        return if 0x61 <= cp && cp <= 0x7a { cp - 32 } else { cp };
    }
    match char_from_u32(cp) {
        Some(c) => match char_to_uppercase(c) {
            (Some(one), None) => one as u32,
            _ => cp,
        },
        None => cp,
    }
}

/// Equal, or equal after case folding.
pub fn fold_eq(a: u32, b: u32, ascii_only: bool) -> (r: bool)
    ensures
        r == (a == b || fold_spec(a, ascii_only) == fold_spec(b, ascii_only)),
{
    a == b || fold_cp(a, ascii_only) == fold_cp(b, ascii_only)
}

/// The property value that the user-defined properties give `cp` for
/// `name` among the first `n`, the last one named so winning.
pub open spec fn user_override(props: Seq<UserProperty>, name: Seq<char>, cp: u32, n: int) -> Option<
    bool,
>
    decreases n,
{
    if n <= 0 || n > props.len() {
        None
    } else if props[n - 1].name@ == name {
        Some(props[n - 1].holds(cp))
    } else {
        user_override(props, name, cp, n - 1)
    }
}

/// The characters with the Unicode White_Space property: CHARACTER
/// TABULATION through CARRIAGE RETURN, SPACE, NEXT LINE, NO-BREAK SPACE,
/// OGHAM SPACE MARK, EN QUAD through HAIR SPACE, LINE SEPARATOR, PARAGRAPH
/// SEPARATOR, NARROW NO-BREAK SPACE, MEDIUM MATHEMATICAL SPACE and
/// IDEOGRAPHIC SPACE.
pub open spec fn white_space_chars() -> Set<u32> {
    set![
        0x0009u32, 0x000a, 0x000b, 0x000c, 0x000d, 0x0020, 0x0085, 0x00a0, 0x1680, 0x2000, 0x2001,
        0x2002, 0x2003, 0x2004, 0x2005, 0x2006, 0x2007, 0x2008, 0x2009, 0x200a, 0x2028, 0x2029,
        0x202f, 0x205f, 0x3000,
    ]
}

/// The ASCII white space: CHARACTER TABULATION, LINE FEED, LINE
/// TABULATION, FORM FEED, CARRIAGE RETURN and SPACE.
pub open spec fn ascii_white_space_chars() -> Set<u32> {
    set![0x0009u32, 0x000a, 0x000b, 0x000c, 0x000d, 0x0020]
}

/// `\s` matches exactly the white space, and `\S` exactly the rest: in a
/// Unicode encoding where no option narrows it to ASCII, the Unicode
/// White_Space characters; otherwise the ASCII white space.
pub proof fn space_class_is_white_space(
    enc: Encoding,
    opt: Options,
    props: Seq<UserProperty>,
    cp: u32,
)
    ensures
        enc.unicode() && !opt.has(Options::space_is_ascii_spec()) && !opt.has(
            Options::posix_is_ascii_spec(),
        ) ==> (item_spec(ClassItem::Space { neg: false }, cp, enc, opt, props)
            <==> white_space_chars().contains(cp)),
        !(enc.unicode() && !opt.has(Options::space_is_ascii_spec()) && !opt.has(
            Options::posix_is_ascii_spec(),
        )) ==> (item_spec(ClassItem::Space { neg: false }, cp, enc, opt, props)
            <==> ascii_white_space_chars().contains(cp)),
        item_spec(ClassItem::Space { neg: true }, cp, enc, opt, props) == !item_spec(
            ClassItem::Space { neg: false },
            cp,
            enc,
            opt,
            props,
        ),
{
    if 0x2000 <= cp <= 0x200a {
        assert(white_space_chars().contains(cp)) by {
            assert(cp == 0x2000 || cp == 0x2001 || cp == 0x2002 || cp == 0x2003 || cp == 0x2004
                || cp == 0x2005 || cp == 0x2006 || cp == 0x2007 || cp == 0x2008 || cp == 0x2009
                || cp == 0x200a);
        }
    }
}

/// Does the class item hold `cp`?
pub open spec fn item_spec(
    item: ClassItem,
    cp: u32,
    enc: Encoding,
    opt: Options,
    props: Seq<UserProperty>,
) -> bool
    decreases item, 0int,
{
    let icase = opt.has(Options::ignorecase_spec());
    let ascii = opt.has(Options::ignorecase_is_ascii_spec());
    match item {
        ClassItem::Char(c) => c == cp || (icase && fold_spec(c, ascii) == fold_spec(cp, ascii)),
        ClassItem::Range(a, b) => (a <= cp <= b) || (icase && ((a <= fold_spec(cp, ascii) <= b)
            || (a <= unfold_spec(cp) <= b))),
        ClassItem::Posix { name, neg } => unicode::posix_spec(name@, enc, opt, cp) != neg,
        ClassItem::Prop { name, neg } => (match user_override(props, name@, cp, props.len() as int) {
            Some(h) => h,
            None => unicode::property_spec(name@, enc, opt, cp),
        }) != neg,
        ClassItem::Word { neg } => unicode::word_spec(enc, opt, cp) != neg,
        ClassItem::Digit { neg } => unicode::digit_spec(enc, opt, cp) != neg,
        ClassItem::Space { neg } => unicode::space_spec(enc, opt, cp) != neg,
        ClassItem::Xdigit { neg } => unicode::xdigit_spec(cp) != neg,
        ClassItem::Nested(cc) => class_spec(cc, cp, enc, opt, props),
        ClassItem::Intersect(_) => false,
    }
}

/// Membership after the first `n` items: any item holds, except that an
/// intersection ands what came before with the items it holds.
pub open spec fn items_spec(
    items: Seq<ClassItem>,
    n: int,
    cp: u32,
    enc: Encoding,
    opt: Options,
    props: Seq<UserProperty>,
) -> bool
    decreases items, n,
{
    if n <= 0 || n > items.len() {
        false
    } else {
        let prev = items_spec(items, n - 1, cp, enc, opt, props);
        match items[n - 1] {
            ClassItem::Intersect(rest) => {
                proof {
                    assert(decreases_to!(items => items[n - 1]));
                }
                prev && items_spec(rest@, rest@.len() as int, cp, enc, opt, props)
            },
            other => {
                proof {
                    assert(decreases_to!(items => items[n - 1]));
                }
                prev || item_spec(items[n - 1], cp, enc, opt, props)
            },
        }
    }
}

/// Does the class hold `cp`?
pub open spec fn class_spec(
    cc: CharClass,
    cp: u32,
    enc: Encoding,
    opt: Options,
    props: Seq<UserProperty>,
) -> bool
    decreases cc, 0int,
{
    let hit = items_spec(cc.items@, cc.items@.len() as int, cp, enc, opt, props);
    if cc.negate {
        !hit
    } else {
        hit
    }
}

/// A copy of a class holds the same code points.
pub proof fn lemma_same_class_spec(
    a: CharClass,
    b: CharClass,
    cp: u32,
    enc: Encoding,
    opt: Options,
    props: Seq<UserProperty>,
)
    requires
        same_class(a, b),
    ensures
        class_spec(a, cp, enc, opt, props) == class_spec(b, cp, enc, opt, props),
    decreases a, 0int,
{
    lemma_same_items_spec(a.items@, b.items@, a.items@.len() as int, cp, enc, opt, props);
}

/// Copies of the first `n` items hold the same code points.
proof fn lemma_same_items_spec(
    v: Seq<ClassItem>,
    w: Seq<ClassItem>,
    n: int,
    cp: u32,
    enc: Encoding,
    opt: Options,
    props: Seq<UserProperty>,
)
    requires
        same_items(v, w, n),
        v.len() == w.len(),
        0 <= n <= v.len(),
    ensures
        items_spec(v, n, cp, enc, opt, props) == items_spec(w, n, cp, enc, opt, props),
    decreases v, n,
{
    if n > 0 {
        lemma_same_items_spec(v, w, n - 1, cp, enc, opt, props);
        assert(decreases_to!(v => v[n - 1]));
        assert(same_item(v[n - 1], w[n - 1]));
        match v[n - 1] {
            ClassItem::Intersect(rest) => {
                let rest2 = w[n - 1]->Intersect_0;
                lemma_same_items_spec(rest@, rest2@, rest@.len() as int, cp, enc, opt, props);
            },
            _ => {
                lemma_same_item_spec(v[n - 1], w[n - 1], cp, enc, opt, props);
            },
        }
    }
}

/// A copy of an item holds the same code points.
proof fn lemma_same_item_spec(
    a: ClassItem,
    b: ClassItem,
    cp: u32,
    enc: Encoding,
    opt: Options,
    props: Seq<UserProperty>,
)
    requires
        same_item(a, b),
    ensures
        item_spec(a, cp, enc, opt, props) == item_spec(b, cp, enc, opt, props),
    decreases a, 0int,
{
    match a {
        ClassItem::Nested(cc) => {
            lemma_same_class_spec(cc, b->Nested_0, cp, enc, opt, props);
        },
        _ => {},
    }
}

/// Class membership, independent of any live engine.
pub fn class_hit_in(
    cc: &CharClass,
    cp: u32,
    enc: Encoding,
    opt: Options,
    user_props: &Vec<UserProperty>,
) -> (r: bool)
    ensures
        r == class_spec(*cc, cp, enc, opt, user_props@),
    decreases cc, 1int,
{
    items_hit(&cc.items, cc.negate, cp, enc, opt, user_props)
}

/// Membership in the items of a class: any item holds, except that an
/// intersection (`&&`) ands what came before with what follows.
fn items_hit(
    items: &Vec<ClassItem>,
    negate: bool,
    cp: u32,
    enc: Encoding,
    opt: Options,
    user_props: &Vec<UserProperty>,
) -> (r: bool)
    ensures
        r == (if negate {
            !items_spec(items@, items@.len() as int, cp, enc, opt, user_props@)
        } else {
            items_spec(items@, items@.len() as int, cp, enc, opt, user_props@)
        }),
    decreases items, 1int,
{
    let mut ok = false;
    let mut i: usize = 0;
    while i < items.len()
        invariant
            i <= items@.len(),
            ok == items_spec(items@, i as int, cp, enc, opt, user_props@),
        decreases items@.len() - i,
    {
        proof {
            assert(decreases_to!(items => items@[i as int]));
        }
        match &items[i] {
            ClassItem::Intersect(rest) => {
                let left = ok;
                let right = items_hit(rest, false, cp, enc, opt, user_props);
                ok = left && right;
            },
            other => {
                if item_hit_in(other, cp, enc, opt, user_props) {
                    ok = true;
                }
            },
        }
        i = i + 1;
    }
    if negate {
        !ok
    } else {
        ok
    }
}

fn item_hit_in(
    item: &ClassItem,
    cp: u32,
    enc: Encoding,
    opt: Options,
    user_props: &Vec<UserProperty>,
) -> (r: bool)
    ensures
        r == item_spec(*item, cp, enc, opt, user_props@),
    decreases item, 1int,
{
    match item {
        ClassItem::Char(c) => {
            if *c == cp {
                return true;
            }
            if opt.contains(Options::ignorecase()) {
                fold_eq(*c, cp, opt.contains(Options::ignorecase_is_ascii()))
            } else {
                false
            }
        },
        ClassItem::Range(a, b) => {
            if *a <= cp && cp <= *b {
                return true;
            }
            if opt.contains(Options::ignorecase()) {
                let f = fold_cp(cp, opt.contains(Options::ignorecase_is_ascii()));
                if *a <= f && f <= *b {
                    return true;
                }
                let u = unfold_up(cp);
                *a <= u && u <= *b
            } else {
                false
            }
        },
        ClassItem::Posix { name, neg } => unicode::posix(name.as_str(), enc, opt, cp) != *neg,
        ClassItem::Prop { name, neg } => {
            let mut hit = unicode::property(name.as_str(), enc, opt, cp);
            let mut k: usize = 0;
            while k < user_props.len()
                invariant
                    k <= user_props@.len(),
                    hit == (match user_override(user_props@, name@, cp, k as int) {
                        Some(h) => h,
                        None => unicode::property_spec(name@, enc, opt, cp),
                    }),
                decreases user_props@.len() - k,
            {
                if str_eq(user_props[k].name.as_str(), name.as_str()) {
                    hit = user_props[k].contains(cp);
                }
                k = k + 1;
            }
            hit != *neg
        },
        ClassItem::Word { neg } => unicode::is_word(enc, opt, cp) != *neg,
        ClassItem::Digit { neg } => unicode::is_digit(enc, opt, cp) != *neg,
        ClassItem::Space { neg } => unicode::is_space(enc, opt, cp) != *neg,
        ClassItem::Xdigit { neg } => unicode::is_xdigit(cp) != *neg,
        ClassItem::Nested(cc) => class_hit_in(cc, cp, enc, opt, user_props),
        ClassItem::Intersect(_) => false,
    }
}

} // verus!
