//! Pattern parser (Oniguruma `regparse`).

use vstd::prelude::*;
use vstd::string::StringSliceAdditionalSpecFns;
use super::ast::{all_chars, concat, alt, text_of, text_tree, AbsentKind, Anchor, Backref, CallTarget, CharClass, ClassItem, Cond, Node};
use super::callout::CalloutDir;
use super::encoding::Encoding;
use super::exec::plain::char_at_spec;
use super::error::{Error, ErrorKind};
use super::syntax::{behavior, op, op2, Options, Syntax};
use crate::text::{char_from_u32, push_char, str_eq};

verus! {

/// What the parser produces: the tree, the group count (group 0 included)
/// and the group names.
pub struct ParseResult {
    pub root: Node,
    pub capture_count: usize,
    pub names: Vec<Option<String>>,
    pub has_named: bool,
    pub options: Options,
}

/// Nesting depth the parser accepts; deeper patterns are a `ParseDepthLimit`
/// error. Parsing, compiling and the analysis walks recurse over the
/// pattern's structure, so nesting depth is native stack depth.
pub const MAX_PARSE_DEPTH: usize = 200;

fn is_digit_byte(b: u8) -> (r: bool)
    ensures
        r == (48 <= b && b <= 57),
{
    48 <= b && b <= 57
}

fn is_ident_byte(b: u8) -> (r: bool)
    ensures
        r == ((48 <= b && b <= 57) || (65 <= b && b <= 90) || (97 <= b && b <= 122) || b == 95),
{
    (48 <= b && b <= 57) || (65 <= b && b <= 90) || (97 <= b && b <= 122) || b == 95
}

/// The `(` at `i` opens a named group: `(?<name>` (but not `(?<=` or
/// `(?<!`), `(?'name'`, `(?@<name>` or `(?P<name>`.
pub open spec fn opens_named_at(pat: Seq<u8>, i: int) -> bool {
    let rest = pat.len() - i;
    ||| rest > 3 && pat[i + 1] == 63 && pat[i + 2] == 60 && pat[i + 3] != 61 && pat[i + 3] != 33
    ||| rest > 2 && pat[i + 1] == 63 && pat[i + 2] == 39
    ||| rest > 4 && pat[i + 1] == 63 && pat[i + 2] == 64 && pat[i + 3] == 60 && pat[i + 4] != 61
        && pat[i + 4] != 33
    ||| rest > 3 && pat[i + 1] == 63 && pat[i + 2] == 80 && pat[i + 3] == 60
}

/// Reading from `i` (inside a bracket class when `in_class`), a named group
/// opens outside any class before the text ends. A backslash hides the byte
/// after it, and one at the very end stops the reading.
pub open spec fn named_from(pat: Seq<u8>, i: int, in_class: bool) -> bool
    decreases pat.len() - i,
{
    if i < 0 || i >= pat.len() {
        false
    } else {
        let b = pat[i];
        if b == 92 {
            if i >= pat.len() - 1 {
                false
            } else {
                named_from(pat, i + 2, in_class)
            }
        } else if b == 91 && !in_class {
            named_from(pat, i + 1, true)
        } else if b == 93 && in_class {
            named_from(pat, i + 1, false)
        } else if b == 40 && !in_class && opens_named_at(pat, i) {
            true
        } else {
            named_from(pat, i + 1, in_class)
        }
    }
}

/// Does the pattern contain a named group anywhere?
///
/// Oniguruma decides this for the whole pattern before it starts capturing:
/// once any named group exists, a plain `(...)` stops capturing unless
/// `CAPTURE_GROUP` is set.
pub fn scan_has_named_group(pat: &[u8], syntax: Syntax) -> (r: bool)
    ensures
        r == (syntax.op2_on(op2::QMARK_LT_NAMED_GROUP) && named_from(pat@, 0, false)),
{
    if !syntax.has_op2(op2::QMARK_LT_NAMED_GROUP) {
        return false;
    }
    let n = pat.len();
    let mut i: usize = 0;
    let mut in_class = false;
    while i < n
        invariant
            n == pat@.len(),
            i <= n + 1,
            named_from(pat@, 0, false) == named_from(pat@, i as int, in_class),
            syntax.op2_on(op2::QMARK_LT_NAMED_GROUP),
        decreases n - i,
    {
        let b = pat[i];
        if b == 92 {
            if i >= n - 1 {
                return false;
            }
            i = i + 2;
            continue;
        } else if b == 91 && !in_class {
            in_class = true;
        } else if b == 93 && in_class {
            in_class = false;
        } else if b == 40 && !in_class {
            let rest = n - i;
            proof {
                assert(named_from(pat@, i as int, in_class) == (opens_named_at(pat@, i as int)
                    || named_from(pat@, i + 1, in_class)));
            }
            // (?<name>  -- but not the look-behinds (?<= and (?<!
            if rest > 3 && pat[i + 1] == 63 && pat[i + 2] == 60 && pat[i + 3] != 61 && pat[i + 3]
                != 33 {
                return true;
            }
            // (?'name'
            if rest > 2 && pat[i + 1] == 63 && pat[i + 2] == 39 {
                return true;
            }
            // (?@<name>  -- named capture-history group
            if rest > 4 && pat[i + 1] == 63 && pat[i + 2] == 64 && pat[i + 3] == 60 && pat[i + 4]
                != 61 && pat[i + 4] != 33 {
                return true;
            }
            // (?P<name>
            if rest > 3 && pat[i + 1] == 63 && pat[i + 2] == 80 && pat[i + 3] == 60 {
                return true;
            }
        }
        i = i + 1;
    }
    false
}

/// The (byte offset, code point) pairs of the characters of `pat` from `i`
/// on, or `None` where one cannot be read in `enc`.
pub open spec fn decoded(enc: Encoding, pat: Seq<u8>, i: int) -> Option<Seq<(usize, u32)>>
    decreases pat.len() - i,
{
    if i < 0 || i >= pat.len() {
        Some(Seq::empty())
    } else {
        match char_at_spec(enc, pat, i, pat.len() as int) {
            None => None,
            Some((c, n)) => if n >= 1 {
                match decoded(enc, pat, i + n) {
                    None => None,
                    Some(rest) => Some(seq![(i as usize, c)] + rest),
                }
            } else {
                None
            },
        }
    }
}

/// Decode the whole pattern to (byte offset, code point) pairs.
fn decode_pattern(pat: &[u8], enc: Encoding) -> (r: Result<Vec<(usize, u32)>, Error>)
    ensures
        r matches Ok(v) ==> v@.len() <= pat@.len(),
        match r {
            Ok(v) => decoded(enc, pat@, 0) == Some(v@),
            Err(_) => decoded(enc, pat@, 0) is None,
        },
{
    let mut out: Vec<(usize, u32)> = Vec::new();
    let mut i: usize = 0;
    while i < pat.len()
        invariant
            i <= pat@.len(),
            out@.len() <= i,
            decoded(enc, pat@, 0) == (match decoded(enc, pat@, i as int) {
                None => None,
                Some(rest) => Some(out@ + rest),
            }),
        decreases pat@.len() - i,
    {
        let rest = &pat[i..pat.len()];
        let n = enc.mbc_len(rest)?;
        let code = enc.decode_len(rest, n)?;
        proof {
            assert(1 <= n <= rest@.len());
            assert(rest@ == pat@.subrange(i as int, pat@.len() as int));
        }
        let ghost before = out@;
        out.push((i, code));
        proof {
            match decoded(enc, pat@, i + n) {
                None => {},
                Some(tail) => {
                    assert(before + (seq![(i, code)] + tail) =~= out@ + tail);
                },
            }
        }
        i = i + n;
    }
    proof {
        assert(out@ + Seq::<(usize, u32)>::empty() =~= out@);
    }
    Ok(out)
}

pub struct Parser<'a> {
    pub pat: &'a [u8],
    /// Pattern decoded to (byte offset, code point) so syntax peeks are
    /// encoding-aware.
    pub codes: Vec<(usize, u32)>,
    pub syntax: Syntax,
    pub options: Options,
    pub i: usize,
    pub capture_count: usize,
    pub names: Vec<Option<String>>,
    pub has_named: bool,
    pub depth: usize,
}

/// The code point at index `k` of the decoded pattern.
pub open spec fn code_at(codes: Seq<(usize, u32)>, k: int) -> Option<u32> {
    if 0 <= k < codes.len() {
        Some(codes[k].1)
    } else {
        None
    }
}

/// The code point at `k` when it fits a byte.
pub open spec fn byte_at(codes: Seq<(usize, u32)>, k: int) -> Option<u8> {
    match code_at(codes, k) {
        Some(c) => if c < 256 {
            Some(c as u8)
        } else {
            None
        },
        None => None,
    }
}

/// The code point at `k` is a decimal digit.
pub open spec fn is_digit_at(codes: Seq<(usize, u32)>, k: int) -> bool {
    byte_at(codes, k) matches Some(b) && 48 <= b <= 57
}

/// The code points at `a..b` are decimal digits.
pub open spec fn all_digits(codes: Seq<(usize, u32)>, a: int, b: int) -> bool {
    forall|k: int| a <= k < b ==> #[trigger] is_digit_at(codes, k)
}

/// The decimal number at `a..b`: `Some(None)` for no digits, `None` when it
/// does not fit a `u32`.
pub open spec fn dec_opt(codes: Seq<(usize, u32)>, a: int, b: int) -> Option<Option<u32>> {
    if b <= a {
        Some(None)
    } else if dec_value(codes, a, b) <= u32::MAX {
        Some(Some(dec_value(codes, a, b) as u32))
    } else {
        None
    }
}

/// The interval `{n}`, `{n,}`, `{,m}` or `{n,m}` at `i0` under syntax `s`:
/// its bounds and the position after it; `None` where it is an error. An
/// interval that does not close reads as `{1,1}` that consumes nothing where
/// the syntax allows invalid intervals.
pub open spec fn brace_interval(s: Syntax, c: Seq<(usize, u32)>, i0: int) -> Option<
    ((u32, Option<u32>), int),
> {
    if byte_at(c, i0) != Some(123u8) {
        None
    } else {
        let i1 = i0 + 1;
        let j1 = digit_end(c, i1);
        match dec_opt(c, i1, j1) {
            None => None,
            Some(lower0) => {
                let comma = byte_at(c, j1) == Some(44u8);
                let j2 = digit_end(c, j1 + 1);
                let up = if comma {
                    dec_opt(c, j1 + 1, j2)
                } else {
                    Some(lower0)
                };
                match up {
                    None => None,
                    Some(upper) => if comma && lower0 is None && !s.behavior_on(
                        behavior::ALLOW_INTERVAL_LOW_ABBREV,
                    ) {
                        None
                    } else {
                        let lower = if comma && lower0 is None {
                            Some(0u32)
                        } else {
                            lower0
                        };
                        let p = if comma {
                            j2
                        } else {
                            j1
                        };
                        let close = byte_at(c, p) == Some(125u8);
                        let esc_close = s.op_on(op::ESC_BRACE_INTERVAL) && byte_at(c, p) == Some(92u8)
                            && code_at(c, p + 1) == Some(125u32);
                        if !close && !esc_close {
                            if s.behavior_on(behavior::ALLOW_INVALID_INTERVAL) {
                                Some(((1u32, Some(1u32)), i0))
                            } else {
                                None
                            }
                        } else {
                            let e = if close {
                                p + 1
                            } else {
                                p + 2
                            };
                            let mn = match lower {
                                Some(l) => l,
                                None => 0u32,
                            };
                            if upper matches Some(u) && u < mn {
                                None
                            } else {
                                Some(((mn, upper), e))
                            }
                        }
                    },
                }
            },
        }
    }
}

/// The end of the run of decimal digits that starts at `i`.
pub open spec fn digit_end(codes: Seq<(usize, u32)>, i: int) -> int
    decreases codes.len() - i,
{
    if 0 <= i < codes.len() && is_digit_at(codes, i) {
        digit_end(codes, i + 1)
    } else {
        i
    }
}

proof fn lemma_digit_end(codes: Seq<(usize, u32)>, i: int, j: int)
    requires
        0 <= i <= j,
        all_digits(codes, i, j),
        !is_digit_at(codes, j),
    ensures
        digit_end(codes, i) == j,
    decreases j - i,
{
    if i < j {
        assert(is_digit_at(codes, i));
        lemma_digit_end(codes, i + 1, j);
    }
}

/// The value of the decimal digits at `a..b`.
pub open spec fn dec_value(codes: Seq<(usize, u32)>, a: int, b: int) -> int
    decreases b - a,
{
    if b <= a {
        0
    } else {
        dec_value(codes, a, b - 1) * 10 + (codes[b - 1].1 - 48)
    }
}

/// `v` read with an optional minus sign, as a two's-complement `i32`.
pub open spec fn signed_of(neg: bool, v: u32) -> i32 {
    let m = v as i32;
    if neg {
        if m == i32::MIN {
            m
        } else {
            (-m) as i32
        }
    } else {
        m
    }
}

/// Identifier characters: ASCII letters, digits and `_`.
pub open spec fn is_ident_code(c: u32) -> bool {
    (48 <= c <= 57) || (65 <= c <= 90) || (97 <= c <= 122) || c == 95
}

/// The end of the run of identifier characters that starts at `i`.
pub open spec fn ident_end(codes: Seq<(usize, u32)>, i: int) -> int
    decreases codes.len() - i,
{
    if 0 <= i < codes.len() && is_ident_code(codes[i].1) {
        ident_end(codes, i + 1)
    } else {
        i
    }
}

proof fn lemma_ident_end(codes: Seq<(usize, u32)>, i: int, j: int)
    requires
        0 <= i <= j <= codes.len(),
        forall|k: int| i <= k < j ==> is_ident_code(#[trigger] codes[k].1),
        !(j < codes.len() && is_ident_code(codes[j].1)),
    ensures
        ident_end(codes, i) == j,
    decreases j - i,
{
    if i < j {
        assert(is_ident_code(codes[i].1));
        lemma_ident_end(codes, i + 1, j);
    }
}

/// The `[tag]` of a callout at `i`: the tag, if any, and the position after
/// it; `None` for an empty tag.
pub open spec fn callout_tag(codes: Seq<(usize, u32)>, i: int) -> Option<(Option<Seq<char>>, int)> {
    if byte_at(codes, i) == Some(91u8) {
        let st = stop_at(codes, i + 1, 93u8);
        let t = scalars_of(codes, i + 1, st);
        if t.len() == 0 {
            None
        } else {
            Some((Some(t), st + (if st < codes.len() {
                1int
            } else {
                0int
            })))
        }
    } else {
        Some((None, i))
    }
}

/// The body of a contents callout from `i`, inside `depth` open braces:
/// its characters (nested braces kept, code points that are no character
/// passed over) and the position of the brace that closes it, or the end.
pub open spec fn callout_body(codes: Seq<(usize, u32)>, i: int, depth: nat) -> (Seq<char>, int)
    decreases codes.len() - i,
{
    if i < 0 || i >= codes.len() || depth == 0 {
        (Seq::empty(), i)
    } else if byte_at(codes, i) == Some(123u8) {
        let rest = callout_body(codes, i + 1, depth + 1);
        (seq!['{'] + rest.0, rest.1)
    } else if byte_at(codes, i) == Some(125u8) {
        if depth > 1 {
            let rest = callout_body(codes, i + 1, (depth - 1) as nat);
            (seq!['}'] + rest.0, rest.1)
        } else {
            (Seq::empty(), i)
        }
    } else {
        let rest = callout_body(codes, i + 1, depth);
        let here = if crate::text::is_scalar(codes[i].1) {
            seq![codes[i].1 as char]
        } else {
            Seq::<char>::empty()
        };
        (here + rest.0, rest.1)
    }
}

/// The direction letter of a contents callout at `i` and the position after
/// it: `X` both ways, `<` on retraction, `>` or nothing on progress.
pub open spec fn callout_dir(codes: Seq<(usize, u32)>, i: int) -> (CalloutDir, int) {
    if byte_at(codes, i) == Some(88u8) {
        (CalloutDir::Both, i + 1)
    } else if byte_at(codes, i) == Some(60u8) {
        (CalloutDir::Retraction, i + 1)
    } else if byte_at(codes, i) == Some(62u8) {
        (CalloutDir::Progress, i + 1)
    } else {
        (CalloutDir::Progress, i)
    }
}

/// The option letters of `(?imx-imx...` from `i`: where they stop, and the
/// bits set and cleared. Letters after `-` clear; `y{w}` and `y{g}` always
/// set a text-segment mode.
pub open spec fn opt_scan(s: Syntax, c: Seq<(usize, u32)>, i: int, on: bool, set: u32, clear: u32) -> (
    int,
    u32,
    u32,
)
    decreases c.len() - i,
{
    if i < 0 || i >= c.len() {
        (i, set, clear)
    } else {
        match byte_at(c, i) {
            None => (i, set, clear),
            Some(b) => match option_letter_spec(s, b) {
                Some(o) => if on {
                    opt_scan(s, c, i + 1, on, set | o.0, clear)
                } else {
                    opt_scan(s, c, i + 1, on, set, clear | o.0)
                },
                None => if b == 45 {
                    opt_scan(s, c, i + 1, false, set, clear)
                } else if b == 121 {
                    if byte_at(c, i + 1) == Some(123u8) {
                        let k = i + 2;
                        let (k2, set2) = if byte_at(c, k) == Some(119u8) {
                            (k + 1, set | Options::text_segment_word_spec().0)
                        } else if byte_at(c, k) == Some(103u8) {
                            (k + 1, set | Options::text_segment_extended_grapheme_cluster_spec().0)
                        } else {
                            (k, set)
                        };
                        let k3 = k2 + (if byte_at(c, k2) == Some(125u8) {
                            1int
                        } else {
                            0int
                        });
                        opt_scan(s, c, k3, on, set2, clear)
                    } else {
                        opt_scan(s, c, i + 1, on, set, clear)
                    }
                } else {
                    (i, set, clear)
                },
            },
        }
    }
}

/// Where a `(?#...)` comment that runs from `i` stops: at its `)`, at a
/// code point that is no byte, or at the end.
pub open spec fn comment_end(c: Seq<(usize, u32)>, i: int) -> int
    decreases c.len() - i,
{
    if 0 <= i < c.len() && byte_at(c, i) is Some && byte_at(c, i) != Some(41u8) {
        comment_end(c, i + 1)
    } else {
        i
    }
}

/// A group opened with these options, under a pattern that has (or has no)
/// named groups, captures: a named group always; an unnamed one unless
/// `DONT_CAPTURE_GROUP` is on, and then only where no named group exists or
/// `CAPTURE_GROUP` is on.
pub open spec fn group_captures(named: bool, options: Options, has_named: bool) -> bool {
    named || (!options.has(Options::dont_capture_group_spec()) && (!has_named || options.has(
        Options::capture_group_spec(),
    )))
}

/// The `{args}` of a named callout at `i`, and the position after them.
pub open spec fn callout_args(codes: Seq<(usize, u32)>, i: int) -> (Seq<char>, int) {
    if byte_at(codes, i) == Some(123u8) {
        let st = stop_at(codes, i + 1, 125u8);
        (scalars_of(codes, i + 1, st), st + (if st < codes.len() {
            1int
        } else {
            0int
        }))
    } else {
        (Seq::empty(), i)
    }
}

/// The first index from `i` holding `end`, or the length.
pub open spec fn stop_at(codes: Seq<(usize, u32)>, i: int, end: u8) -> int
    decreases codes.len() - i,
{
    if i >= codes.len() {
        codes.len() as int
    } else if codes[i].1 == end as u32 {
        i
    } else {
        stop_at(codes, i + 1, end)
    }
}

/// Where `stop_at` stops inside the pattern, `end` is there.
proof fn lemma_stop_at(codes: Seq<(usize, u32)>, i: int, end: u8)
    requires
        0 <= i <= codes.len(),
    ensures
        i <= stop_at(codes, i, end) <= codes.len(),
        stop_at(codes, i, end) < codes.len() ==> codes[stop_at(codes, i, end)].1 == end as u32,
    decreases codes.len() - i,
{
    if i < codes.len() && codes[i].1 != end as u32 {
        lemma_stop_at(codes, i + 1, end);
    }
}

/// The characters among the code points at `a..b` (others are passed over).
pub open spec fn scalars_of(codes: Seq<(usize, u32)>, a: int, b: int) -> Seq<char>
    decreases b - a,
{
    if b <= a {
        Seq::empty()
    } else {
        let prev = scalars_of(codes, a, b - 1);
        let c = codes[b - 1].1;
        if crate::text::is_scalar(c) {
            prev.push(c as char)
        } else {
            prev
        }
    }
}

/// The option an option letter names under `syntax`.
pub open spec fn option_letter_spec(syntax: Syntax, b: u8) -> Option<Options> {
    if b == 105 {
        Some(Options::ignorecase_spec())
    } else if b == 109 {
        Some(Options::multiline_spec())
    } else if b == 120 {
        Some(Options::extend_spec())
    } else if b == 115 && syntax.op2_on(op2::OPTION_PERL) {
        Some(Options::multiline_spec())
    } else if b == 87 {
        Some(Options::word_is_ascii_spec())
    } else if b == 68 {
        Some(Options::digit_is_ascii_spec())
    } else if b == 83 {
        Some(Options::space_is_ascii_spec())
    } else if b == 80 {
        Some(Options::posix_is_ascii_spec())
    } else if b == 67 {
        Some(Options::dont_capture_group_spec())
    } else if b == 73 {
        Some(Options::ignorecase_is_ascii_spec())
    } else if b == 76 {
        Some(Options::find_longest_spec())
    } else {
        None
    }
}

/// The hex digit `c` stands for.
pub open spec fn hex_of(c: Option<u8>) -> Option<u8> {
    match c {
        Some(b) => if 48 <= b <= 57 {
            Some((b - 48) as u8)
        } else if 97 <= b <= 102 {
            Some((b - 87) as u8)
        } else if 65 <= b <= 70 {
            Some((b - 55) as u8)
        } else {
            None
        },
        None => None,
    }
}

/// The code points at `a..b` are hex digits.
pub open spec fn all_hex(codes: Seq<(usize, u32)>, a: int, b: int) -> bool {
    forall|k: int| a <= k < b ==> #[trigger] hex_of(byte_at(codes, k)) is Some
}

/// The end of the run of hex digits that starts at `i`.
pub open spec fn hex_end(codes: Seq<(usize, u32)>, i: int) -> int
    decreases codes.len() - i,
{
    if 0 <= i < codes.len() && hex_of(byte_at(codes, i)) is Some {
        hex_end(codes, i + 1)
    } else {
        i
    }
}

proof fn lemma_hex_end_from(codes: Seq<(usize, u32)>, i: int)
    ensures
        hex_end(codes, i) >= i,
        hex_end(codes, i) > i ==> 0 <= i < codes.len() && hex_of(byte_at(codes, i)) is Some,
    decreases codes.len() - i,
{
    if 0 <= i < codes.len() && hex_of(byte_at(codes, i)) is Some {
        lemma_hex_end_from(codes, i + 1);
    }
}

/// What `\x` followed by the text at `i0` reads under syntax `s`: the value
/// and the position after it. `{h...}` takes the whole run of hex digits and
/// an optional `}`; otherwise up to two digits; otherwise the letter `x`
/// itself.
pub open spec fn hex_escape(s: Syntax, c: Seq<(usize, u32)>, i0: int) -> (u32, int) {
    if byte_at(c, i0) == Some(123u8) && s.op_on(op::ESC_X_BRACE_HEX8) {
        let e = hex_end(c, i0 + 1);
        (hex_fold(c, i0 + 1, e), e + (if byte_at(c, e) == Some(125u8) {
            1int
        } else {
            0int
        }))
    } else if s.op_on(op::ESC_X_HEX2) {
        let e = if hex_end(c, i0) < i0 + 2 {
            hex_end(c, i0)
        } else {
            i0 + 2
        };
        (hex_fold(c, i0, e), e)
    } else {
        (120u32, i0)
    }
}

/// What an escape inside a class, the text after its backslash at `i0`,
/// gives under syntax `s`: `r` the code point or the error, `fi` the
/// position after it.
pub open spec fn class_escape_ok(
    s: Syntax,
    c: Seq<(usize, u32)>,
    i0: int,
    r: Result<u32, Error>,
    fi: int,
) -> bool {
    match byte_at(c, i0) {
        None => r is Err,
        Some(b) => if b == 120 {
            r == Ok::<u32, Error>(hex_escape(s, c, i0 + 1).0) && fi
                == hex_escape(s, c, i0 + 1).1
        } else if b == 117 && s.op2_on(op2::ESC_U_HEX4) {
            &&& (r is Ok <==> all_hex(c, i0 + 1, i0 + 5))
            &&& (r matches Ok(v) ==> v == hex_fold(c, i0 + 1, i0 + 5) && fi
                == i0 + 5)
        } else if b == 111 && s.op_on(op::ESC_O_BRACE_OCTAL) {
            if byte_at(c, i0 + 1) == Some(123u8) {
                let j = oct_end(c, i0 + 2);
                r == Ok::<u32, Error>(oct_fold(c, i0 + 2, j)) && fi == j + (if byte_at(c, j) == Some(
                    125u8,
                ) {
                    1int
                } else {
                    0int
                })
            } else {
                r == Ok::<u32, Error>(111u32) && fi == i0 + 1
            }
        } else if b == 99 && s.op_on(op::ESC_C_CONTROL) {
            &&& (r is Ok <==> i0 + 1 < c.len())
            &&& (r matches Ok(v) ==> v == c[i0 + 1].1 & 0x1f && fi == i0
                + 2)
        } else if class_escape_fixed(b) is Some {
            r == Ok::<u32, Error>(class_escape_fixed(b).unwrap()) && fi
                == i0 + 1
        } else if 48 <= b <= 55 && s.op_on(op::ESC_OCTAL3) {
            r == Ok::<u32, Error>(oct_num(c, i0, oct3_end(c, i0)) as u32) && fi == oct3_end(c, i0)
        } else {
            r == Ok::<u32, Error>(c[i0].1) && fi == i0 + 1
        },
    }
}

/// The control characters that a letter escape stands for inside a class.
pub open spec fn class_escape_fixed(b: u8) -> Option<u32> {
    if b == 114 {
        Some(0x0du32)
    } else if b == 102 {
        Some(0x0cu32)
    } else if b == 118 {
        Some(0x0bu32)
    } else if b == 97 {
        Some(0x07u32)
    } else if b == 101 {
        Some(0x1bu32)
    } else if b == 98 {
        Some(0x08u32)
    } else {
        None
    }
}

/// A one-symbol quantifier at `i` under syntax `s` (`*`, `+`, `?`, or the
/// same after a backslash where the syntax says so): its bounds and the
/// position after it.
pub open spec fn simple_quant(s: Syntax, c: Seq<(usize, u32)>, i: int) -> Option<
    (u32, Option<u32>, int),
> {
    match byte_at(c, i) {
        Some(b) => if b == 42 && s.op_on(op::ASTERISK_ZERO_INF) {
            Some((0u32, None::<u32>, i + 1))
        } else if b == 43 && s.op_on(op::PLUS_ONE_INF) {
            Some((1u32, None::<u32>, i + 1))
        } else if b == 63 && s.op_on(op::QMARK_ZERO_ONE) {
            Some((0u32, Some(1u32), i + 1))
        } else if b == 123 && s.op_on(op::BRACE_INTERVAL) {
            None
        } else if b == 92 {
            if s.op_on(op::ESC_ASTERISK_ZERO_INF) && code_at(c, i + 1) == Some(42u32) {
                Some((0u32, None::<u32>, i + 2))
            } else if s.op_on(op::ESC_PLUS_ONE_INF) && code_at(c, i + 1) == Some(43u32) {
                Some((1u32, None::<u32>, i + 2))
            } else if s.op_on(op::ESC_QMARK_ZERO_ONE) && code_at(c, i + 1) == Some(63u32) {
                Some((0u32, Some(1u32), i + 2))
            } else {
                None
            }
        } else {
            None
        },
        None => None,
    }
}

/// The one-symbol quantifiers bound their repetition as the grammar says:
/// `*` any number of times (`{0,}`), `+` at least once (`{1,}`) and `?` at
/// most once (`{0,1}`), each taking one symbol, or two where a backslash
/// introduces it and the syntax allows only that form.
pub proof fn quantifier_symbols_bound(s: Syntax, c: Seq<(usize, u32)>, i: int)
    ensures
        byte_at(c, i) == Some(42u8) && s.op_on(op::ASTERISK_ZERO_INF) ==> simple_quant(s, c, i)
            == Some((0u32, None::<u32>, i + 1)),
        byte_at(c, i) == Some(43u8) && s.op_on(op::PLUS_ONE_INF) ==> simple_quant(s, c, i) == Some(
            (1u32, None::<u32>, i + 1),
        ),
        byte_at(c, i) == Some(63u8) && s.op_on(op::QMARK_ZERO_ONE) ==> simple_quant(s, c, i) == Some(
            (0u32, Some(1u32), i + 1),
        ),
        byte_at(c, i) == Some(92u8) && code_at(c, i + 1) == Some(63u32) && s.op_on(
            op::ESC_QMARK_ZERO_ONE,
        ) && !s.op_on(op::ESC_ASTERISK_ZERO_INF) && !s.op_on(op::ESC_PLUS_ONE_INF) ==> simple_quant(
            s,
            c,
            i,
        ) == Some((0u32, Some(1u32), i + 2)),
{
}

/// An interval quantifier `{..}` (or `\{..` where the syntax says so)
/// starts at `i`.
pub open spec fn brace_quant_at(s: Syntax, c: Seq<(usize, u32)>, i: int) -> bool {
    match byte_at(c, i) {
        Some(b) => if b == 42 && s.op_on(op::ASTERISK_ZERO_INF) {
            false
        } else if b == 43 && s.op_on(op::PLUS_ONE_INF) {
            false
        } else if b == 63 && s.op_on(op::QMARK_ZERO_ONE) {
            false
        } else if b == 123 && s.op_on(op::BRACE_INTERVAL) {
            true
        } else if b == 92 {
            simple_quant(s, c, i) is None && s.op_on(op::ESC_BRACE_INTERVAL) && code_at(c, i + 1)
                == Some(123u32)
        } else {
            false
        },
        None => false,
    }
}

/// What follows a quantifier with bounds `min`, `max` at `j`: the greedy,
/// possessive and fixed-interval flags, and the position after the suffix.
pub open spec fn quant_suffix(s: Syntax, c: Seq<(usize, u32)>, j: int, min: u32, max: Option<u32>) -> (
    (bool, bool, bool),
    int,
) {
    if byte_at(c, j) == Some(63u8) && s.op_on(op::QMARK_NON_GREEDY) {
        if s.behavior_on(behavior::FIXED_INTERVAL_IS_GREEDY_ONLY) && max == Some(min) {
            ((true, false, true), j + 1)
        } else {
            ((false, false, false), j + 1)
        }
    } else if byte_at(c, j) == Some(43u8) && (s.op2_on(op2::PLUS_POSSESSIVE_REPEAT) || s.op2_on(
        op2::PLUS_POSSESSIVE_INTERVAL,
    )) {
        ((true, true, false), j + 1)
    } else {
        ((true, false, false), j)
    }
}

/// The hex digits at `a..b` folded into a `u32`, four bits each, the
/// higher ones shifted out.
pub open spec fn hex_fold(codes: Seq<(usize, u32)>, a: int, b: int) -> u32
    decreases b - a,
{
    if b <= a {
        0
    } else {
        let h: u32 = match hex_of(byte_at(codes, b - 1)) {
            Some(d) => d as u32,
            None => 0,
        };
        (hex_fold(codes, a, b - 1) << 4u32) | h
    }
}

/// The octal digit at `k`.
pub open spec fn oct_of(codes: Seq<(usize, u32)>, k: int) -> Option<u8> {
    match byte_at(codes, k) {
        Some(b) => if 48 <= b <= 55 {
            Some((b - 48) as u8)
        } else {
            None
        },
        None => None,
    }
}

/// The end of the run of octal digits that starts at `i`.
pub open spec fn oct_end(codes: Seq<(usize, u32)>, i: int) -> int
    decreases codes.len() - i,
{
    if 0 <= i < codes.len() && oct_of(codes, i) is Some {
        oct_end(codes, i + 1)
    } else {
        i
    }
}

proof fn lemma_oct_end_from(codes: Seq<(usize, u32)>, i: int)
    ensures
        oct_end(codes, i) >= i,
        oct_end(codes, i) > i ==> 0 <= i < codes.len() && oct_of(codes, i) is Some,
    decreases codes.len() - i,
{
    if 0 <= i < codes.len() && oct_of(codes, i) is Some {
        lemma_oct_end_from(codes, i + 1);
    }
}

proof fn lemma_oct_end_at(codes: Seq<(usize, u32)>, a: int, j: int)
    requires
        0 <= a <= j,
        forall|k: int| a <= k < j ==> #[trigger] oct_of(codes, k) is Some,
        oct_of(codes, j) is None,
    ensures
        oct_end(codes, a) == j,
    decreases j - a,
{
    if a < j {
        assert(oct_of(codes, a) is Some);
        lemma_oct_end_at(codes, a + 1, j);
    }
}

/// The value of the octal digits at `a..b`.
pub open spec fn oct_num(codes: Seq<(usize, u32)>, a: int, b: int) -> int
    decreases b - a,
{
    if b <= a {
        0
    } else {
        let d: int = match oct_of(codes, b - 1) {
            Some(d) => d as int,
            None => 0,
        };
        oct_num(codes, a, b - 1) * 8 + d
    }
}

/// Where an octal escape of at most three digits from `i` ends.
pub open spec fn oct3_end(codes: Seq<(usize, u32)>, i: int) -> int {
    if oct_end(codes, i) < i + 3 {
        oct_end(codes, i)
    } else {
        i + 3
    }
}

/// The octal digits at `a..b` folded into a `u32`, three bits each.
pub open spec fn oct_fold(codes: Seq<(usize, u32)>, a: int, b: int) -> u32
    decreases b - a,
{
    if b <= a {
        0
    } else {
        let d: u32 = match oct_of(codes, b - 1) {
            Some(d) => d as u32,
            None => 0,
        };
        (oct_fold(codes, a, b - 1) << 3u32) | d
    }
}

/// Where a `\Q` quotation that began at `i` ends: at the next `\E`, or at
/// the end of the pattern.
pub open spec fn quote_end(codes: Seq<(usize, u32)>, i: int) -> int
    decreases codes.len() - i,
{
    if i < 0 || i >= codes.len() {
        codes.len() as int
    } else if byte_at(codes, i) == Some(92u8) && code_at(codes, i + 1) == Some(69u32) {
        i
    } else {
        quote_end(codes, i + 1)
    }
}

/// The node a one-letter escape `\b` stands for under syntax `s`, for the
/// escapes that are not a class item.
pub open spec fn escape_fixed(s: Syntax, b: u8) -> Option<Node> {
    let ctrl = s.op_on(op::ESC_CONTROL_CHARS);
    if b == 110 && ctrl {
        Some(Node::Char(0x0a))
    } else if b == 116 && ctrl {
        Some(Node::Char(0x09))
    } else if b == 114 && ctrl {
        Some(Node::Char(0x0d))
    } else if b == 102 && ctrl {
        Some(Node::Char(0x0c))
    } else if b == 97 && ctrl {
        Some(Node::Char(0x07))
    } else if b == 101 && ctrl {
        Some(Node::Char(0x1b))
    } else if b == 118 && (s.op2_on(op2::ESC_V_VTAB) || ctrl) {
        Some(Node::Char(0x0b))
    } else if b == 65 && s.op_on(op::ESC_AZ_BUF_ANCHOR) {
        Some(Node::Anchor(Anchor::Bos))
    } else if b == 90 && s.op_on(op::ESC_AZ_BUF_ANCHOR) {
        Some(Node::Anchor(Anchor::EosNl))
    } else if b == 122 && s.op_on(op::ESC_AZ_BUF_ANCHOR) {
        Some(Node::Anchor(Anchor::Eos))
    } else if b == 71 && s.op_on(op::ESC_CAPITAL_G_BEGIN_ANCHOR) {
        Some(Node::Anchor(Anchor::G))
    } else if b == 98 && s.op_on(op::ESC_B_WORD_BOUND) {
        Some(Node::Anchor(Anchor::WordBound))
    } else if b == 66 && s.op_on(op::ESC_B_WORD_BOUND) {
        Some(Node::Anchor(Anchor::NotWordBound))
    } else if b == 60 && s.op_on(op::ESC_LTGT_WORD_BEGIN_END) {
        Some(Node::Anchor(Anchor::WordBegin))
    } else if b == 62 && s.op_on(op::ESC_LTGT_WORD_BEGIN_END) {
        Some(Node::Anchor(Anchor::WordEnd))
    } else if b == 75 && s.op2_on(op2::ESC_CAPITAL_K_KEEP) {
        Some(Node::Keep)
    } else if b == 82 && s.op2_on(op2::ESC_CAPITAL_R_GENERAL_NEWLINE) {
        Some(Node::GeneralNewline)
    } else if b == 78 && s.op2_on(op2::ESC_CAPITAL_N_O_SUPER_DOT) {
        Some(Node::Any { newline: false })
    } else if b == 79 && s.op2_on(op2::ESC_CAPITAL_N_O_SUPER_DOT) {
        Some(Node::SuperAny)
    } else if b == 88 && s.op2_on(op2::ESC_X_Y_TEXT_SEGMENT) {
        Some(Node::TextSegment)
    } else if b == 121 && s.op2_on(op2::ESC_X_Y_TEXT_SEGMENT) {
        Some(Node::Anchor(Anchor::TextSegBound))
    } else if b == 89 && s.op2_on(op2::ESC_X_Y_TEXT_SEGMENT) {
        Some(Node::Anchor(Anchor::NotTextSegBound))
    } else if b == 96 && s.op2_on(op2::ESC_GNU_BUF_ANCHOR) {
        Some(Node::Anchor(Anchor::Bos))
    } else if b == 39 && s.op2_on(op2::ESC_GNU_BUF_ANCHOR) {
        Some(Node::Anchor(Anchor::Eos))
    } else {
        None
    }
}

/// A letter after a backslash that none of the escapes of syntax `s` claims:
/// it stands for itself.
pub open spec fn escape_plain(s: Syntax, b: u8) -> bool {
    &&& escape_fixed(s, b) is None
    &&& escape_class_item(s, b) is None
    &&& !(b == 81 && s.op2_on(op2::ESC_CAPITAL_Q_QUOTE))
    &&& !(b == 107 && s.op2_on(op2::ESC_K_NAMED_BACKREF))
    &&& !(b == 103 && s.op2_on(op2::ESC_G_SUBEXP_CALL))
    &&& !((b == 112 || b == 80) && s.op2_on(op2::ESC_P_BRACE_CHAR_PROPERTY))
    &&& b != 120
    &&& !(b == 117 && s.op2_on(op2::ESC_U_HEX4))
    &&& !(b == 111 && s.op_on(op::ESC_O_BRACE_OCTAL))
    &&& !(b == 99 && s.op_on(op::ESC_C_CONTROL))
    &&& !(48 <= b <= 57 && s.op_on(op::DECIMAL_BACKREF))
    &&& !(48 <= b <= 55 && s.op_on(op::ESC_OCTAL3))
}

/// The class item a one-letter escape `\b` (`\w`, `\d`, `\s`, `\h` and their
/// upper-case negations) stands for under syntax `s`.
pub open spec fn escape_class_item(s: Syntax, b: u8) -> Option<ClassItem> {
    if (b == 119 || b == 87) && s.op_on(op::ESC_W_WORD) {
        Some(ClassItem::Word { neg: b == 87 })
    } else if (b == 100 || b == 68) && s.op_on(op::ESC_D_DIGIT) {
        Some(ClassItem::Digit { neg: b == 68 })
    } else if (b == 115 || b == 83) && s.op_on(op::ESC_S_WHITE_SPACE) {
        Some(ClassItem::Space { neg: b == 83 })
    } else if (b == 104 || b == 72) && s.op2_on(op2::ESC_H_XDIGIT) {
        Some(ClassItem::Xdigit { neg: b == 72 })
    } else {
        None
    }
}

/// The code points at `a..b`.
pub open spec fn codes_between(codes: Seq<(usize, u32)>, a: int, b: int) -> Seq<u32> {
    Seq::new((b - a) as nat, |k: int| codes[a + k].1)
}

/// A code point that stands for itself under syntax `s` wherever it
/// appears: an ASCII letter or digit that the syntax does not make a
/// variable meta character.
pub open spec fn text_code(s: Syntax, c: u32) -> bool {
    &&& ((48 <= c <= 57) || (65 <= c <= 90) || (97 <= c <= 122))
    &&& !(s.op_on(op::VARIABLE_META_CHARACTERS) && (c == s.meta_anychar || c
        == s.meta_anychar_anytime))
}

/// The pattern from `i` to its end is plain text under syntax `s`.
pub open spec fn text_from(s: Syntax, codes: Seq<(usize, u32)>, i: int) -> bool {
    forall|k: int| i <= k < codes.len() ==> text_code(s, #[trigger] codes[k].1)
}

/// The pattern text `p` is plain text under syntax `s`.
pub open spec fn text_chars(s: Syntax, p: Seq<char>) -> bool {
    forall|k: int| 0 <= k < p.len() ==> #[trigger] text_char(s, p[k])
}

/// An ASCII letter or digit that syntax `s` does not make a variable meta
/// character.
pub open spec fn text_char(s: Syntax, c: char) -> bool {
    &&& (('0' <= c <= '9') || ('A' <= c <= 'Z') || ('a' <= c <= 'z'))
    &&& text_code(s, c as u32)
}

/// ASCII bytes decode in UTF-8 one to one.
pub proof fn lemma_decoded_ascii(bytes: Seq<u8>, i: int)
    requires
        0 <= i <= bytes.len(),
        forall|k: int| 0 <= k < bytes.len() ==> #[trigger] bytes[k] < 0x80,
    ensures
        decoded(Encoding::UTF8, bytes, i) matches Some(cs) && cs.len() == bytes.len() - i && forall|
            k: int,
        | 0 <= k < cs.len() ==> #[trigger] cs[k].1 == bytes[i + k] as u32,
    decreases bytes.len() - i,
{
    if i < bytes.len() {
        lemma_decoded_ascii(bytes, i + 1);
        let rest = bytes.subrange(i, bytes.len() as int);
        assert(rest[0] == bytes[i]);
        assert(char_at_spec(Encoding::UTF8, bytes, i, bytes.len() as int) == Some(
            (bytes[i] as u32, 1nat),
        ));
        let tail = decoded(Encoding::UTF8, bytes, i + 1)->0;
        let cs = seq![(i as usize, bytes[i] as u32)] + tail;
        assert(decoded(Encoding::UTF8, bytes, i) == Some(cs));
        assert forall|k: int| 0 <= k < cs.len() implies #[trigger] cs[k].1 == bytes[i + k] as u32 by {
            if k > 0 {
                assert(cs[k] == tail[k - 1]);
            }
        }
    } else {
        assert(decoded(Encoding::UTF8, bytes, i) == Some(Seq::<(usize, u32)>::empty()));
    }
}

/// The code points at `a..b` are plain text under syntax `s`, and there is at
/// least one.
pub open spec fn text_run(s: Syntax, codes: Seq<(usize, u32)>, a: int, b: int) -> bool {
    &&& a < b
    &&& forall|k: int| a <= k < b ==> text_code(s, #[trigger] codes[k].1)
}

/// The UTF-8 bytes of a plain-text pattern decode to its characters, one
/// byte each.
pub proof fn lemma_text_str_decodes(syntax: Syntax, pattern: &str)
    requires
        text_chars(syntax, pattern@),
    ensures
        decoded(Encoding::UTF8, pattern.spec_bytes(), 0) is Some,
        ({
            let cs = decoded(Encoding::UTF8, pattern.spec_bytes(), 0)->0;
            &&& cs.len() == pattern@.len()
            &&& text_from(syntax, cs, 0)
            &&& Seq::new(cs.len(), |k: int| cs[k].1 as u8) =~= Seq::new(
                pattern@.len(),
                |k: int| pattern@[k] as u8,
            )
        }),
{
    assert(vstd::string::is_ascii(pattern)) by {
        assert forall|k: int| 0 <= k < pattern@.len() implies '\0' <= #[trigger] pattern@[k]
            <= '\u{7f}' by {
            assert(text_char(syntax, pattern@[k]));
        }
    }
    vstd::string::is_ascii_spec_bytes(pattern);
    let bytes = pattern.spec_bytes();
    assert forall|k: int| 0 <= k < bytes.len() implies #[trigger] bytes[k] < 0x80 && text_code(
        syntax,
        bytes[k] as u32,
    ) by {
        assert(text_char(syntax, pattern@[k]));
        assert(bytes[k] == pattern@[k] as u8);
    }
    lemma_decoded_ascii(bytes, 0);
    let cs = decoded(Encoding::UTF8, bytes, 0)->0;
    assert forall|k: int| 0 <= k < cs.len() implies text_code(syntax, #[trigger] cs[k].1) by {
        assert(cs[k].1 == bytes[0 + k] as u32);
        assert(text_code(syntax, bytes[k] as u32));
    }
    assert forall|k: int| 0 <= k < cs.len() implies cs[k].1 as u8 == pattern@[k] as u8 by {
        assert(cs[k].1 == bytes[0 + k] as u32);
        assert(bytes[k] == pattern@[k] as u8);
    }
}

/// A tree of plain text calls no group, so it recurses nowhere.
proof fn lemma_text_not_left_recursive(n: Node, names: Seq<Option<String>>)
    requires
        text_tree(n),
    ensures
        !left_recursive(n, names),
{
    if let Node::Concat(v) = n {
        lemma_chars_not_left_recursive(v, 0, names);
    }
}

proof fn lemma_chars_not_left_recursive(v: Vec<Node>, i: int, names: Seq<Option<String>>)
    requires
        all_chars(v@),
        0 <= i,
    ensures
        !left_recursive_any(v, i, names),
    decreases v@.len() - i,
{
    if i < v@.len() {
        assert(v@[i] is Char);
        assert(!left_recursive(v@[i], names));
        lemma_chars_not_left_recursive(v, i + 1, names);
    }
}

/// A byte that starts white space or a comment in extended mode.
pub open spec fn ws_start(c: Option<u8>) -> bool {
    c matches Some(b) && (b == 35 || b == 32 || b == 9 || b == 10 || b == 13 || b == 12)
}

impl<'a> Parser<'a> {
    /// The cursor is inside the pattern, the nesting depth within bounds, and
    /// one name slot exists per group.
    pub open spec fn wf(&self) -> bool {
        &&& self.i <= self.codes@.len()
        &&& self.codes@.len() < usize::MAX
        &&& self.depth <= MAX_PARSE_DEPTH
        &&& self.names@.len() == self.capture_count
        &&& self.capture_count <= self.i + 1
    }

    /// `next` continues `self`: same pattern and syntax, cursor not moved
    /// back, same nesting depth, a named group once seen stays seen, still
    /// well formed.
    pub open spec fn advanced_to(&self, next: &Parser<'a>) -> bool {
        &&& next.pat@ == self.pat@
        &&& next.codes@ == self.codes@
        &&& next.syntax == self.syntax
        &&& next.i >= self.i
        &&& next.depth == self.depth
        &&& next.capture_count >= self.capture_count
        &&& (self.has_named ==> next.has_named)
        &&& next.wf()
    }

    /// `next` continues `self` by moving the cursor alone.
    pub open spec fn only_moved(&self, next: &Parser<'a>) -> bool {
        &&& self.advanced_to(next)
        &&& next.options == self.options
        &&& next.capture_count == self.capture_count
        &&& next.names@ == self.names@
        &&& next.has_named == self.has_named
    }

    /// Room left, for termination measures.
    pub open spec fn left(&self) -> int {
        self.codes@.len() - self.i
    }

    fn err(&self, msg: &str) -> (e: Error)
        ensures
            e.kind == ErrorKind::Compile,
            e.position == Some(
                if self.i < self.codes@.len() {
                    self.codes@[self.i as int].0
                } else {
                    self.pat@.len() as usize
                },
            ),
            e.msg() == msg@,
    {
        let pos = if self.i < self.codes.len() {
            self.codes[self.i].0
        } else {
            self.pat.len()
        };
        Error::compile(pos, msg)
    }

    fn peek_code(&self) -> (r: Option<u32>)
        ensures
            r == code_at(self.codes@, self.i as int),
    {
        if self.i < self.codes.len() {
            Some(self.codes[self.i].1)
        } else {
            None
        }
    }

    fn peek_code_at(&self, n: usize) -> (r: Option<u32>)
        ensures
            r == code_at(self.codes@, self.i + n),
    {
        if n < self.codes.len() && self.i < self.codes.len() - n {
            Some(self.codes[self.i + n].1)
        } else {
            None
        }
    }

    fn peek_byte(&self) -> (r: Option<u8>)
        ensures
            r == byte_at(self.codes@, self.i as int),
    {
        match self.peek_code() {
            Some(c) => if c < 256 {
                Some(c as u8)
            } else {
                None
            },
            None => None,
        }
    }

    fn is_at(&self, b: u8) -> (r: bool)
        ensures
            r == (byte_at(self.codes@, self.i as int) == Some(b)),
            r ==> self.i < self.codes@.len(),
    {
        match self.peek_byte() {
            Some(x) => x == b,
            None => false,
        }
    }

    fn is_at_ahead(&self, n: usize, b: u8) -> (r: bool)
        ensures
            r == (code_at(self.codes@, self.i + n) == Some(b as u32)),
            r ==> self.i + n < self.codes@.len(),
    {
        match self.peek_code_at(n) {
            Some(c) => c == b as u32,
            None => false,
        }
    }

    /// Step over one code point known to be there.
    fn skip(&mut self, n: usize)
        requires
            old(self).wf(),
            old(self).i + n <= old(self).codes@.len(),
        ensures
            final(self).i == old(self).i + n,
            old(self).only_moved(&*final(self)),
            final(self).options == old(self).options,
    {
        self.i = self.i + n;
    }

    fn bump(&mut self) -> (r: Result<u32, Error>)
        requires
            old(self).wf(),
        ensures
            r is Ok ==> old(self).only_moved(&*final(self)) && final(self).i == old(self).i + 1
                && old(self).i < old(self).codes@.len(),
            r is Ok ==> r->Ok_0 == old(self).codes@[old(self).i as int].1,
            r is Ok <==> old(self).i < old(self).codes@.len(),
            r is Err ==> final(self).i == old(self).i,
            final(self).options == old(self).options,
    {
        match self.peek_code() {
            Some(code) => {
                self.i = self.i + 1;
                Ok(code)
            },
            None => Err(self.err("unexpected end of pattern")),
        }
    }

    fn skip_ws_if_extend(&mut self) -> (r: Result<(), Error>)
        requires
            old(self).wf(),
        ensures
            r is Ok,
            old(self).only_moved(&*final(self)),
            final(self).options == old(self).options,
            final(self).capture_count == old(self).capture_count,
            !old(self).options.has(Options::extend_spec()) ==> final(self).i == old(self).i,
            old(self).options.has(Options::extend_spec()) ==> !ws_start(
                byte_at(final(self).codes@, final(self).i as int),
            ),
            !ws_start(byte_at(old(self).codes@, old(self).i as int)) ==> final(self).i == old(
                self,
            ).i,
    {
        if !self.options.contains(Options::extend()) {
            return Ok(());
        }
        loop
            invariant
                old(self).only_moved(&*self),
                self.options == old(self).options,
                self.capture_count == old(self).capture_count,
                !ws_start(byte_at(old(self).codes@, old(self).i as int)) ==> self.i == old(self).i,
            ensures
                old(self).only_moved(&*self),
                self.options == old(self).options,
                self.capture_count == old(self).capture_count,
                !ws_start(byte_at(self.codes@, self.i as int)),
                !ws_start(byte_at(old(self).codes@, old(self).i as int)) ==> self.i == old(self).i,
            decreases self.left(),
        {
            match self.peek_byte() {
                Some(b) => {
                    if b == 35 {
                        self.skip(1);
                        let ghost mark = self.i;
                        while self.peek_byte().is_some() && !self.is_at(10)
                            invariant
                                old(self).only_moved(&*self),
                                self.i >= mark,
                                self.options == old(self).options,
                                self.capture_count == old(self).capture_count,
                            decreases self.left(),
                        {
                            self.skip(1);
                        }
                    } else if b == 32 || b == 9 || b == 10 || b == 13 || b == 12 {
                        self.skip(1);
                    } else {
                        break;
                    }
                },
                None => break,
            }
        }
        Ok(())
    }

    fn check_depth(&self) -> (r: Result<(), Error>)
        ensures
            r is Ok <==> self.depth <= MAX_PARSE_DEPTH,
            r is Err ==> r->Err_0.kind == ErrorKind::ParseDepthLimit,
    {
        if self.depth > MAX_PARSE_DEPTH {
            return Err(Error::kind_msg(ErrorKind::ParseDepthLimit, "parse depth"));
        }
        Ok(())
    }

    /// `a|b|...` up to a `)` or the end.
    fn parse_alts(&mut self) -> (r: Result<Node, Error>)
        requires
            old(self).wf(),
        ensures
            r is Ok ==> old(self).advanced_to(&*final(self)),
            old(self).depth < MAX_PARSE_DEPTH && text_from(
                old(self).syntax,
                old(self).codes@,
                old(self).i as int,
            ) ==> (r matches Ok(n) && text_tree(n) && text_of(n) =~= Seq::new(
                (old(self).codes@.len() - old(self).i) as nat,
                |k: int| old(self).codes@[old(self).i + k].1,
            )) && final(self).i == old(self).codes@.len()
                && final(self).capture_count == old(self).capture_count,
        decreases old(self).left(), 9int,
    {
        self.depth = self.depth + 1;
        if self.depth > MAX_PARSE_DEPTH {
            return Err(Error::kind_msg(ErrorKind::ParseDepthLimit, "parse depth"));
        }
        let ghost start = *self;
        let mut alts: Vec<Node> = Vec::new();
        loop
            invariant_except_break
                text_from(old(self).syntax, old(self).codes@, old(self).i as int) ==> alts@.len()
                    == 0 && self.i == old(self).i && self.capture_count == old(self).capture_count,
            invariant
                start.advanced_to(&*self),
                self.i >= old(self).i,
                self.codes@ == old(self).codes@,
                start.i == old(self).i,
                start.syntax == old(self).syntax,
                start.depth == old(self).depth + 1,
            ensures
                start.advanced_to(&*self),
                self.i >= old(self).i,
                self.codes@ == old(self).codes@,
                text_from(old(self).syntax, old(self).codes@, old(self).i as int) ==> alts@.len()
                    == 1 && text_tree(alts@[0]) && text_of(alts@[0]) =~= Seq::new(
                    (old(self).codes@.len() - old(self).i) as nat,
                    |k: int| old(self).codes@[old(self).i + k].1,
                ) && self.i == old(self).codes@.len() && self.capture_count == old(
                    self,
                ).capture_count,
            decreases self.left(),
        {
            let ghost before = self.i;
            self.skip_ws_if_extend()?;
            let n = self.parse_concat()?;
            alts.push(n);
            self.skip_ws_if_extend()?;
            let bar = if self.syntax.has_op(op::VBAR_ALT) && self.is_at(124) {
                true
            } else if self.syntax.has_op(op::ESC_VBAR_ALT) && self.is_at(92) {
                self.is_at_ahead(1, 124)
            } else {
                false
            };
            if !bar {
                break;
            }
            if self.is_at(92) {
                self.skip(2);
            } else {
                self.skip(1);
            }
        }
        self.depth = self.depth - 1;
        Ok(alt(alts))
    }

    /// A run of quantified atoms up to `|`, `)` or the end.
    fn parse_concat(&mut self) -> (r: Result<Node, Error>)
        requires
            old(self).wf(),
        ensures
            r is Ok ==> old(self).advanced_to(&*final(self)),
            text_from(old(self).syntax, old(self).codes@, old(self).i as int) ==> (r matches Ok(n)
                && text_tree(n) && text_of(n) =~= Seq::new(
                (old(self).codes@.len() - old(self).i) as nat,
                |k: int| old(self).codes@[old(self).i + k].1,
            )) && final(self).i == old(self).codes@.len()
                && final(self).capture_count == old(self).capture_count,
        decreases old(self).left(), 8int,
    {
        let mut nodes: Vec<Node> = Vec::new();
        loop
            invariant
                old(self).advanced_to(&*self),
                text_from(old(self).syntax, old(self).codes@, old(self).i as int) ==> nodes@ =~= Seq::new(
                    (self.i - old(self).i) as nat,
                    |k: int| Node::Char(old(self).codes@[old(self).i + k].1),
                ) && self.capture_count == old(self).capture_count,
            ensures
                old(self).advanced_to(&*self),
                text_from(old(self).syntax, old(self).codes@, old(self).i as int) ==> nodes@ =~= Seq::new(
                    (self.i - old(self).i) as nat,
                    |k: int| Node::Char(old(self).codes@[old(self).i + k].1),
                ) && self.i == old(self).codes@.len() && self.capture_count == old(
                    self,
                ).capture_count,
            decreases self.left(),
        {
            self.skip_ws_if_extend()?;
            if self.i >= self.codes.len() {
                break;
            }
            if self.is_at(124) && self.syntax.has_op(op::VBAR_ALT) {
                break;
            }
            if self.is_at(41) {
                break;
            }
            if self.is_at(92) && self.syntax.has_op(op::ESC_VBAR_ALT) && self.is_at_ahead(1, 124) {
                break;
            }
            let n = self.parse_quantified()?;
            nodes.push(n);
        }
        Ok(concat(nodes))
    }

    /// An atom and the quantifier that follows it, if any.
    fn parse_quantified(&mut self) -> (r: Result<Node, Error>)
        requires
            old(self).wf(),
        ensures
            r is Ok ==> old(self).advanced_to(&*final(self)),
            r is Ok && old(self).i < old(self).codes@.len() ==> final(self).i > old(self).i,
            old(self).i < old(self).codes@.len() && text_from(
                old(self).syntax,
                old(self).codes@,
                old(self).i as int,
            ) ==> r == Ok::<Node, Error>(Node::Char(old(self).codes@[old(self).i as int].1))
                && final(self).i == old(self).i + 1 && final(self).capture_count == old(
                self,
            ).capture_count,
        decreases old(self).left(), 7int,
    {
        let atom = self.parse_atom()?;
        self.skip_ws_if_extend()?;
        let (min, max, greedy, possessive, opt_exact) = match self.try_quant()? {
            Some(q) => q,
            None => return Ok(atom),
        };
        let inner = if opt_exact {
            Node::Repeat { inner: Box::new(atom), min, max, greedy: true, possessive: false }
        } else {
            atom
        };
        Ok(
            Node::Repeat {
                inner: Box::new(inner),
                min: if opt_exact { 0 } else { min },
                max: if opt_exact { Some(1) } else { max },
                greedy,
                possessive,
            },
        )
    }

    fn try_quant(&mut self) -> (r: Result<Option<(u32, Option<u32>, bool, bool, bool)>, Error>)
        requires
            old(self).wf(),
        ensures
            r is Ok ==> old(self).only_moved(&*final(self)),
            ({
                let c = old(self).codes@;
                let s = old(self).syntax;
                let i0 = old(self).i as int;
                if simple_quant(s, c, i0) is Some {
                    let (mn, mx, j) = simple_quant(s, c, i0).unwrap();
                    let (f, e) = quant_suffix(s, c, j, mn, mx);
                    r == Ok::<Option<(u32, Option<u32>, bool, bool, bool)>, Error>(
                        Some((mn, mx, f.0, f.1, f.2)),
                    ) && final(self).i == e
                } else if brace_quant_at(s, c, i0) {
                    let bi = if byte_at(c, i0) == Some(123u8) {
                        i0
                    } else {
                        i0 + 1
                    };
                    match brace_interval(s, c, bi) {
                        None => r is Err,
                        Some((mm, j)) => {
                            let (f, e) = quant_suffix(s, c, j, mm.0, mm.1);
                            r == Ok::<Option<(u32, Option<u32>, bool, bool, bool)>, Error>(
                                Some((mm.0, mm.1, f.0, f.1, f.2)),
                            ) && final(self).i == e
                        },
                    }
                } else {
                    r == Ok::<Option<(u32, Option<u32>, bool, bool, bool)>, Error>(None)
                        && final(self).i == old(self).i
                }
            }),
    {
        let b = match self.peek_byte() {
            Some(b) => b,
            None => return Ok(None),
        };
        let (min, max) = if b == 42 && self.syntax.has_op(op::ASTERISK_ZERO_INF) {
            self.skip(1);
            (0u32, None)
        } else if b == 43 && self.syntax.has_op(op::PLUS_ONE_INF) {
            self.skip(1);
            (1u32, None)
        } else if b == 63 && self.syntax.has_op(op::QMARK_ZERO_ONE) {
            self.skip(1);
            (0u32, Some(1u32))
        } else if b == 123 && self.syntax.has_op(op::BRACE_INTERVAL) {
            self.parse_brace()?
        } else if b == 92 {
            if self.syntax.has_op(op::ESC_ASTERISK_ZERO_INF) && self.is_at_ahead(1, 42) {
                self.skip(2);
                (0u32, None)
            } else if self.syntax.has_op(op::ESC_PLUS_ONE_INF) && self.is_at_ahead(1, 43) {
                self.skip(2);
                (1u32, None)
            } else if self.syntax.has_op(op::ESC_QMARK_ZERO_ONE) && self.is_at_ahead(1, 63) {
                self.skip(2);
                (0u32, Some(1u32))
            } else if self.syntax.has_op(op::ESC_BRACE_INTERVAL) && self.is_at_ahead(1, 123) {
                self.skip(1);
                self.parse_brace()?
            } else {
                return Ok(None);
            }
        } else {
            return Ok(None);
        };
        let mut greedy = true;
        let mut possessive = false;
        if self.is_at(63) && self.syntax.has_op(op::QMARK_NON_GREEDY) {
            // FIXED_INTERVAL_IS_GREEDY_ONLY: `{n}?` is `(?:{n})?`, not lazy `{n}`.
            let fixed = match max {
                Some(m) => m == min,
                None => false,
            };
            if self.syntax.has_behavior(behavior::FIXED_INTERVAL_IS_GREEDY_ONLY) && fixed {
                self.skip(1);
                return Ok(Some((min, max, true, false, true)));
            }
            self.skip(1);
            greedy = false;
        } else if self.is_at(43) && (self.syntax.has_op2(op2::PLUS_POSSESSIVE_REPEAT)
            || self.syntax.has_op2(op2::PLUS_POSSESSIVE_INTERVAL)) {
            self.skip(1);
            possessive = true;
        }
        Ok(Some((min, max, greedy, possessive, false)))
    }

    /// Decimal digits at the cursor: how many, and their value when it fits
    /// a `u32`.
    fn read_decimal(&mut self) -> (r: (usize, Option<u32>))
        requires
            old(self).wf(),
        ensures
            old(self).only_moved(&*final(self)),
            final(self).i == old(self).i + r.0,
            final(self).options == old(self).options,
            final(self).capture_count == old(self).capture_count,
            all_digits(old(self).codes@, old(self).i as int, final(self).i as int),
            !is_digit_at(old(self).codes@, final(self).i as int),
            dec_value(old(self).codes@, old(self).i as int, final(self).i as int) >= 0,
            r.1 == (if dec_value(old(self).codes@, old(self).i as int, final(self).i as int)
                <= u32::MAX {
                Some(dec_value(old(self).codes@, old(self).i as int, final(self).i as int) as u32)
            } else {
                None
            }),
    {
        let mut count: usize = 0;
        let mut val: Option<u32> = Some(0);
        let ghost i0 = self.i as int;
        loop
            invariant
                old(self).only_moved(&*self),
                self.i == old(self).i + count,
                i0 == old(self).i,
                self.options == old(self).options,
                self.capture_count == old(self).capture_count,
                all_digits(self.codes@, i0, self.i as int),
                dec_value(self.codes@, i0, self.i as int) >= 0,
                val == (if dec_value(self.codes@, i0, self.i as int) <= u32::MAX {
                    Some(dec_value(self.codes@, i0, self.i as int) as u32)
                } else {
                    None
                }),
            ensures
                old(self).only_moved(&*self),
                self.i == old(self).i + count,
                self.options == old(self).options,
                self.capture_count == old(self).capture_count,
                all_digits(self.codes@, i0, self.i as int),
                !is_digit_at(self.codes@, self.i as int),
                dec_value(self.codes@, i0, self.i as int) >= 0,
                val == (if dec_value(self.codes@, i0, self.i as int) <= u32::MAX {
                    Some(dec_value(self.codes@, i0, self.i as int) as u32)
                } else {
                    None
                }),
            decreases self.left(),
        {
            match self.peek_byte() {
                Some(b) => {
                    if !is_digit_byte(b) {
                        break;
                    }
                    let ghost before = self.i as int;
                    let ghost d0 = dec_value(self.codes@, i0, before);
                    self.skip(1);
                    count = count + 1;
                    proof {
                        assert(self.codes@[before].1 == b as u32);
                        assert(dec_value(self.codes@, i0, before + 1) == d0 * 10 + (b - 48));
                        assert forall|k: int| i0 <= k < self.i implies #[trigger] is_digit_at(
                            self.codes@,
                            k,
                        ) by {
                            if k < before {
                                assert(is_digit_at(self.codes@, k));
                            }
                        }
                    }
                    val = match val {
                        Some(v) => if v <= 429496729 && (v < 429496729 || b <= 53) {
                            Some(v * 10 + (b - 48) as u32)
                        } else {
                            None
                        },
                        None => None,
                    };
                },
                None => break,
            }
        }
        (count, val)
    }

    fn parse_brace(&mut self) -> (r: Result<(u32, Option<u32>), Error>)
        requires
            old(self).wf(),
        ensures
            r is Ok ==> old(self).only_moved(&*final(self)),
            r is Ok <==> brace_interval(old(self).syntax, old(self).codes@, old(self).i as int) is Some,
            r matches Ok(v) ==> brace_interval(old(self).syntax, old(self).codes@, old(self).i as int)
                == Some((v, final(self).i as int)),
    {
        if !self.is_at(123) {
            return Err(self.err("expected '{'"));
        }
        let brace_at = self.i;
        self.skip(1);
        let (nl, lv) = self.read_decimal();
        proof {
            lemma_digit_end(self.codes@, brace_at + 1, self.i as int);
        }
        let mut lower: Option<u32> = if nl == 0 {
            None
        } else {
            match lv {
                Some(v) => Some(v),
                None => return Err(self.err("bad repeat")),
            }
        };
        let mut upper: Option<u32> = lower;
        if self.is_at(44) {
            self.skip(1);
            let ghost k = self.i as int;
            let (nu, uv) = self.read_decimal();
            proof {
                lemma_digit_end(self.codes@, k, self.i as int);
            }
            upper = if nu == 0 {
                None
            } else {
                match uv {
                    Some(v) => Some(v),
                    None => return Err(self.err("bad repeat")),
                }
            };
            if lower.is_none() {
                if self.syntax.has_behavior(behavior::ALLOW_INTERVAL_LOW_ABBREV) {
                    lower = Some(0);
                } else {
                    return Err(self.err("invalid repeat range"));
                }
            }
        }
        if !self.is_at(125) {
            if self.syntax.has_op(op::ESC_BRACE_INTERVAL) && self.is_at(92) && self.is_at_ahead(
                1,
                125,
            ) {
                self.skip(2);
            } else if self.syntax.has_behavior(behavior::ALLOW_INVALID_INTERVAL) {
                self.i = brace_at;
                return Ok((1, Some(1)));
            } else {
                return Err(self.err("incomplete {n,m}"));
            }
        } else {
            self.skip(1);
        }
        let min = match lower {
            Some(l) => l,
            None => 0,
        };
        match upper {
            Some(u) => if u < min {
                return Err(self.err("upper smaller than lower"));
            },
            None => {},
        }
        Ok((min, upper))
    }

    fn any_node(&self) -> (r: Node)
        ensures
            r == (Node::Any { newline: self.options.has(Options::multiline_spec()) }),
    {
        Node::Any { newline: self.options.contains(Options::multiline()) }
    }

    /// One atom: a character, class, group, escape or anchor.
    fn parse_atom(&mut self) -> (r: Result<Node, Error>)
        requires
            old(self).wf(),
        ensures
            r is Ok ==> old(self).advanced_to(&*final(self)),
            r is Ok && old(self).i < old(self).codes@.len() ==> final(self).i > old(self).i,
            old(self).i < old(self).codes@.len() && text_code(
                old(self).syntax,
                old(self).codes@[old(self).i as int].1,
            ) ==> r == Ok::<Node, Error>(Node::Char(old(self).codes@[old(self).i as int].1))
                && final(self).i == old(self).i + 1 && final(self).capture_count == old(
                self,
            ).capture_count,
        decreases old(self).left(), 6int,
    {
        self.skip_ws_if_extend()?;
        let code = match self.peek_code() {
            Some(c) => c,
            None => return Ok(Node::Empty),
        };
        if code < 256 {
            let b = code as u8;
            if self.syntax.has_op(op::VARIABLE_META_CHARACTERS) {
                if code != 0 && code == self.syntax.meta_anychar {
                    self.skip(1);
                    return Ok(self.any_node());
                }
                if code != 0 && code == self.syntax.meta_anychar_anytime {
                    self.skip(1);
                    let any = self.any_node();
                    return Ok(
                        Node::Repeat {
                            inner: Box::new(any),
                            min: 0,
                            max: None,
                            greedy: true,
                            possessive: false,
                        },
                    );
                }
            }
            if b == 46 && self.syntax.has_op(op::DOT_ANYCHAR) {
                self.skip(1);
                return Ok(self.any_node());
            }
            if b == 94 && self.syntax.has_op(op::LINE_ANCHOR) {
                self.skip(1);
                return Ok(
                    if self.options.contains(Options::singleline()) {
                        Node::Anchor(Anchor::Bos)
                    } else {
                        Node::Anchor(Anchor::Bol)
                    },
                );
            }
            if b == 36 && self.syntax.has_op(op::LINE_ANCHOR) {
                self.skip(1);
                return Ok(
                    if self.options.contains(Options::singleline()) {
                        Node::Anchor(Anchor::EosNl)
                    } else {
                        Node::Anchor(Anchor::Eol)
                    },
                );
            }
            if b == 91 && self.syntax.has_op(op::BRACKET_CC) {
                return self.parse_class();
            }
            if b == 40 && self.syntax.has_op(op::LPAREN_SUBEXP) {
                return self.parse_group();
            }
            if b == 92 {
                return self.parse_escape();
            }
        }
        let c = self.bump()?;
        Ok(Node::Char(c))
    }

    /// `(` at the cursor: any kind of group.
    fn parse_group(&mut self) -> (r: Result<Node, Error>)
        requires
            old(self).wf(),
            old(self).i < old(self).codes@.len(),
        ensures
            r is Ok ==> old(self).advanced_to(&*final(self)) && final(self).i > old(self).i,
            ({
                let b1 = byte_at(old(self).codes@, old(self).i + 1);
                !(b1 == Some(63u8) && old(self).syntax.op2_on(op2::QMARK_GROUP_EFFECT)) && !(b1
                    == Some(42u8) && old(self).syntax.op2_on(op2::ASTERISK_CALLOUT_NAME)) ==> (r is Ok
                    ==> if group_captures(false, old(self).options, old(self).has_named) {
                    r matches Ok(Node::Capture { index, name, history, .. }) && index == old(
                        self,
                    ).capture_count && name is None && !history
                } else {
                    r matches Ok(Node::Group(_))
                })
            }),
        decreases old(self).left(), 5int,
    {
        self.skip(1);
        if self.is_at(63) && self.syntax.has_op2(op2::QMARK_GROUP_EFFECT) {
            self.skip(1);
            return self.parse_qmark_group();
        }
        if self.is_at(42) && self.syntax.has_op2(op2::ASTERISK_CALLOUT_NAME) {
            return self.parse_named_callout();
        }
        self.parse_capturing(None, false)
    }

    /// The body of a group that may capture, and its `)`.
    fn parse_capturing(&mut self, name: Option<String>, history: bool) -> (r: Result<Node, Error>)
        requires
            old(self).wf(),
            old(self).capture_count <= old(self).i,
        ensures
            r is Ok ==> old(self).advanced_to(&*final(self)),
            r is Ok ==> if group_captures(name is Some, old(self).options, old(self).has_named) {
                r matches Ok(Node::Capture { index, name: nm, history: h, .. }) && index == old(
                    self,
                ).capture_count && nm == name && h == history
            } else {
                r matches Ok(Node::Group(_))
            },
        decreases old(self).left() + 1, 1int,
    {
        let capture_unnamed = !self.has_named || self.options.contains(Options::capture_group());
        let dont = self.options.contains(Options::dont_capture_group());
        let named = name.is_some();
        let capturing = if named {
            true
        } else if dont {
            false
        } else {
            capture_unnamed
        };
        let idx = if capturing {
            let i = self.capture_count;
            self.capture_count = self.capture_count + 1;
            let nm = match &name {
                Some(s) => Some(s.clone()),
                None => None,
            };
            self.names.push(nm);
            if named {
                self.has_named = true;
            }
            Some(i)
        } else {
            None
        };
        let inner = self.parse_alts()?;
        if !self.is_at(41) {
            return Err(self.err("unmatched parenthesis"));
        }
        self.skip(1);
        Ok(
            match idx {
                Some(index) => Node::Capture { index, name, inner: Box::new(inner), history },
                None => Node::Group(Box::new(inner)),
            },
        )
    }

    fn expect_close(&mut self) -> (r: Result<(), Error>)
        requires
            old(self).wf(),
        ensures
            r is Ok ==> old(self).only_moved(&*final(self)) && final(self).i > old(self).i,
            final(self).options == old(self).options,
            r is Ok <==> byte_at(old(self).codes@, old(self).i as int) == Some(41u8),
            r is Ok ==> final(self).i == old(self).i + 1,
            r is Err ==> final(self).i == old(self).i,
    {
        if !self.is_at(41) {
            return Err(self.err("unmatched parenthesis"));
        }
        self.skip(1);
        Ok(())
    }

    /// After `(?`: the group kinds introduced by a question mark.
    fn parse_qmark_group(&mut self) -> (r: Result<Node, Error>)
        requires
            old(self).wf(),
            old(self).capture_count <= old(self).i,
        ensures
            r is Ok ==> old(self).advanced_to(&*final(self)),
            ({
                let c = old(self).codes@;
                let i0 = old(self).i as int;
                match byte_at(c, i0) {
                    None => r is Err,
                    Some(b) => if b == 58 {
                        r is Ok ==> (r matches Ok(Node::Group(_)))
                    } else if b == 35 {
                        let e = comment_end(c, i0 + 1);
                        &&& (r is Ok <==> byte_at(c, e) == Some(41u8))
                        &&& (r is Ok ==> r == Ok::<Node, Error>(Node::Empty) && final(self).i == e
                            + 1)
                    } else if b == 61 || b == 33 {
                        r is Ok ==> (r matches Ok(Node::Look { behind, negative, .. }) && !behind
                            && negative == (b == 33))
                    } else if b == 62 {
                        r is Ok ==> (r matches Ok(Node::Atomic(_)))
                    } else {
                        true
                    },
                }
            }),
        decreases old(self).left() + 1, 4int,
    {
        let b = match self.peek_byte() {
            Some(b) => b,
            None => return Err(self.err("unterminated group")),
        };
        if b == 58 {
            self.skip(1);
            let inner = self.parse_alts()?;
            self.expect_close()?;
            Ok(Node::Group(Box::new(inner)))
        } else if b == 35 {
            self.skip(1);
            while self.peek_byte().is_some() && !self.is_at(41)
                invariant
                    old(self).advanced_to(&*self),
                    comment_end(self.codes@, self.i as int) == comment_end(
                        old(self).codes@,
                        old(self).i + 1,
                    ),
                decreases self.left(),
            {
                self.skip(1);
            }
            self.expect_close()?;
            Ok(Node::Empty)
        } else if b == 61 || b == 33 {
            self.skip(1);
            let inner = self.parse_alts()?;
            self.expect_close()?;
            Ok(Node::Look { behind: false, negative: b == 33, inner: Box::new(inner) })
        } else if b == 62 {
            self.skip(1);
            let inner = self.parse_alts()?;
            self.expect_close()?;
            Ok(Node::Atomic(Box::new(inner)))
        } else if b == 126 && self.syntax.has_op2(op2::QMARK_TILDE_ABSENT_GROUP) {
            self.parse_absent()
        } else if b == 40 && self.syntax.has_op2(op2::QMARK_LPAREN_IF_ELSE) {
            self.parse_conditional()
        } else if b == 60 {
            self.parse_lt_group()
        } else if b == 39 && self.syntax.has_op2(op2::QMARK_LT_NAMED_GROUP) {
            self.skip(1);
            let name = self.read_name(39)?;
            self.parse_capturing(Some(name), false)
        } else if b == 64 {
            self.skip(1);
            self.parse_capturing(None, true)
        } else if b == 80 && self.syntax.has_op2(op2::QMARK_CAPITAL_P_NAME) {
            self.parse_python_name()
        } else if b == 123 && self.syntax.has_op2(op2::QMARK_BRACE_CALLOUT_CONTENTS) {
            self.parse_contents_callout()
        } else if (b == 82 || is_digit_byte(b) || b == 38) && self.syntax.has_op2(
            op2::QMARK_PERL_SUBEXP_CALL,
        ) {
            self.parse_perl_call()
        } else {
            self.parse_options_group()
        }
    }

    /// After `(?` at a `<`: look-behind or a named group.
    fn parse_lt_group(&mut self) -> (r: Result<Node, Error>)
        requires
            old(self).wf(),
            old(self).capture_count <= old(self).i,
            old(self).i < old(self).codes@.len(),
        ensures
            r is Ok ==> old(self).advanced_to(&*final(self)),
            ({
                let c = old(self).codes@;
                let i1 = old(self).i + 1;
                let b1 = byte_at(c, i1);
                if b1 == Some(61u8) || b1 == Some(33u8) {
                    r is Ok ==> (r matches Ok(Node::Look { behind, negative, .. }) && behind
                        && negative == (b1 == Some(33u8)))
                } else if old(self).syntax.op2_on(op2::QMARK_LT_NAMED_GROUP) {
                    scalars_of(c, i1, stop_at(c, i1, 62u8)).len() == 0 ==> r is Err
                } else {
                    r is Err
                }
            }),
        decreases old(self).left() + 1, 3int,
    {
        self.skip(1);
        if self.is_at(61) || self.is_at(33) {
            let negative = self.is_at(33);
            self.skip(1);
            let inner = self.parse_alts()?;
            self.expect_close()?;
            Ok(Node::Look { behind: true, negative, inner: Box::new(inner) })
        } else if self.syntax.has_op2(op2::QMARK_LT_NAMED_GROUP) {
            let name = self.read_name(62)?;
            self.parse_capturing(Some(name), false)
        } else {
            Err(self.err("invalid group"))
        }
    }

    /// After `(?` at a `P`: Python's `(?P<name>...)` and `(?P=name)`.
    fn parse_python_name(&mut self) -> (r: Result<Node, Error>)
        requires
            old(self).wf(),
            old(self).capture_count <= old(self).i,
            old(self).i < old(self).codes@.len(),
        ensures
            r is Ok ==> old(self).advanced_to(&*final(self)),
            ({
                let c = old(self).codes@;
                let i1 = old(self).i + 1;
                let b1 = byte_at(c, i1);
                if b1 == Some(60u8) {
                    scalars_of(c, i1 + 1, stop_at(c, i1 + 1, 62u8)).len() == 0 ==> r is Err
                } else if b1 == Some(61u8) {
                    let stop = stop_at(c, i1 + 1, 41u8);
                    let name = scalars_of(c, i1 + 1, stop);
                    &&& (r is Ok <==> name.len() > 0)
                    &&& (r is Ok ==> (r matches Ok(Node::Backref(Backref::Name(nm))) && nm@ == name
                        && final(self).i == stop + (if stop < c.len() {
                        1int
                    } else {
                        0int
                    })))
                } else {
                    r is Err
                }
            }),
        decreases old(self).left() + 1, 3int,
    {
        self.skip(1);
        if self.is_at(60) {
            self.skip(1);
            let name = self.read_name(62)?;
            self.parse_capturing(Some(name), false)
        } else if self.is_at(61) {
            self.skip(1);
            let name = self.read_name(41)?;
            Ok(Node::Backref(Backref::Name(name)))
        } else {
            Err(self.err("invalid (?P"))
        }
    }

    /// After `(?`: a Perl-style call `(?R)`, `(?&name)` or `(?n)`.
    fn parse_perl_call(&mut self) -> (r: Result<Node, Error>)
        requires
            old(self).wf(),
        ensures
            r is Ok ==> old(self).advanced_to(&*final(self)),
            ({
                let c = old(self).codes@;
                let i0 = old(self).i as int;
                let b0 = byte_at(c, i0);
                if b0 == Some(82u8) {
                    &&& (r is Ok <==> byte_at(c, i0 + 1) == Some(41u8))
                    &&& (r is Ok ==> r == Ok::<Node, Error>(Node::Call(CallTarget::Whole))
                        && final(self).i == i0 + 2)
                } else if b0 == Some(38u8) {
                    let stop = stop_at(c, i0 + 1, 41u8);
                    let name = scalars_of(c, i0 + 1, stop);
                    &&& (r is Ok <==> name.len() > 0)
                    &&& (r is Ok ==> (r matches Ok(Node::Call(CallTarget::Name(nm))) && nm@ == name
                        && final(self).i == stop + (if stop < c.len() {
                        1int
                    } else {
                        0int
                    })))
                } else {
                    let s = i0 + (if b0 == Some(45u8) || b0 == Some(43u8) {
                        1int
                    } else {
                        0int
                    });
                    let j = digit_end(c, s);
                    &&& (r is Ok <==> (j > s && dec_value(c, s, j) <= u32::MAX && byte_at(c, j)
                        == Some(41u8)))
                    &&& (r is Ok ==> r == Ok::<Node, Error>(
                        Node::Call(CallTarget::Number(signed_of(b0 == Some(45u8), dec_value(c, s, j) as u32))),
                    ) && final(self).i == j + 1)
                }
            }),
    {
        if self.is_at(82) {
            self.skip(1);
            self.expect_close()?;
            return Ok(Node::Call(CallTarget::Whole));
        }
        if self.is_at(38) {
            self.skip(1);
            let name = self.read_name(41)?;
            return Ok(Node::Call(CallTarget::Name(name)));
        }
        let n = self.read_signed_int()?;
        self.expect_close()?;
        Ok(Node::Call(CallTarget::Number(n)))
    }

    /// After `(?` at a `~`: the absent operator and its forms.
    fn parse_absent(&mut self) -> (r: Result<Node, Error>)
        requires
            old(self).wf(),
            old(self).i < old(self).codes@.len(),
        ensures
            r is Ok ==> old(self).advanced_to(&*final(self)),
            ({
                let c = old(self).codes@;
                let i1 = old(self).i + 1;
                if byte_at(c, i1) == Some(124u8) {
                    if byte_at(c, i1 + 1) == Some(41u8) {
                        (r matches Ok(Node::Absent { stopper, expr, kind }) && *stopper == Node::Empty
                            && expr is None && kind == AbsentKind::Clear) && final(self).i == i1 + 2
                    } else {
                        r is Ok ==> (r matches Ok(Node::Absent { expr, kind, .. }) && ((kind
                            == AbsentKind::Expression && expr is Some) || (kind == AbsentKind::Stopper
                            && expr is None)))
                    }
                } else {
                    r is Ok ==> (r matches Ok(Node::Absent { expr, kind, .. }) && kind
                        == AbsentKind::Repeater && expr is None)
                }
            }),
        decreases old(self).left() + 1, 3int,
    {
        self.skip(1);
        if self.is_at(124) {
            self.skip(1);
            if self.is_at(41) {
                self.skip(1);
                return Ok(
                    Node::Absent {
                        stopper: Box::new(Node::Empty),
                        expr: None,
                        kind: AbsentKind::Clear,
                    },
                );
            }
            let stopper = self.parse_alts()?;
            if self.is_at(124) {
                self.skip(1);
                let expr = self.parse_alts()?;
                self.expect_close()?;
                return Ok(
                    Node::Absent {
                        stopper: Box::new(stopper),
                        expr: Some(Box::new(expr)),
                        kind: AbsentKind::Expression,
                    },
                );
            }
            self.expect_close()?;
            return Ok(
                Node::Absent { stopper: Box::new(stopper), expr: None, kind: AbsentKind::Stopper },
            );
        }
        let inner = self.parse_alts()?;
        self.expect_close()?;
        Ok(Node::Absent { stopper: Box::new(inner), expr: None, kind: AbsentKind::Repeater })
    }

    /// After `(?` at a `(`: a conditional group.
    fn parse_conditional(&mut self) -> (r: Result<Node, Error>)
        requires
            old(self).wf(),
            old(self).i < old(self).codes@.len(),
        ensures
            r is Ok ==> old(self).advanced_to(&*final(self)),
            ({
                let c = old(self).codes@;
                let i1 = old(self).i + 1;
                let b1 = byte_at(c, i1);
                if b1 == Some(60u8) || b1 == Some(39u8) {
                    let end: u8 = if b1 == Some(60u8) {
                        62u8
                    } else {
                        39u8
                    };
                    let name = scalars_of(c, i1 + 1, stop_at(c, i1 + 1, end));
                    &&& (name.len() == 0 ==> r is Err)
                    &&& (r is Ok ==> (r matches Ok(Node::Conditional { cond, .. }) && (
                    cond matches Cond::Name(nm) && nm@ == name)))
                } else if b1 == Some(45u8) || b1 == Some(43u8) || is_digit_at(c, i1) {
                    let s = i1 + (if b1 == Some(45u8) || b1 == Some(43u8) {
                        1int
                    } else {
                        0int
                    });
                    let j = digit_end(c, s);
                    let n = signed_of(b1 == Some(45u8), dec_value(c, s, j) as u32);
                    &&& (!(j > s && dec_value(c, s, j) <= u32::MAX) ==> r is Err)
                    &&& (r is Ok ==> (r matches Ok(Node::Conditional { cond, .. }) && cond
                        == Cond::Group(if n < 0 {
                        0usize
                    } else {
                        n as usize
                    })))
                } else {
                    r is Ok ==> (r matches Ok(Node::Conditional { cond, .. }) && (
                    cond matches Cond::Expr(_)))
                }
            }),
        decreases old(self).left() + 1, 3int,
    {
        self.skip(1);
        let cond = if self.is_at(60) || self.is_at(39) {
            let q = self.bump()?;
            let end: u8 = if q == 60 { 62 } else { 39 };
            let name = self.read_name(end)?;
            Cond::Name(name)
        } else if self.is_at(45) || self.is_at(43) || match self.peek_byte() {
            Some(b) => is_digit_byte(b),
            None => false,
        } {
            let n = self.read_signed_int()?;
            Cond::Group(if n < 0 { 0 } else { n as usize })
        } else {
            let inner = self.parse_alts()?;
            Cond::Expr(Box::new(inner))
        };
        if !self.is_at(41) {
            return Err(self.err("invalid conditional"));
        }
        self.skip(1);
        let then_n = self.parse_concat()?;
        let else_n = if self.is_at(124) {
            self.skip(1);
            let e = self.parse_concat()?;
            Some(Box::new(e))
        } else {
            None
        };
        self.expect_close()?;
        Ok(Node::Conditional { cond, then_n: Box::new(then_n), else_n })
    }

    /// An option letter of `(?imx-imx)`, when the syntax knows it.
    fn option_letter(&self, b: u8) -> (r: Option<Options>)
        ensures
            r == option_letter_spec(self.syntax, b),
    {
        if b == 105 {
            Some(Options::ignorecase())
        } else if b == 109 {
            Some(Options::multiline())
        } else if b == 120 {
            Some(Options::extend())
        } else if b == 115 && self.syntax.has_op2(op2::OPTION_PERL) {
            Some(Options::multiline())
        } else if b == 87 {
            Some(Options::word_is_ascii())
        } else if b == 68 {
            Some(Options::digit_is_ascii())
        } else if b == 83 {
            Some(Options::space_is_ascii())
        } else if b == 80 {
            Some(Options::posix_is_ascii())
        } else if b == 67 {
            Some(Options::dont_capture_group())
        } else if b == 73 {
            Some(Options::ignorecase_is_ascii())
        } else if b == 76 {
            Some(Options::find_longest())
        } else {
            None
        }
    }

    /// After `(?`: option letters, then `:` with a body, or `)` applying
    /// them to the rest of the enclosing group.
    fn parse_options_group(&mut self) -> (r: Result<Node, Error>)
        requires
            old(self).wf(),
        ensures
            r is Ok ==> old(self).advanced_to(&*final(self)),
            ({
                let c = old(self).codes@;
                let (e, st, cl) = opt_scan(old(self).syntax, c, old(self).i as int, true, 0, 0);
                if byte_at(c, e) == Some(58u8) || byte_at(c, e) == Some(41u8) {
                    &&& (r is Ok ==> (r matches Ok(Node::Options { set, clear, .. }) && set.0 == st
                        && clear.0 == cl))
                    &&& (byte_at(c, e) == Some(41u8) && text_from(old(self).syntax, c, e + 1)
                        ==> r is Ok)
                } else {
                    r is Err
                }
            }),
        decreases old(self).left() + 1, 3int,
    {
        let mut set = Options::none();
        let mut clear = Options::none();
        let mut on = true;
        let ghost c = self.codes@;
        let ghost s0 = self.syntax;
        let ghost i0 = self.i as int;
        loop
            invariant
                old(self).advanced_to(&*self),
                c == self.codes@,
                s0 == self.syntax,
                i0 == old(self).i,
                opt_scan(s0, c, self.i as int, on, set.0, clear.0) == opt_scan(s0, c, i0, true, 0, 0),
            decreases self.left(),
        {
            let b = match self.peek_byte() {
                Some(b) => b,
                None => return Err(self.err("undefined group option")),
            };
            match self.option_letter(b) {
                Some(o) => {
                    self.skip(1);
                    if on {
                        set = set.union(o);
                    } else {
                        clear = clear.union(o);
                    }
                    continue;
                },
                None => {},
            }
            if b == 45 {
                self.skip(1);
                on = false;
            } else if b == 58 {
                self.skip(1);
                let saved = self.options;
                self.options = self.options.union(set).difference(clear);
                let inner = self.parse_alts()?;
                self.options = saved;
                self.expect_close()?;
                return Ok(Node::Options { set, clear, inner: Box::new(inner) });
            } else if b == 41 {
                self.skip(1);
                self.options = self.options.union(set).difference(clear);
                let inner = self.parse_concat()?;
                return Ok(Node::Options { set, clear, inner: Box::new(inner) });
            } else if b == 121 {
                self.skip(1);
                if self.is_at(123) {
                    self.skip(1);
                    if self.is_at(119) {
                        self.skip(1);
                        set = set.union(Options::text_segment_word());
                    } else if self.is_at(103) {
                        self.skip(1);
                        set = set.union(Options::text_segment_extended_grapheme_cluster());
                    }
                    if self.is_at(125) {
                        self.skip(1);
                    }
                }
            } else {
                return Err(self.err("undefined group option"));
            }
        }
    }

    /// After `(?` at a `{`: a contents callout `(?{...}[tag]X)`.
    fn parse_contents_callout(&mut self) -> (r: Result<Node, Error>)
        requires
            old(self).wf(),
            old(self).i < old(self).codes@.len(),
        ensures
            r is Ok ==> old(self).advanced_to(&*final(self)),
            ({
                let c = old(self).codes@;
                let (bd, e) = callout_body(c, old(self).i + 1, 1);
                let e2 = e + (if byte_at(c, e) == Some(125u8) {
                    1int
                } else {
                    0int
                });
                match callout_tag(c, e2) {
                    None => r is Err,
                    Some((tg, at)) => {
                        let (d, ad) = callout_dir(c, at);
                        &&& (r is Ok <==> byte_at(c, ad) == Some(41u8))
                        &&& (r is Ok ==> (r matches Ok(
                            Node::Callout { named, name, args, tag, body, dir },
                        ) && !named && name@.len() == 0 && args@.len() == 0 && body@ == bd && dir
                            == d && match tg {
                            None => tag is None,
                            Some(t) => tag matches Some(x) && x@ == t,
                        }) && final(self).i == ad + 1)
                    },
                }
            }),
    {
        self.skip(1);
        let ghost c = self.codes@;
        let ghost i1 = self.i as int;
        let mut body = String::new();
        let mut depth: usize = 1;
        while self.peek_code().is_some() && depth > 0
            invariant
                old(self).advanced_to(&*self),
                depth <= self.i,
                c == self.codes@,
                body@ + callout_body(c, self.i as int, depth as nat).0 == callout_body(c, i1, 1).0,
                callout_body(c, self.i as int, depth as nat).1 == callout_body(c, i1, 1).1,
            decreases 2 * self.left() + (if depth > 0 { 1int } else { 0int }),
        {
            let ghost b0 = body@;
            let ghost p0 = self.i as int;
            let ghost d0 = depth as nat;
            if self.is_at(123) {
                depth = depth + 1;
                if depth > 0 {
                    push_char(&mut body, '{');
                }
                self.skip(1);
                proof {
                    assert(b0.push('{') + callout_body(c, self.i as int, depth as nat).0 =~= b0 + (
                    seq!['{'] + callout_body(c, self.i as int, depth as nat).0));
                }
            } else if self.is_at(125) {
                depth = depth - 1;
                if depth > 0 {
                    push_char(&mut body, '}');
                    self.skip(1);
                    proof {
                        assert(b0.push('}') + callout_body(c, self.i as int, depth as nat).0 =~= b0
                            + (seq!['}'] + callout_body(c, self.i as int, depth as nat).0));
                    }
                } else {
                    proof {
                        assert(callout_body(c, self.i as int, 0).0 =~= Seq::<char>::empty());
                        assert(body@ + callout_body(c, self.i as int, 0).0 =~= b0 + callout_body(
                            c,
                            p0,
                            d0,
                        ).0);
                    }
                }
            } else {
                let cp = self.bump()?;
                match char_from_u32(cp) {
                    Some(ch) => push_char(&mut body, ch),
                    None => {},
                }
                proof {
                    let here = if crate::text::is_scalar(c[p0].1) {
                        seq![c[p0].1 as char]
                    } else {
                        Seq::<char>::empty()
                    };
                    assert(body@ =~= b0 + here);
                    assert(body@ + callout_body(c, self.i as int, depth as nat).0 =~= b0 + (here
                        + callout_body(c, self.i as int, depth as nat).0));
                }
            }
        }
        proof {
            assert(callout_body(c, self.i as int, depth as nat).0 =~= Seq::<char>::empty());
            assert(body@ =~= callout_body(c, i1, 1).0);
        }
        if self.is_at(125) {
            self.skip(1);
        }
        let mut dir = CalloutDir::Progress;
        let mut tag: Option<String> = None;
        if self.is_at(91) {
            self.skip(1);
            tag = Some(self.read_name(93)?);
        }
        if self.is_at(88) {
            dir = CalloutDir::Both;
            self.skip(1);
        } else if self.is_at(60) {
            dir = CalloutDir::Retraction;
            self.skip(1);
        } else if self.is_at(62) {
            dir = CalloutDir::Progress;
            self.skip(1);
        }
        self.expect_close()?;
        Ok(Node::Callout { named: false, name: String::new(), args: String::new(), tag, body, dir })
    }

    /// `(*name[tag]{args})`, the cursor at the `*`.
    fn parse_named_callout(&mut self) -> (r: Result<Node, Error>)
        requires
            old(self).wf(),
            old(self).i < old(self).codes@.len(),
        ensures
            r is Ok ==> old(self).advanced_to(&*final(self)),
            ({
                let c = old(self).codes@;
                let i1 = old(self).i + 1;
                let ne = ident_end(c, i1);
                let name = Seq::new((ne - i1) as nat, |k: int| c[i1 + k].1 as char);
                match callout_tag(c, ne) {
                    None => r is Err,
                    Some((tg, at)) => {
                        let (args, aa) = callout_args(c, at);
                        &&& (r is Ok <==> byte_at(c, aa) == Some(41u8))
                        &&& (r is Ok ==> (r matches Ok(
                            Node::Callout { named, name: nm, args: ar, tag, body, dir },
                        ) && named && nm@ == name && ar@ == args && body@.len() == 0 && dir
                            == CalloutDir::Progress && match tg {
                            None => tag is None,
                            Some(t) => tag matches Some(x) && x@ == t,
                        }) && final(self).i == aa + 1)
                    },
                }
            }),
    {
        self.skip(1);
        let name = self.read_ident();
        let mut args = String::new();
        let mut tag: Option<String> = None;
        if self.is_at(91) {
            self.skip(1);
            tag = Some(self.read_name(93)?);
        }
        if self.is_at(123) {
            self.skip(1);
            let ghost a0 = self.i as int;
            args = self.collect_until(125);
            proof {
                lemma_stop_at(self.codes@, a0, 125u8);
            }
            if self.is_at(125) {
                self.skip(1);
            }
        }
        self.expect_close()?;
        Ok(
            Node::Callout {
                named: true,
                name,
                args,
                tag,
                body: String::new(),
                dir: CalloutDir::Progress,
            },
        )
    }

    /// The escapes that stand for one fixed node, if `b` is one under this
    /// syntax.
    fn escape_simple(&self, b: u8) -> (r: Option<Node>)
        ensures
            r is Some <==> (escape_fixed(self.syntax, b) is Some || escape_class_item(
                self.syntax,
                b,
            ) is Some),
            escape_fixed(self.syntax, b) is Some ==> r == escape_fixed(self.syntax, b),
            escape_class_item(self.syntax, b) matches Some(it) ==> (r matches Some(
                Node::Class(cc),
            ) && !cc.negate && cc.items@ == seq![it]),
    {
        let s = self.syntax;
        let ctrl = s.has_op(op::ESC_CONTROL_CHARS);
        if b == 110 && ctrl {
            Some(Node::Char(0x0a))
        } else if b == 116 && ctrl {
            Some(Node::Char(0x09))
        } else if b == 114 && ctrl {
            Some(Node::Char(0x0d))
        } else if b == 102 && ctrl {
            Some(Node::Char(0x0c))
        } else if b == 97 && ctrl {
            Some(Node::Char(0x07))
        } else if b == 101 && ctrl {
            Some(Node::Char(0x1b))
        } else if b == 118 && (s.has_op2(op2::ESC_V_VTAB) || ctrl) {
            Some(Node::Char(0x0b))
        } else if b == 65 && s.has_op(op::ESC_AZ_BUF_ANCHOR) {
            Some(Node::Anchor(Anchor::Bos))
        } else if b == 90 && s.has_op(op::ESC_AZ_BUF_ANCHOR) {
            Some(Node::Anchor(Anchor::EosNl))
        } else if b == 122 && s.has_op(op::ESC_AZ_BUF_ANCHOR) {
            Some(Node::Anchor(Anchor::Eos))
        } else if b == 71 && s.has_op(op::ESC_CAPITAL_G_BEGIN_ANCHOR) {
            Some(Node::Anchor(Anchor::G))
        } else if b == 98 && s.has_op(op::ESC_B_WORD_BOUND) {
            Some(Node::Anchor(Anchor::WordBound))
        } else if b == 66 && s.has_op(op::ESC_B_WORD_BOUND) {
            Some(Node::Anchor(Anchor::NotWordBound))
        } else if b == 60 && s.has_op(op::ESC_LTGT_WORD_BEGIN_END) {
            Some(Node::Anchor(Anchor::WordBegin))
        } else if b == 62 && s.has_op(op::ESC_LTGT_WORD_BEGIN_END) {
            Some(Node::Anchor(Anchor::WordEnd))
        } else if (b == 119 || b == 87) && s.has_op(op::ESC_W_WORD) {
            Some(class_ctype(ClassItem::Word { neg: b == 87 }))
        } else if (b == 100 || b == 68) && s.has_op(op::ESC_D_DIGIT) {
            Some(class_ctype(ClassItem::Digit { neg: b == 68 }))
        } else if (b == 115 || b == 83) && s.has_op(op::ESC_S_WHITE_SPACE) {
            Some(class_ctype(ClassItem::Space { neg: b == 83 }))
        } else if (b == 104 || b == 72) && s.has_op2(op2::ESC_H_XDIGIT) {
            Some(class_ctype(ClassItem::Xdigit { neg: b == 72 }))
        } else if b == 75 && s.has_op2(op2::ESC_CAPITAL_K_KEEP) {
            Some(Node::Keep)
        } else if b == 82 && s.has_op2(op2::ESC_CAPITAL_R_GENERAL_NEWLINE) {
            Some(Node::GeneralNewline)
        } else if b == 78 && s.has_op2(op2::ESC_CAPITAL_N_O_SUPER_DOT) {
            Some(Node::Any { newline: false })
        } else if b == 79 && s.has_op2(op2::ESC_CAPITAL_N_O_SUPER_DOT) {
            Some(Node::SuperAny)
        } else if b == 88 && s.has_op2(op2::ESC_X_Y_TEXT_SEGMENT) {
            Some(Node::TextSegment)
        } else if b == 121 && s.has_op2(op2::ESC_X_Y_TEXT_SEGMENT) {
            Some(Node::Anchor(Anchor::TextSegBound))
        } else if b == 89 && s.has_op2(op2::ESC_X_Y_TEXT_SEGMENT) {
            Some(Node::Anchor(Anchor::NotTextSegBound))
        } else if b == 96 && s.has_op2(op2::ESC_GNU_BUF_ANCHOR) {
            Some(Node::Anchor(Anchor::Bos))
        } else if b == 39 && s.has_op2(op2::ESC_GNU_BUF_ANCHOR) {
            Some(Node::Anchor(Anchor::Eos))
        } else {
            None
        }
    }

    /// A backslash escape, the cursor at the backslash.
    fn parse_escape(&mut self) -> (r: Result<Node, Error>)
        requires
            old(self).wf(),
            old(self).i < old(self).codes@.len(),
        ensures
            r is Ok ==> old(self).only_moved(&*final(self)) && final(self).i > old(self).i,
            ({
                let c = old(self).codes@;
                let s = old(self).syntax;
                let i1 = old(self).i + 1;
                if s.op2_on(op2::INEFFECTIVE_ESCAPE) {
                    r == Ok::<Node, Error>(Node::Char(s.meta_escape)) && final(self).i == i1
                } else {
                    match byte_at(c, i1) {
                        None => r is Err,
                        Some(b) => if escape_fixed(s, b) is Some {
                            r == Ok::<Node, Error>(escape_fixed(s, b).unwrap()) && final(self).i
                                == i1 + 1
                        } else if escape_class_item(s, b) is Some {
                            (r matches Ok(Node::Class(cc)) && !cc.negate && cc.items@ == seq![
                                escape_class_item(s, b).unwrap(),
                            ]) && final(self).i == i1 + 1
                        } else if b == 81 && s.op2_on(op2::ESC_CAPITAL_Q_QUOTE) {
                            let q = quote_end(c, i1 + 1);
                            (r matches Ok(Node::Literal(v)) && v@ == codes_between(c, i1 + 1, q))
                                && final(self).i == (if q < c.len() {
                                q + 2
                            } else {
                                q
                            })
                        } else if b == 120 {
                            r == Ok::<Node, Error>(Node::Char(hex_escape(s, c, i1 + 1).0))
                                && final(self).i == hex_escape(s, c, i1 + 1).1
                        } else if b == 117 && s.op2_on(op2::ESC_U_HEX4) {
                            &&& (r is Ok <==> all_hex(c, i1 + 1, i1 + 5))
                            &&& (r is Ok ==> r == Ok::<Node, Error>(
                                Node::Char(hex_fold(c, i1 + 1, i1 + 5)),
                            ) && final(self).i == i1 + 5)
                        } else if b == 111 && s.op_on(op::ESC_O_BRACE_OCTAL) {
                            if byte_at(c, i1 + 1) == Some(123u8) {
                                let j = oct_end(c, i1 + 2);
                                r == Ok::<Node, Error>(Node::Char(oct_fold(c, i1 + 2, j)))
                                    && final(self).i == j + (if byte_at(c, j) == Some(125u8) {
                                    1int
                                } else {
                                    0int
                                })
                            } else {
                                r == Ok::<Node, Error>(Node::Char(111u32)) && final(self).i == i1 + 1
                            }
                        } else if b == 99 && s.op_on(op::ESC_C_CONTROL) {
                            &&& (r is Ok <==> i1 + 1 < c.len())
                            &&& (r is Ok ==> r == Ok::<Node, Error>(Node::Char(c[i1 + 1].1 & 0x1f))
                                && final(self).i == i1 + 2)
                        } else if 48 <= b <= 57 && s.op_on(op::DECIMAL_BACKREF) {
                            let j = digit_end(c, i1);
                            let n = dec_value(c, i1, j) as u32 as i32;
                            &&& (r is Ok <==> dec_value(c, i1, j) <= u32::MAX)
                            &&& (r is Ok ==> r == Ok::<Node, Error>(
                                if n == 0 && s.op_on(op::ESC_OCTAL3) {
                                    Node::Char(0)
                                } else {
                                    Node::Backref(Backref::Number(n))
                                },
                            ) && final(self).i == j)
                        } else if 48 <= b <= 55 && s.op_on(op::ESC_OCTAL3) && !s.op_on(
                            op::DECIMAL_BACKREF,
                        ) {
                            r == Ok::<Node, Error>(Node::Char(oct_num(c, i1, oct3_end(c, i1)) as u32))
                                && final(self).i == oct3_end(c, i1)
                        } else if escape_plain(s, b) {
                            r == Ok::<Node, Error>(Node::Char(b as u32)) && final(self).i == i1 + 1
                        } else {
                            true
                        },
                    }
                }
            }),
    {
        self.skip(1);
        if self.syntax.has_op2(op2::INEFFECTIVE_ESCAPE) {
            return Ok(Node::Char(self.syntax.meta_escape));
        }
        let b = match self.peek_byte() {
            Some(b) => b,
            None => return Err(self.err("end at escape")),
        };
        self.skip(1);
        match self.escape_simple(b) {
            Some(n) => return Ok(n),
            None => {},
        }
        let s = self.syntax;
        if b == 81 && s.has_op2(op2::ESC_CAPITAL_Q_QUOTE) {
            self.parse_quote()
        } else if b == 107 && s.has_op2(op2::ESC_K_NAMED_BACKREF) {
            self.parse_k_backref()
        } else if b == 103 && s.has_op2(op2::ESC_G_SUBEXP_CALL) {
            self.parse_g_call()
        } else if (b == 112 || b == 80) && s.has_op2(op2::ESC_P_BRACE_CHAR_PROPERTY) {
            let item = self.parse_prop(b == 80)?;
            Ok(class_ctype(item))
        } else if b == 120 {
            Ok(Node::Char(self.parse_hex_escape()))
        } else if b == 117 && s.has_op2(op2::ESC_U_HEX4) {
            Ok(Node::Char(self.parse_u_hex(4)?))
        } else if b == 111 && s.has_op(op::ESC_O_BRACE_OCTAL) {
            Ok(Node::Char(self.parse_oct_brace()))
        } else if b == 99 && s.has_op(op::ESC_C_CONTROL) {
            let c = self.bump()?;
            Ok(Node::Char(c & 0x1f))
        } else if is_digit_byte(b) && s.has_op(op::DECIMAL_BACKREF) {
            self.i = self.i - 1;
            let n = self.read_int()? as i32;
            if n == 0 && s.has_op(op::ESC_OCTAL3) {
                Ok(Node::Char(0))
            } else {
                Ok(Node::Backref(Backref::Number(n)))
            }
        } else if s.has_op(op::ESC_OCTAL3) && 48 <= b && b <= 55 {
            self.i = self.i - 1;
            let (v, _count) = self.read_octal();
            Ok(Node::Char(v))
        } else {
            Ok(Node::Char(b as u32))
        }
    }

    /// `\Q...\E`: everything up to `\E` (or the end) taken literally.
    fn parse_quote(&mut self) -> (r: Result<Node, Error>)
        requires
            old(self).wf(),
        ensures
            r is Ok ==> old(self).only_moved(&*final(self)),
            r is Ok,
            ({
                let q = quote_end(old(self).codes@, old(self).i as int);
                &&& r matches Ok(Node::Literal(v)) && v@ == codes_between(
                    old(self).codes@,
                    old(self).i as int,
                    q,
                )
                &&& final(self).i == (if q < old(self).codes@.len() {
                    q + 2
                } else {
                    q
                })
            }),
    {
        let mut chars: Vec<u32> = Vec::new();
        let ghost i0 = self.i as int;
        loop
            invariant_except_break
                quote_end(self.codes@, i0) == quote_end(self.codes@, self.i as int),
                chars@ == codes_between(self.codes@, i0, self.i as int),
            invariant
                old(self).only_moved(&*self),
                i0 == old(self).i,
            ensures
                old(self).only_moved(&*self),
                chars@ == codes_between(self.codes@, i0, quote_end(self.codes@, i0)),
                self.i == (if quote_end(self.codes@, i0) < self.codes@.len() {
                    quote_end(self.codes@, i0) + 2
                } else {
                    quote_end(self.codes@, i0)
                }),
            decreases self.left(),
        {
            if self.is_at(92) && self.is_at_ahead(1, 69) {
                self.skip(2);
                break;
            }
            if self.peek_code().is_none() {
                break;
            }
            let ghost before = self.i as int;
            let c = self.bump()?;
            chars.push(c);
            proof {
                assert(chars@ =~= codes_between(self.codes@, i0, self.i as int));
            }
        }
        Ok(Node::Literal(chars))
    }

    /// `<` or `'` opening a `\k` or `\g` reference: its closing byte.
    fn ref_open(&mut self, what: &str) -> (r: Result<u8, Error>)
        requires
            old(self).wf(),
        ensures
            r is Ok ==> old(self).only_moved(&*final(self)),
            r is Ok <==> (byte_at(old(self).codes@, old(self).i as int) == Some(60u8) || byte_at(
                old(self).codes@,
                old(self).i as int,
            ) == Some(39u8)),
            r matches Ok(e) ==> final(self).i == old(self).i + 1 && e == (if byte_at(
                old(self).codes@,
                old(self).i as int,
            ) == Some(60u8) {
                62u8
            } else {
                39u8
            }),
            r is Err ==> final(self).i == old(self).i,
    {
        let q = match self.peek_byte() {
            Some(q) => q,
            None => return Err(self.err(what)),
        };
        if q != 60 && q != 39 {
            return Err(self.err(what));
        }
        self.skip(1);
        Ok(if q == 60 { 62u8 } else { 39u8 })
    }

    fn skip_if_at(&mut self, b: u8)
        requires
            old(self).wf(),
        ensures
            old(self).only_moved(&*final(self)),
            final(self).options == old(self).options,
            final(self).i == old(self).i + (if byte_at(old(self).codes@, old(self).i as int) == Some(
                b,
            ) {
                1int
            } else {
                0int
            }),
    {
        if self.is_at(b) {
            self.skip(1);
        }
    }

    /// After `\k`: a back-reference by number, relative number or name.
    fn parse_k_backref(&mut self) -> (r: Result<Node, Error>)
        requires
            old(self).wf(),
        ensures
            r is Ok ==> old(self).only_moved(&*final(self)),
            ({
                let c = old(self).codes@;
                let i0 = old(self).i as int;
                let o = byte_at(c, i0);
                let end: u8 = if o == Some(60u8) {
                    62u8
                } else {
                    39u8
                };
                let i1 = i0 + 1;
                let b1 = byte_at(c, i1);
                if !(o == Some(60u8) || o == Some(39u8)) {
                    r is Err
                } else if b1 == Some(45u8) || b1 == Some(43u8) {
                    let j = digit_end(c, i1 + 1);
                    &&& (r is Ok <==> (j > i1 + 1 && dec_value(c, i1 + 1, j) <= u32::MAX))
                    &&& (r is Ok ==> r == Ok::<Node, Error>(
                        Node::Backref(Backref::Rel { back: b1 == Some(45u8), n: dec_value(c, i1 + 1, j) as u32 as i32 }),
                    ) && final(self).i == j + (if byte_at(c, j) == Some(end) {
                        1int
                    } else {
                        0int
                    }))
                } else if is_digit_at(c, i1) {
                    let j = digit_end(c, i1);
                    &&& (r is Ok <==> dec_value(c, i1, j) <= u32::MAX)
                    &&& (r is Ok ==> r == Ok::<Node, Error>(
                        Node::Backref(Backref::Number(dec_value(c, i1, j) as u32 as i32)),
                    ) && final(self).i == j + (if byte_at(c, j) == Some(end) {
                        1int
                    } else {
                        0int
                    }))
                } else {
                    let stop = stop_at(c, i1, end);
                    let name = scalars_of(c, i1, stop);
                    &&& (r is Ok <==> name.len() > 0)
                    &&& (r is Ok ==> (r matches Ok(Node::Backref(Backref::Name(nm))) && nm@ == name
                        && final(self).i == stop + (if stop < c.len() {
                        1int
                    } else {
                        0int
                    })))
                }
            }),
    {
        let end = self.ref_open("bad \\k")?;
        if self.is_at(45) || self.is_at(43) {
            let back = self.is_at(45);
            self.skip(1);
            let n = self.read_int()? as i32;
            self.skip_if_at(end);
            return Ok(Node::Backref(Backref::Rel { back, n }));
        }
        if self.peek_digit() {
            let n = self.read_int()? as i32;
            self.skip_if_at(end);
            return Ok(Node::Backref(Backref::Number(n)));
        }
        let name = self.read_name(end)?;
        Ok(Node::Backref(Backref::Name(name)))
    }

    /// After `\g`: a subexpression call by number, relative number or name.
    fn parse_g_call(&mut self) -> (r: Result<Node, Error>)
        requires
            old(self).wf(),
        ensures
            r is Ok ==> old(self).only_moved(&*final(self)),
            ({
                let c = old(self).codes@;
                let i0 = old(self).i as int;
                let o = byte_at(c, i0);
                let end: u8 = if o == Some(60u8) {
                    62u8
                } else {
                    39u8
                };
                let i1 = i0 + 1;
                let b1 = byte_at(c, i1);
                if !(o == Some(60u8) || o == Some(39u8)) {
                    r is Err
                } else if b1 == Some(48u8) {
                    r == Ok::<Node, Error>(Node::Call(CallTarget::Whole)) && final(self).i == i1 + 1
                        + (if byte_at(c, i1 + 1) == Some(end) {
                        1int
                    } else {
                        0int
                    })
                } else if b1 == Some(45u8) || b1 == Some(43u8) || is_digit_at(c, i1) {
                    let s = i1 + (if b1 == Some(45u8) || b1 == Some(43u8) {
                        1int
                    } else {
                        0int
                    });
                    let j = digit_end(c, s);
                    &&& (r is Ok <==> (j > s && dec_value(c, s, j) <= u32::MAX))
                    &&& (r is Ok ==> r == Ok::<Node, Error>(
                        Node::Call(CallTarget::Number(signed_of(b1 == Some(45u8), dec_value(c, s, j) as u32))),
                    ) && final(self).i == j + (if byte_at(c, j) == Some(end) {
                        1int
                    } else {
                        0int
                    }))
                } else {
                    let stop = stop_at(c, i1, end);
                    let name = scalars_of(c, i1, stop);
                    &&& (r is Ok <==> name.len() > 0)
                    &&& (r is Ok ==> (r matches Ok(Node::Call(CallTarget::Name(nm))) && nm@ == name
                        && final(self).i == stop + (if stop < c.len() {
                        1int
                    } else {
                        0int
                    })))
                }
            }),
    {
        let end = self.ref_open("bad \\g")?;
        if self.is_at(48) {
            self.skip(1);
            self.skip_if_at(end);
            return Ok(Node::Call(CallTarget::Whole));
        }
        if self.is_at(45) || self.is_at(43) || self.peek_digit() {
            let n = self.read_signed_int()?;
            self.skip_if_at(end);
            return Ok(Node::Call(CallTarget::Number(n)));
        }
        let name = self.read_name(end)?;
        Ok(Node::Call(CallTarget::Name(name)))
    }

    /// After `\p` or `\P`: a property item, `{name}`, `{^name}` or one
    /// character.
    fn parse_prop(&mut self, cap_p: bool) -> (r: Result<ClassItem, Error>)
        requires
            old(self).wf(),
        ensures
            r is Ok ==> old(self).only_moved(&*final(self)),
            ({
                let c = old(self).codes@;
                let i0 = old(self).i as int;
                let s = old(self).syntax;
                if byte_at(c, i0) == Some(123u8) {
                    let flip = byte_at(c, i0 + 1) == Some(94u8) && s.op2_on(
                        op2::ESC_P_BRACE_CIRCUMFLEX_NOT,
                    );
                    let a = if flip {
                        i0 + 2
                    } else {
                        i0 + 1
                    };
                    let stop = stop_at(c, a, 125u8);
                    let name = scalars_of(c, a, stop);
                    &&& (r is Ok <==> name.len() > 0)
                    &&& (r is Ok ==> (r matches Ok(ClassItem::Prop { name: nm, neg }) && nm@ == name
                        && neg == (cap_p != flip) && final(self).i == stop + (if stop < c.len() {
                        1int
                    } else {
                        0int
                    })))
                } else if s.behavior_on(behavior::ESC_P_WITH_ONE_CHAR_PROP) {
                    &&& (r is Ok <==> i0 < c.len())
                    &&& (r is Ok ==> (r matches Ok(ClassItem::Prop { name: nm, neg }) && neg == cap_p
                        && nm@ == (if crate::text::is_scalar(c[i0].1) {
                        seq![c[i0].1 as char]
                    } else {
                        Seq::<char>::empty()
                    }) && final(self).i == i0 + 1))
                } else {
                    r is Err
                }
            }),
    {
        let mut neg = cap_p;
        if self.is_at(123) {
            self.skip(1);
            if self.is_at(94) && self.syntax.has_op2(op2::ESC_P_BRACE_CIRCUMFLEX_NOT) {
                self.skip(1);
                neg = !neg;
            }
            let name = self.read_name(125)?;
            Ok(ClassItem::Prop { name, neg })
        } else if self.syntax.has_behavior(behavior::ESC_P_WITH_ONE_CHAR_PROP) {
            let c = self.bump()?;
            let mut s = String::new();
            match char_from_u32(c) {
                Some(ch) => push_char(&mut s, ch),
                None => {},
            }
            Ok(ClassItem::Prop { name: s, neg })
        } else {
            Err(self.err("bad \\p"))
        }
    }

    /// The hex digit at the cursor, if there is one.
    fn peek_hex(&self) -> (r: Option<u8>)
        ensures
            r is Some ==> self.i < self.codes@.len(),
            r matches Some(h) ==> h < 16,
            r == (match byte_at(self.codes@, self.i as int) {
                Some(b) => if 48 <= b <= 57 {
                    Some((b - 48) as u8)
                } else if 97 <= b <= 102 {
                    Some((b - 87) as u8)
                } else if 65 <= b <= 70 {
                    Some((b - 55) as u8)
                } else {
                    None::<u8>
                },
                None => None::<u8>,
            }),
    {
        match self.peek_byte() {
            Some(b) => hex_val(b),
            None => None,
        }
    }

    fn peek_digit(&self) -> (r: bool)
        ensures
            r ==> self.i < self.codes@.len(),
            r == is_digit_at(self.codes@, self.i as int),
    {
        match self.peek_byte() {
            Some(b) => is_digit_byte(b),
            None => false,
        }
    }

    fn peek_octal(&self) -> (r: Option<u8>)
        ensures
            r is Some ==> self.i < self.codes@.len(),
            r matches Some(d) ==> d < 8,
            r is Some <==> (byte_at(self.codes@, self.i as int) matches Some(b) && 48 <= b <= 55),
            r == oct_of(self.codes@, self.i as int),
    {
        match self.peek_byte() {
            Some(b) => if 48 <= b && b <= 55 {
                Some(b - 48)
            } else {
                None
            },
            None => None,
        }
    }

    /// After `\x`: `{h...}` (any number of digits) or up to two digits.
    fn parse_hex_escape(&mut self) -> (r: u32)
        requires
            old(self).wf(),
        ensures
            old(self).only_moved(&*final(self)),
            final(self).options == old(self).options,
            final(self).capture_count == old(self).capture_count,
            (r, final(self).i as int) == hex_escape(
                old(self).syntax,
                old(self).codes@,
                old(self).i as int,
            ),
    {
        let ghost c = self.codes@;
        let ghost i0 = self.i as int;
        let mut v: u32 = 0;
        if self.is_at(123) && self.syntax.has_op(op::ESC_X_BRACE_HEX8) {
            self.skip(1);
            loop
                invariant
                    old(self).only_moved(&*self),
                    self.options == old(self).options,
                    self.capture_count == old(self).capture_count,
                    c == self.codes@,
                    i0 + 1 <= self.i,
                    hex_end(c, i0 + 1) == hex_end(c, self.i as int),
                    v == hex_fold(c, i0 + 1, self.i as int),
                ensures
                    old(self).only_moved(&*self),
                    self.options == old(self).options,
                    self.capture_count == old(self).capture_count,
                    c == self.codes@,
                    hex_end(c, i0 + 1) == self.i,
                    v == hex_fold(c, i0 + 1, self.i as int),
                decreases self.left(),
            {
                match self.peek_hex() {
                    Some(h) => {
                        self.skip(1);
                        v = (v << 4u32) | h as u32;
                    },
                    None => break,
                }
            }
            self.skip_if_at(125);
            return v;
        }
        if self.syntax.has_op(op::ESC_X_HEX2) {
            let mut k: usize = 0;
            proof {
                lemma_hex_end_from(c, i0);
            }
            while k < 2
                invariant
                    old(self).only_moved(&*self),
                    self.options == old(self).options,
                    self.capture_count == old(self).capture_count,
                    c == self.codes@,
                    i0 == old(self).i,
                    k <= 2,
                    hex_end(c, i0) >= i0,
                    self.i == (if hex_end(c, i0) < i0 + k {
                        hex_end(c, i0)
                    } else {
                        i0 + k
                    }),
                    hex_end(c, i0) == hex_end(c, self.i as int),
                    v == hex_fold(c, i0, self.i as int),
                decreases 2 - k,
            {
                proof {
                    lemma_hex_end_from(c, self.i as int);
                    lemma_hex_end_from(c, self.i + 1);
                }
                match self.peek_hex() {
                    Some(h) => {
                        self.skip(1);
                        v = (v << 4u32) | h as u32;
                    },
                    None => {},
                }
                k = k + 1;
            }
            return v;
        }
        120
    }

    /// After `\u`: exactly `n` hex digits.
    fn parse_u_hex(&mut self, n: usize) -> (r: Result<u32, Error>)
        requires
            old(self).wf(),
        ensures
            r is Ok ==> old(self).only_moved(&*final(self)),
            r is Ok <==> all_hex(old(self).codes@, old(self).i as int, old(self).i + n),
            r matches Ok(v) ==> v == hex_fold(old(self).codes@, old(self).i as int, old(self).i + n)
                && final(self).i == old(self).i + n,
    {
        let mut v: u32 = 0;
        let mut k: usize = 0;
        while k < n
            invariant
                old(self).only_moved(&*self),
                self.i == old(self).i + k,
                k <= n,
                all_hex(self.codes@, old(self).i as int, self.i as int),
                v == hex_fold(self.codes@, old(self).i as int, self.i as int),
            decreases n - k,
        {
            let h = match self.peek_hex() {
                Some(h) => h,
                None => {
                    proof {
                        assert(hex_of(byte_at(self.codes@, self.i as int)) is None);
                    }
                    return Err(self.err("bad \\u"));
                },
            };
            let ghost before = self.i as int;
            self.skip(1);
            v = (v << 4u32) | h as u32;
            k = k + 1;
            proof {
                assert(hex_of(byte_at(self.codes@, before)) == Some(h));
                assert forall|q: int| old(self).i <= q < self.i implies #[trigger] hex_of(
                    byte_at(self.codes@, q),
                ) is Some by {
                    if q < before {
                        assert(hex_of(byte_at(self.codes@, q)) is Some);
                    }
                }
            }
        }
        Ok(v)
    }

    /// After `\o`: `{ooo...}`; without a brace it is the letter `o`.
    fn parse_oct_brace(&mut self) -> (r: u32)
        requires
            old(self).wf(),
        ensures
            old(self).only_moved(&*final(self)),
            final(self).options == old(self).options,
            byte_at(old(self).codes@, old(self).i as int) != Some(123u8) ==> r == 111
                && final(self).i == old(self).i,
            byte_at(old(self).codes@, old(self).i as int) == Some(123u8) ==> ({
                let j = oct_end(old(self).codes@, old(self).i + 1);
                r == oct_fold(old(self).codes@, old(self).i + 1, j) && final(self).i == j + (if byte_at(
                    old(self).codes@,
                    j,
                ) == Some(125u8) {
                    1int
                } else {
                    0int
                })
            }),
    {
        if !self.is_at(123) {
            return 111;
        }
        self.skip(1);
        let ghost a = self.i as int;
        let mut v: u32 = 0;
        loop
            invariant
                old(self).only_moved(&*self),
                self.options == old(self).options,
                a == old(self).i + 1,
                a <= self.i,
                forall|k: int| a <= k < self.i ==> #[trigger] oct_of(self.codes@, k) is Some,
                v == oct_fold(self.codes@, a, self.i as int),
            ensures
                old(self).only_moved(&*self),
                self.options == old(self).options,
                a <= self.i,
                forall|k: int| a <= k < self.i ==> #[trigger] oct_of(self.codes@, k) is Some,
                oct_of(self.codes@, self.i as int) is None,
                v == oct_fold(self.codes@, a, self.i as int),
            decreases self.left(),
        {
            match self.peek_octal() {
                Some(d) => {
                    let ghost before = self.i as int;
                    self.skip(1);
                    v = (v << 3u32) | d as u32;
                    proof {
                        assert(oct_of(self.codes@, before) == Some(d));
                        assert forall|k: int| a <= k < self.i implies #[trigger] oct_of(
                            self.codes@,
                            k,
                        ) is Some by {
                            if k < before {
                                assert(oct_of(self.codes@, k) is Some);
                            }
                        }
                    }
                },
                None => break,
            }
        }
        let ghost j = self.i as int;
        proof {
            lemma_oct_end_at(self.codes@, a, j);
        }
        self.skip_if_at(125);
        proof {
            assert(oct_fold(self.codes@, a, j) == v);
        }
        v
    }

    /// `[` at the cursor: a bracket class.
    fn parse_class(&mut self) -> (r: Result<Node, Error>)
        requires
            old(self).wf(),
            old(self).i < old(self).codes@.len(),
        ensures
            r is Ok ==> old(self).advanced_to(&*final(self)) && final(self).i > old(self).i,
            r is Ok ==> (r matches Ok(Node::Class(cc)) && cc.negate == (byte_at(
                old(self).codes@,
                old(self).i + 1,
            ) == Some(94u8))),
            ({
                let c = old(self).codes@;
                let i1 = old(self).i + 1;
                let j = stop_at(c, i1, 93u8);
                old(self).depth < MAX_PARSE_DEPTH && j < c.len() && text_run(old(self).syntax, c, i1, j)
                    ==> (r matches Ok(Node::Class(cc)) && !cc.negate && cc.items@ =~= Seq::new(
                    (j - i1) as nat,
                    |k: int| ClassItem::Char(c[i1 + k].1),
                ) && final(self).i == j + 1)
            }),
    {
        proof {
            lemma_stop_at(self.codes@, self.i + 1, 93u8);
        }
        self.skip(1);
        let mut cc = CharClass::empty();
        if self.is_at(94) {
            cc.negate = true;
            self.skip(1);
        }
        cc.items = self.parse_class_items(93)?;
        if !self.is_at(93) {
            return Err(self.err("unmatched ["));
        }
        self.skip(1);
        Ok(Node::Class(cc))
    }

    /// Class items up to `end`, one nesting level deeper.
    fn parse_class_items(&mut self, end: u8) -> (r: Result<Vec<ClassItem>, Error>)
        requires
            old(self).wf(),
        ensures
            r is Ok ==> old(self).advanced_to(&*final(self)),
            old(self).depth + 1 > MAX_PARSE_DEPTH ==> r is Err && r->Err_0.kind
                == ErrorKind::ParseDepthLimit,
            ({
                let c = old(self).codes@;
                let i0 = old(self).i as int;
                let j = stop_at(c, i0, 93u8);
                old(self).depth < MAX_PARSE_DEPTH && end == 93 && text_run(old(self).syntax, c, i0, j)
                    ==> (r matches Ok(v) && v@ =~= Seq::new(
                    (j - i0) as nat,
                    |k: int| ClassItem::Char(c[i0 + k].1),
                ) && final(self).i == j)
            }),
        decreases old(self).left() + 1, 4int,
    {
        self.depth = self.depth + 1;
        if self.depth > MAX_PARSE_DEPTH {
            return Err(Error::kind_msg(ErrorKind::ParseDepthLimit, "parse depth"));
        }
        let items = self.parse_class_items_inner(end)?;
        self.depth = self.depth - 1;
        Ok(items)
    }

    /// A class range's upper end after the `-`.
    fn range_end(&mut self) -> (r: Result<u32, Error>)
        requires
            old(self).wf(),
        ensures
            r is Ok ==> old(self).only_moved(&*final(self)),
            byte_at(old(self).codes@, old(self).i as int) != Some(92u8) ==> (r is Ok <==> old(
                self,
            ).i < old(self).codes@.len()) && (r matches Ok(c) ==> c == old(self).codes@[old(
                self,
            ).i as int].1 && final(self).i == old(self).i + 1),
            byte_at(old(self).codes@, old(self).i as int) == Some(92u8) ==> class_escape_ok(
                old(self).syntax,
                old(self).codes@,
                old(self).i + 1,
                r,
                final(self).i as int,
            ),
    {
        if self.is_at(92) {
            self.skip(1);
            self.class_escape_char()
        } else {
            self.bump()
        }
    }

    fn parse_class_items_inner(&mut self, end: u8) -> (r: Result<Vec<ClassItem>, Error>)
        requires
            old(self).wf(),
        ensures
            r is Ok ==> old(self).advanced_to(&*final(self)),
            ({
                let c = old(self).codes@;
                let i0 = old(self).i as int;
                let j = stop_at(c, i0, 93u8);
                end == 93 && text_run(old(self).syntax, c, i0, j) ==> (r matches Ok(v) && v@
                    =~= Seq::new((j - i0) as nat, |k: int| ClassItem::Char(c[i0 + k].1))
                    && final(self).i == j)
            }),
        decreases old(self).left() + 1, 3int,
    {
        let ghost c = self.codes@;
        let ghost i0 = self.i as int;
        let ghost j = stop_at(c, i0, 93u8);
        let ghost txt = end == 93 && text_run(self.syntax, c, i0, j);
        proof {
            lemma_stop_at(c, i0, 93u8);
        }
        let mut items: Vec<ClassItem> = Vec::new();
        let mut first = true;
        while self.peek_code().is_some() && (first || !self.is_at(end))
            invariant
                old(self).advanced_to(&*self),
                c == self.codes@,
                i0 == old(self).i,
                j == stop_at(c, i0, 93u8),
                i0 <= j <= c.len(),
                j < c.len() ==> c[j].1 == 93,
                txt == (end == 93 && text_run(old(self).syntax, c, i0, j)),
                txt ==> i0 <= self.i <= j && (first <==> self.i == i0) && items@ =~= Seq::new(
                    (self.i - i0) as nat,
                    |k: int| ClassItem::Char(c[i0 + k].1),
                ),
            ensures
                old(self).advanced_to(&*self),
                txt ==> self.i == j && items@ =~= Seq::new(
                    (j - i0) as nat,
                    |k: int| ClassItem::Char(c[i0 + k].1),
                ),
            decreases self.left(),
        {
            first = false;
            if self.is_at(91) && self.syntax.has_op2(op2::CCLASS_SET_OP) {
                if self.is_at_ahead(1, 58) && self.syntax.has_op(op::POSIX_BRACKET) {
                    let item = self.parse_posix();
                    items.push(item);
                    continue;
                }
                self.skip(1);
                let mut nested = CharClass::empty();
                if self.is_at(94) {
                    nested.negate = true;
                    self.skip(1);
                }
                nested.items = self.parse_class_items(93)?;
                self.skip_if_at(93);
                items.push(ClassItem::Nested(nested));
                continue;
            }
            if self.is_at(38) && self.is_at_ahead(1, 38) && self.syntax.has_op2(op2::CCLASS_SET_OP) {
                self.skip(2);
                let rest = self.parse_class_items(end)?;
                items.push(ClassItem::Intersect(rest));
                break;
            }
            if self.is_at(92) {
                self.skip(1);
                let b = match self.peek_byte() {
                    Some(b) => b,
                    None => return Err(self.err("end in class")),
                };
                if b == 119 || b == 87 {
                    self.skip(1);
                    items.push(ClassItem::Word { neg: b == 87 });
                } else if b == 100 || b == 68 {
                    self.skip(1);
                    items.push(ClassItem::Digit { neg: b == 68 });
                } else if b == 115 || b == 83 {
                    self.skip(1);
                    items.push(ClassItem::Space { neg: b == 83 });
                } else if b == 104 || b == 72 {
                    self.skip(1);
                    items.push(ClassItem::Xdigit { neg: b == 72 });
                } else if b == 110 {
                    self.skip(1);
                    items.push(ClassItem::Char(0x0a));
                } else if b == 116 {
                    self.skip(1);
                    items.push(ClassItem::Char(0x09));
                } else if (b == 112 || b == 80) && self.syntax.has_op2(
                    op2::ESC_P_BRACE_CHAR_PROPERTY,
                ) {
                    self.skip(1);
                    let item = self.parse_prop(b == 80)?;
                    items.push(item);
                } else {
                    // Every escape that denotes one code point (\xHH,
                    // \x{...}, \uHHHH, \o{...}, \cX, octal, \r \f \v \a \e)
                    // is read as it is outside a class.
                    let c = self.class_escape_char()?;
                    let dash_range = self.is_at(45) && match self.peek_code_at(1) {
                        Some(n) => n != end as u32,
                        None => false,
                    };
                    if dash_range {
                        self.skip(1);
                        let d = self.range_end()?;
                        items.push(ClassItem::Range(c, d));
                    } else {
                        items.push(ClassItem::Char(c));
                    }
                }
                continue;
            }
            let c = self.bump()?;
            if self.is_at(45) && self.peek_code_at(1) != Some(end as u32) {
                self.skip(1);
                let d = self.range_end()?;
                items.push(ClassItem::Range(c, d));
            } else {
                items.push(ClassItem::Char(c));
            }
        }
        Ok(items)
    }

    /// One code-point escape inside a class, the cursor past the backslash.
    /// Inside a class `\b` is a backspace.
    fn class_escape_char(&mut self) -> (r: Result<u32, Error>)
        requires
            old(self).wf(),
        ensures
            r is Ok ==> old(self).only_moved(&*final(self)) && final(self).i > old(self).i,
            class_escape_ok(
                old(self).syntax,
                old(self).codes@,
                old(self).i as int,
                r,
                final(self).i as int,
            ),
    {
        let b = match self.peek_byte() {
            Some(b) => b,
            None => return Err(self.err("end in class")),
        };
        if b == 120 {
            self.skip(1);
            Ok(self.parse_hex_escape())
        } else if b == 117 && self.syntax.has_op2(op2::ESC_U_HEX4) {
            self.skip(1);
            self.parse_u_hex(4)
        } else if b == 111 && self.syntax.has_op(op::ESC_O_BRACE_OCTAL) {
            self.skip(1);
            Ok(self.parse_oct_brace())
        } else if b == 99 && self.syntax.has_op(op::ESC_C_CONTROL) {
            self.skip(1);
            let c = self.bump()?;
            Ok(c & 0x1f)
        } else if b == 114 {
            self.skip(1);
            Ok(0x0d)
        } else if b == 102 {
            self.skip(1);
            Ok(0x0c)
        } else if b == 118 {
            self.skip(1);
            Ok(0x0b)
        } else if b == 97 {
            self.skip(1);
            Ok(0x07)
        } else if b == 101 {
            self.skip(1);
            Ok(0x1b)
        } else if b == 98 {
            self.skip(1);
            Ok(0x08)
        } else if 48 <= b && b <= 55 && self.syntax.has_op(op::ESC_OCTAL3) {
            let (v, _count) = self.read_octal();
            Ok(v)
        } else {
            self.bump()
        }
    }

    /// `[:name:]` or `[:^name:]`, the cursor at the `[`.
    fn parse_posix(&mut self) -> (r: ClassItem)
        requires
            old(self).wf(),
            old(self).i + 2 <= old(self).codes@.len(),
        ensures
            old(self).only_moved(&*final(self)),
            final(self).i > old(self).i,
    {
        self.skip(2);
        let neg = if self.is_at(94) {
            self.skip(1);
            true
        } else {
            false
        };
        let name = self.collect_until(58);
        self.skip_if_at(58);
        self.skip_if_at(93);
        ClassItem::Posix { name, neg }
    }

    /// The code points up to `end` (not taken), as a name; it may not be
    /// empty.
    fn read_name(&mut self, end: u8) -> (r: Result<String, Error>)
        requires
            old(self).wf(),
        ensures
            r is Ok ==> old(self).only_moved(&*final(self)),
            final(self).options == old(self).options,
            ({
                let stop = stop_at(old(self).codes@, old(self).i as int, end);
                let name = scalars_of(old(self).codes@, old(self).i as int, stop);
                &&& (r is Ok <==> name.len() > 0)
                &&& (r matches Ok(n) ==> n@ == name && final(self).i == stop + (if stop < old(
                    self,
                ).codes@.len() {
                    1int
                } else {
                    0int
                }))
            }),
    {
        let name = self.collect_until(end);
        proof {
            lemma_stop_at(self.codes@, old(self).i as int, end);
        }
        if name.unicode_len() == 0 {
            return Err(self.err("empty group name"));
        }
        self.skip_if_at(end);
        Ok(name)
    }

    /// ASCII letters, digits and `_` at the cursor.
    fn read_ident(&mut self) -> (r: String)
        requires
            old(self).wf(),
        ensures
            old(self).only_moved(&*final(self)),
            forall|k: int|
                old(self).i <= k < final(self).i ==> is_ident_code(#[trigger] old(self).codes@[k].1),
            !(final(self).i < old(self).codes@.len() && is_ident_code(
                old(self).codes@[final(self).i as int].1,
            )),
            r@ == Seq::new(
                (final(self).i - old(self).i) as nat,
                |k: int| old(self).codes@[old(self).i + k].1 as char,
            ),
            final(self).i == ident_end(old(self).codes@, old(self).i as int),
    {
        let mut name = String::new();
        let ghost i0 = self.i as int;
        loop
            invariant
                old(self).only_moved(&*self),
                i0 == old(self).i,
                forall|k: int| i0 <= k < self.i ==> is_ident_code(#[trigger] self.codes@[k].1),
                name@ == Seq::new((self.i - i0) as nat, |k: int| self.codes@[i0 + k].1 as char),
            ensures
                old(self).only_moved(&*self),
                forall|k: int| i0 <= k < self.i ==> is_ident_code(#[trigger] self.codes@[k].1),
                name@ == Seq::new((self.i - i0) as nat, |k: int| self.codes@[i0 + k].1 as char),
                !(self.i < self.codes@.len() && is_ident_code(self.codes@[self.i as int].1)),
            decreases self.left(),
        {
            match self.peek_byte() {
                Some(b) => {
                    if !is_ident_byte(b) {
                        break;
                    }
                    let ghost before = self.i as int;
                    let ghost n0 = name@;
                    match char_from_u32(b as u32) {
                        Some(ch) => push_char(&mut name, ch),
                        None => {},
                    }
                    self.skip(1);
                    proof {
                        assert(self.codes@[before].1 == b as u32);
                        assert(name@ =~= Seq::new(
                            (self.i - i0) as nat,
                            |k: int| self.codes@[i0 + k].1 as char,
                        )) by {
                            assert(name@ == n0.push((b as u32) as char));
                        }
                    }
                },
                None => break,
            }
        }
        proof {
            lemma_ident_end(self.codes@, i0, self.i as int);
        }
        name
    }

    /// The characters up to `end` (not taken); code points that are no
    /// character are passed over.
    fn collect_until(&mut self, end: u8) -> (r: String)
        requires
            old(self).wf(),
        ensures
            old(self).only_moved(&*final(self)),
            final(self).options == old(self).options,
            final(self).i == stop_at(old(self).codes@, old(self).i as int, end),
            r@ == scalars_of(old(self).codes@, old(self).i as int, final(self).i as int),
    {
        let mut s = String::new();
        let ghost i0 = self.i as int;
        loop
            invariant
                old(self).only_moved(&*self),
                self.options == old(self).options,
                i0 == old(self).i,
                stop_at(self.codes@, i0, end) == stop_at(self.codes@, self.i as int, end),
                s@ == scalars_of(self.codes@, i0, self.i as int),
            ensures
                old(self).only_moved(&*self),
                self.options == old(self).options,
                self.i == stop_at(self.codes@, i0, end),
                s@ == scalars_of(self.codes@, i0, self.i as int),
            decreases self.left(),
        {
            match self.peek_code() {
                Some(c) => {
                    if c == end as u32 {
                        break;
                    }
                    let ghost before = self.i as int;
                    match char_from_u32(c) {
                        Some(ch) => push_char(&mut s, ch),
                        None => {},
                    }
                    self.skip(1);
                    proof {
                        assert(self.codes@[before].1 == c);
                        assert(stop_at(self.codes@, before, end) == stop_at(self.codes@, before + 1, end));
                    }
                },
                None => break,
            }
        }
        s
    }

    /// A decimal number; none, or one past `u32::MAX`, is an error.
    fn read_int(&mut self) -> (r: Result<u32, Error>)
        requires
            old(self).wf(),
        ensures
            r is Ok ==> old(self).only_moved(&*final(self)) && final(self).i > old(self).i,
            old(self).only_moved(&*final(self)),
            final(self).options == old(self).options,
            all_digits(old(self).codes@, old(self).i as int, final(self).i as int),
            !is_digit_at(old(self).codes@, final(self).i as int),
            r is Ok <==> (final(self).i > old(self).i && dec_value(
                old(self).codes@,
                old(self).i as int,
                final(self).i as int,
            ) <= u32::MAX),
            r matches Ok(v) ==> v == dec_value(
                old(self).codes@,
                old(self).i as int,
                final(self).i as int,
            ),
            final(self).i == digit_end(old(self).codes@, old(self).i as int),
    {
        let (count, val) = self.read_decimal();
        proof {
            lemma_digit_end(old(self).codes@, old(self).i as int, self.i as int);
        }
        if count == 0 {
            return Err(self.err("expected number"));
        }
        match val {
            Some(v) => Ok(v),
            None => Err(self.err("bad number")),
        }
    }

    /// An optionally signed decimal number, taken as an `i32` the way a
    /// two's-complement cast takes it.
    fn read_signed_int(&mut self) -> (r: Result<i32, Error>)
        requires
            old(self).wf(),
        ensures
            r is Ok ==> old(self).only_moved(&*final(self)) && final(self).i > old(self).i,
            ({
                let c = byte_at(old(self).codes@, old(self).i as int);
                let s = old(self).i + (if c == Some(45u8) || c == Some(43u8) {
                    1int
                } else {
                    0int
                });
                &&& all_digits(old(self).codes@, s, final(self).i as int)
                &&& !is_digit_at(old(self).codes@, final(self).i as int)
                &&& final(self).i == digit_end(old(self).codes@, s)
                &&& (r is Ok <==> (final(self).i > s && dec_value(
                    old(self).codes@,
                    s,
                    final(self).i as int,
                ) <= u32::MAX))
                &&& (r matches Ok(n) ==> n == signed_of(
                    c == Some(45u8),
                    dec_value(old(self).codes@, s, final(self).i as int) as u32,
                ))
            }),
    {
        let neg = if self.is_at(45) {
            self.skip(1);
            true
        } else {
            self.skip_if_at(43);
            false
        };
        let n = self.read_int()? as i32;
        Ok(
            if neg {
                if n == i32::MIN {
                    n
                } else {
                    -n
                }
            } else {
                n
            },
        )
    }

    /// Up to three octal digits, and how many were read.
    fn read_octal(&mut self) -> (r: (u32, usize))
        requires
            old(self).wf(),
        ensures
            old(self).only_moved(&*final(self)),
            final(self).i == old(self).i + r.1,
            final(self).options == old(self).options,
            (byte_at(old(self).codes@, old(self).i as int) matches Some(b) && 48 <= b <= 55) ==> r.1
                > 0,
            final(self).i == oct3_end(old(self).codes@, old(self).i as int),
            r.0 == oct_num(old(self).codes@, old(self).i as int, final(self).i as int),
    {
        let mut v: u32 = 0;
        let mut k: usize = 0;
        let ghost c = self.codes@;
        let ghost i0 = self.i as int;
        proof {
            lemma_oct_end_from(c, i0);
        }
        while k < 3 && self.peek_octal().is_some()
            invariant
                old(self).only_moved(&*self),
                self.i == old(self).i + k,
                self.options == old(self).options,
                k <= 3,
                k == 0 ==> v == 0,
                k == 1 ==> v < 8,
                k == 2 ==> v < 64,
                v < 512,
                c == self.codes@,
                i0 == old(self).i,
                oct_end(c, i0) >= self.i,
                oct_end(c, i0) == oct_end(c, self.i as int),
                v == oct_num(c, i0, self.i as int),
            decreases 3 - k,
        {
            proof {
                lemma_oct_end_from(c, self.i + 1);
            }
            let d = match self.peek_octal() {
                Some(d) => d,
                None => 0,
            };
            self.skip(1);
            v = v * 8 + d as u32;
            k = k + 1;
        }
        proof {
            lemma_oct_end_from(c, self.i as int);
        }
        (v, k)
    }
}

/// A class holding the one item: how `\w`, `\d`, `\p{..}` and the like
/// stand outside brackets.
fn class_ctype(item: ClassItem) -> (r: Node)
    ensures
        r matches Node::Class(cc) && !cc.negate && cc.items@ == seq![item],
{
    let mut v: Vec<ClassItem> = Vec::new();
    v.push(item);
    Node::Class(CharClass { negate: false, items: v })
}

/// The value of a hex digit.
fn hex_val(b: u8) -> (r: Option<u8>)
    ensures
        r == (if 48 <= b <= 57 {
            Some((b - 48) as u8)
        } else if 97 <= b <= 102 {
            Some((b - 87) as u8)
        } else if 65 <= b <= 70 {
            Some((b - 55) as u8)
        } else {
            None::<u8>
        }),
{
    if 48 <= b && b <= 57 {
        Some(b - 48)
    } else if 97 <= b && b <= 102 {
        Some(b - 87)
    } else if 65 <= b && b <= 70 {
        Some(b - 55)
    } else {
        None
    }
}

/// Does the call target `t` name group `target`?
/// `t` calls group `target`: by number, as the whole pattern (group 0), or
/// by the name that group carries.
pub open spec fn call_is_spec(t: CallTarget, target: usize, names: Seq<Option<String>>) -> bool {
    match t {
        CallTarget::Number(n) => n >= 0 && n as usize == target,
        CallTarget::Whole => target == 0,
        CallTarget::Name(n) => target < names.len() && (names[target as int] matches Some(s) && s@
            == n@),
    }
}

/// `n` can match the empty string, as far as the recursion check needs:
/// empty, an anchor, `\K`, a look-around, a repetition that may run zero
/// times, a group of such, a sequence of such, an alternation with one.
pub open spec fn nullable_spec(n: Node) -> bool
    decreases n, 0int,
{
    match n {
        Node::Empty | Node::Anchor(_) | Node::Keep | Node::Look { .. } => true,
        Node::Repeat { min, .. } => min == 0,
        Node::Group(inner) => nullable_spec(*inner),
        Node::Capture { inner, .. } => nullable_spec(*inner),
        Node::Options { inner, .. } => nullable_spec(*inner),
        Node::Concat(v) => nullable_all_spec(v, 0),
        Node::Alt(v) => nullable_any_spec(v, 0),
        _ => false,
    }
}

/// Every tree of `v` from `i` on can match the empty string.
pub open spec fn nullable_all_spec(v: Vec<Node>, i: int) -> bool
    decreases v, v@.len() - i,
{
    if i < 0 || i >= v@.len() {
        true
    } else {
        nullable_spec(v@[i]) && nullable_all_spec(v, i + 1)
    }
}

/// Some tree of `v` from `i` on can match the empty string.
pub open spec fn nullable_any_spec(v: Vec<Node>, i: int) -> bool
    decreases v, v@.len() - i,
{
    if i < 0 || i >= v@.len() {
        false
    } else {
        nullable_spec(v@[i]) || nullable_any_spec(v, i + 1)
    }
}

/// `n` can reach a call of group `target` before consuming anything.
pub open spec fn left_calls_spec(n: Node, target: usize, names: Seq<Option<String>>) -> bool
    decreases n, 0int,
{
    match n {
        Node::Call(t) => call_is_spec(t, target, names),
        Node::Concat(v) => left_calls_seq_spec(v, 0, target, names),
        Node::Alt(v) => left_calls_any_spec(v, 0, target, names),
        Node::Repeat { inner, .. } => left_calls_spec(*inner, target, names),
        Node::Group(inner) => left_calls_spec(*inner, target, names),
        Node::Capture { inner, .. } => left_calls_spec(*inner, target, names),
        Node::Atomic(inner) => left_calls_spec(*inner, target, names),
        Node::Options { inner, .. } => left_calls_spec(*inner, target, names),
        Node::Conditional { then_n, else_n, .. } => left_calls_spec(*then_n, target, names)
            || match else_n {
            Some(e) => left_calls_spec(*e, target, names),
            None => false,
        },
        _ => false,
    }
}

/// The sequence `v[i..]` reaches the call: an element does while all
/// before it can be empty.
pub open spec fn left_calls_seq_spec(
    v: Vec<Node>,
    i: int,
    target: usize,
    names: Seq<Option<String>>,
) -> bool
    decreases v, v@.len() - i,
{
    if i < 0 || i >= v@.len() {
        false
    } else if nullable_spec(v@[i]) {
        left_calls_spec(v@[i], target, names) || left_calls_seq_spec(v, i + 1, target, names)
    } else {
        left_calls_spec(v@[i], target, names)
    }
}

/// Some tree of `v` from `i` on reaches the call.
pub open spec fn left_calls_any_spec(
    v: Vec<Node>,
    i: int,
    target: usize,
    names: Seq<Option<String>>,
) -> bool
    decreases v, v@.len() - i,
{
    if i < 0 || i >= v@.len() {
        false
    } else {
        left_calls_spec(v@[i], target, names) || left_calls_any_spec(v, i + 1, target, names)
    }
}

/// Some group of `n` calls itself before consuming anything.
pub open spec fn left_recursive(n: Node, names: Seq<Option<String>>) -> bool
    decreases n, 0int,
{
    match n {
        Node::Capture { index, inner, .. } => left_calls_spec(*inner, index, names)
            || left_recursive(*inner, names),
        Node::Concat(v) => left_recursive_any(v, 0, names),
        Node::Alt(v) => left_recursive_any(v, 0, names),
        Node::Repeat { inner, .. } => left_recursive(*inner, names),
        Node::Group(inner) => left_recursive(*inner, names),
        Node::Look { inner, .. } => left_recursive(*inner, names),
        Node::Atomic(inner) => left_recursive(*inner, names),
        Node::Options { inner, .. } => left_recursive(*inner, names),
        Node::Absent { stopper, expr, .. } => left_recursive(*stopper, names) || match expr {
            Some(e) => left_recursive(*e, names),
            None => false,
        },
        Node::Conditional { then_n, else_n, .. } => left_recursive(*then_n, names) || match else_n {
            Some(e) => left_recursive(*e, names),
            None => false,
        },
        _ => false,
    }
}

/// Some tree of `v` from `i` on is left-recursive.
pub open spec fn left_recursive_any(v: Vec<Node>, i: int, names: Seq<Option<String>>) -> bool
    decreases v, v@.len() - i,
{
    if i < 0 || i >= v@.len() {
        false
    } else {
        left_recursive(v@[i], names) || left_recursive_any(v, i + 1, names)
    }
}

fn call_is(t: &CallTarget, target: usize, names: &Vec<Option<String>>) -> (r: bool)
    ensures
        r == call_is_spec(*t, target, names@),
{
    match t {
        CallTarget::Number(n) => *n >= 0 && *n as usize == target,
        CallTarget::Whole => target == 0,
        CallTarget::Name(n) => {
            if target < names.len() {
                match &names[target] {
                    Some(s) => str_eq(s.as_str(), n.as_str()),
                    None => false,
                }
            } else {
                false
            }
        },
    }
}

/// Can `n` match the empty string (as far as the recursion check needs)?
fn nullable(n: &Node) -> (r: bool)
    ensures
        r == nullable_spec(*n),
    decreases n,
{
    match n {
        Node::Empty | Node::Anchor(_) | Node::Keep | Node::Look { .. } => true,
        Node::Repeat { min, .. } => *min == 0,
        Node::Group(inner) => nullable(inner),
        Node::Capture { inner, .. } => nullable(inner),
        Node::Options { inner, .. } => nullable(inner),
        Node::Concat(v) => nullable_all(v),
        Node::Alt(v) => nullable_any(v),
        _ => false,
    }
}

fn nullable_all(v: &Vec<Node>) -> (r: bool)
    ensures
        r == nullable_all_spec(*v, 0),
    decreases v,
{
    let mut i: usize = 0;
    while i < v.len()
        invariant
            i <= v@.len(),
            nullable_all_spec(*v, 0) == nullable_all_spec(*v, i as int),
        decreases v@.len() - i,
    {
        proof {
            assert(decreases_to!(v => v@[i as int]));
        }
        if !nullable(&v[i]) {
            return false;
        }
        i = i + 1;
    }
    true
}

fn nullable_any(v: &Vec<Node>) -> (r: bool)
    ensures
        r == nullable_any_spec(*v, 0),
    decreases v,
{
    let mut i: usize = 0;
    while i < v.len()
        invariant
            i <= v@.len(),
            nullable_any_spec(*v, 0) == nullable_any_spec(*v, i as int),
        decreases v@.len() - i,
    {
        proof {
            assert(decreases_to!(v => v@[i as int]));
        }
        if nullable(&v[i]) {
            return true;
        }
        i = i + 1;
    }
    false
}

/// Can `n` reach a call of group `target` before consuming anything?
fn left_calls(n: &Node, target: usize, names: &Vec<Option<String>>) -> (r: bool)
    ensures
        r == left_calls_spec(*n, target, names@),
    decreases n,
{
    match n {
        Node::Call(t) => call_is(t, target, names),
        Node::Concat(v) => left_calls_seq(v, target, names),
        Node::Alt(v) => left_calls_any(v, target, names),
        Node::Repeat { inner, .. } => left_calls(inner, target, names),
        Node::Group(inner) => left_calls(inner, target, names),
        Node::Capture { inner, .. } => left_calls(inner, target, names),
        Node::Atomic(inner) => left_calls(inner, target, names),
        Node::Options { inner, .. } => left_calls(inner, target, names),
        Node::Conditional { then_n, else_n, .. } => {
            if left_calls(then_n, target, names) {
                true
            } else {
                match else_n {
                    Some(e) => left_calls(e, target, names),
                    None => false,
                }
            }
        },
        _ => false,
    }
}

/// A sequence reaches the call if an element does while everything
/// before it can be empty.
fn left_calls_seq(v: &Vec<Node>, target: usize, names: &Vec<Option<String>>) -> (r: bool)
    ensures
        r == left_calls_seq_spec(*v, 0, target, names@),
    decreases v,
{
    let mut i: usize = 0;
    while i < v.len()
        invariant
            i <= v@.len(),
            left_calls_seq_spec(*v, 0, target, names@) == left_calls_seq_spec(*v, i as int, target, names@),
        decreases v@.len() - i,
    {
        proof {
            assert(decreases_to!(v => v@[i as int]));
        }
        if nullable(&v[i]) {
            if left_calls(&v[i], target, names) {
                return true;
            }
            i = i + 1;
            continue;
        }
        return left_calls(&v[i], target, names);
    }
    false
}

fn left_calls_any(v: &Vec<Node>, target: usize, names: &Vec<Option<String>>) -> (r: bool)
    ensures
        r == left_calls_any_spec(*v, 0, target, names@),
    decreases v,
{
    let mut i: usize = 0;
    while i < v.len()
        invariant
            i <= v@.len(),
            left_calls_any_spec(*v, 0, target, names@) == left_calls_any_spec(*v, i as int, target, names@),
        decreases v@.len() - i,
    {
        proof {
            assert(decreases_to!(v => v@[i as int]));
        }
        if left_calls(&v[i], target, names) {
            return true;
        }
        i = i + 1;
    }
    false
}

/// Does some group of `n` call itself before consuming anything?
fn has_left_recursion(n: &Node, names: &Vec<Option<String>>) -> (r: bool)
    ensures
        r == left_recursive(*n, names@),
    decreases n,
{
    match n {
        Node::Capture { index, inner, .. } => {
            left_calls(inner, *index, names) || has_left_recursion(inner, names)
        },
        Node::Concat(v) => has_left_recursion_any(v, names),
        Node::Alt(v) => has_left_recursion_any(v, names),
        Node::Repeat { inner, .. } => has_left_recursion(inner, names),
        Node::Group(inner) => has_left_recursion(inner, names),
        Node::Look { inner, .. } => has_left_recursion(inner, names),
        Node::Atomic(inner) => has_left_recursion(inner, names),
        Node::Options { inner, .. } => has_left_recursion(inner, names),
        Node::Absent { stopper, expr, .. } => {
            if has_left_recursion(stopper, names) {
                true
            } else {
                match expr {
                    Some(e) => has_left_recursion(e, names),
                    None => false,
                }
            }
        },
        Node::Conditional { then_n, else_n, .. } => {
            if has_left_recursion(then_n, names) {
                true
            } else {
                match else_n {
                    Some(e) => has_left_recursion(e, names),
                    None => false,
                }
            }
        },
        _ => false,
    }
}

fn has_left_recursion_any(v: &Vec<Node>, names: &Vec<Option<String>>) -> (r: bool)
    ensures
        r == left_recursive_any(*v, 0, names@),
    decreases v,
{
    let mut i: usize = 0;
    while i < v.len()
        invariant
            i <= v@.len(),
            left_recursive_any(*v, 0, names@) == left_recursive_any(*v, i as int, names@),
        decreases v@.len() - i,
    {
        proof {
            assert(decreases_to!(v => v@[i as int]));
        }
        if has_left_recursion(&v[i], names) {
            return true;
        }
        i = i + 1;
    }
    false
}

/// Refuses a pattern in which a group calls itself before it consumes
/// anything: that recursion would never end.
fn check_never_ending_recursion(root: &Node, names: &Vec<Option<String>>) -> (r: Result<(), Error>)
    ensures
        r is Err ==> r->Err_0.kind == ErrorKind::NeverEndingRecursion,
        r is Err <==> left_recursive(*root, names@),
{
    if has_left_recursion(root, names) {
        return Err(Error::kind_msg(ErrorKind::NeverEndingRecursion, "never-ending recursion"));
    }
    Ok(())
}

/// Parse `pattern` in `enc` under `syntax` and `options`.
///
/// Group 0 is the whole match; `names` holds one slot per group.
pub fn parse(pattern: &[u8], enc: Encoding, syntax: Syntax, options: Options) -> (r: Result<
    ParseResult,
    Error,
>)
    ensures
        r matches Ok(pr) ==> pr.capture_count >= 1 && pr.names@.len() == pr.capture_count
            && (syntax.op2_on(op2::QMARK_LT_NAMED_GROUP) && named_from(pattern@, 0, false)
            ==> pr.has_named),
        decoded(enc, pattern@, 0) is None ==> r is Err,
        r matches Ok(pr) ==> !left_recursive(pr.root, pr.names@),
        ({
            let d = decoded(enc, pattern@, 0);
            d is Some && d->0.len() < usize::MAX && text_from(syntax, d->0, 0) ==> (r matches Ok(pr)
                && text_tree(pr.root) && text_of(pr.root) =~= Seq::new(d->0.len(), |k: int| d->0[k].1)
                && pr.capture_count == 1)
        }),
{
    let codes = decode_pattern(pattern, enc)?;
    if codes.len() == usize::MAX {
        return Err(Error::kind_msg(ErrorKind::InvalidArgument, "pattern too long"));
    }
    let mut names: Vec<Option<String>> = Vec::new();
    names.push(None);
    let mut p = Parser {
        pat: pattern,
        codes,
        syntax,
        options,
        i: 0,
        capture_count: 1,
        names,
        has_named: scan_has_named_group(pattern, syntax),
        depth: 0,
    };
    let root = p.parse_alts()?;
    proof {
        if text_tree(root) {
            lemma_text_not_left_recursive(root, p.names@);
        }
    }
    if p.i != p.codes.len() && p.is_at(41) && !syntax.has_behavior(
        behavior::ALLOW_UNMATCHED_CLOSE_SUBEXP,
    ) {
        return Err(Error::compile(p.i, "unmatched close parenthesis"));
    }
    check_never_ending_recursion(&root, &p.names)?;
    Ok(
        ParseResult {
            root,
            capture_count: p.capture_count,
            names: p.names,
            has_named: p.has_named,
            options: p.options,
        },
    )
}

} // verus!
