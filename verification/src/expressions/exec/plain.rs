//! What a program of the plain fragment matches: one that only reads
//! characters, tests anchors and chooses between alternatives, with no
//! repetition, look-around, `\G`, back-reference, call, option change or
//! callout.
//!
//! Its meaning is the first match in priority order: at a `Split` the first
//! branch is tried before the second, as a backtracking matcher does.

use vstd::prelude::*;
use super::classes::{class_spec, fold_spec};
use super::super::ast::{Anchor, CharClass};
use super::super::encoding::Encoding;
use super::super::opcode::Inst;
use super::super::syntax::Options;
use super::super::unicode::{grapheme_break_spec, word_spec, UserProperty};

verus! {

/// The character at `pos` of `hay`, read no further than `end`: its code
/// point and its length in bytes.
pub open spec fn char_at_spec(enc: Encoding, hay: Seq<u8>, pos: int, end: int) -> Option<(u32, nat)> {
    if pos < 0 || pos >= end || end > hay.len() {
        None
    } else {
        let rest = hay.subrange(pos, end);
        match enc.char_len(rest) {
            Some(n) => if 0 < n <= rest.len() {
                match enc.decode_spec(rest, n) {
                    Some(c) => Some((c, n)),
                    None => None,
                }
            } else {
                None
            },
            None => None,
        }
    }
}

/// The character that ends at `pos`: one byte back when it is ASCII in an
/// encoding where such a byte is always a whole character, else the
/// character from where `prev_start_spec` places its start.
pub open spec fn char_before_spec(enc: Encoding, hay: Seq<u8>, pos: int) -> Option<u32> {
    if pos <= 0 || pos > hay.len() {
        None
    } else if enc.ascii_transparent_spec() && hay[pos - 1] < 0x80 {
        Some(hay[pos - 1] as u32)
    } else {
        match enc.prev_start_spec(hay, 0, pos) {
            Some(q) => {
                let rest = hay.subrange(q, pos);
                if enc.ascii_transparent_spec() && rest.len() > 0 && rest[0] < 0x80 {
                    Some(rest[0] as u32)
                } else {
                    enc.decode_spec(rest, rest.len())
                }
            },
            None => None,
        }
    }
}

/// A word character starts at `pos`.
pub open spec fn word_at_spec(enc: Encoding, hay: Seq<u8>, end: int, opt: Options, pos: int) -> bool {
    match char_at_spec(enc, hay, pos, end) {
        Some((c, _)) => word_spec(enc, opt, c),
        None => false,
    }
}

/// A word character ends at `pos`.
pub open spec fn word_before_spec(enc: Encoding, hay: Seq<u8>, opt: Options, pos: int) -> bool {
    match char_before_spec(enc, hay, pos) {
        Some(c) => word_spec(enc, opt, c),
        None => false,
    }
}

/// `pos` is a text-segment boundary: either end, or a grapheme break between
/// the characters around it.
pub open spec fn seg_bound_spec(enc: Encoding, hay: Seq<u8>, end: int, pos: int) -> bool {
    if pos == 0 || pos >= end {
        true
    } else {
        match char_at_spec(enc, hay, pos, end) {
            Some((cur, _)) => grapheme_break_spec(char_before_spec(enc, hay, pos), cur),
            None => true,
        }
    }
}

/// Whether anchor `a` holds at `pos` (`\G` aside, which depends on where a
/// search began).
pub open spec fn anchor_spec(a: Anchor, enc: Encoding, hay: Seq<u8>, end: int, opt: Options, pos: int) -> bool {
    match a {
        Anchor::Bol => if pos == 0 {
            !opt.has(Options::notbol_spec())
        } else if pos >= end {
            false
        } else {
            char_before_spec(enc, hay, pos) == Some(0x0au32)
        },
        Anchor::Eol => if pos >= end {
            !opt.has(Options::noteol_spec())
        } else {
            match char_at_spec(enc, hay, pos, end) {
                Some((c, _)) => c == 0x0a,
                None => false,
            }
        },
        Anchor::Bos => pos == 0 && !opt.has(Options::not_begin_string_spec()),
        Anchor::Eos => pos >= end && !opt.has(Options::not_end_string_spec()),
        Anchor::EosNl => if pos >= end {
            !opt.has(Options::not_end_string_spec())
        } else {
            match char_at_spec(enc, hay, pos, end) {
                Some((c, n)) => c == 0x0a && pos + n >= end,
                None => false,
            }
        },
        Anchor::WordBound => word_before_spec(enc, hay, opt, pos) != word_at_spec(enc, hay, end, opt, pos),
        Anchor::NotWordBound => word_before_spec(enc, hay, opt, pos) == word_at_spec(enc, hay, end, opt, pos),
        Anchor::WordBegin => !word_before_spec(enc, hay, opt, pos) && word_at_spec(enc, hay, end, opt, pos),
        Anchor::WordEnd => word_before_spec(enc, hay, opt, pos) && !word_at_spec(enc, hay, end, opt, pos),
        Anchor::G => false,
        Anchor::TextSegBound => seg_bound_spec(enc, hay, end, pos),
        Anchor::NotTextSegBound => !seg_bound_spec(enc, hay, end, pos),
    }
}

/// Where a step over the character `want` at `pos` ends: the character
/// there is `want`, or folds to the same under `IGNORECASE`.
pub open spec fn char_step(
    enc: Encoding,
    hay: Seq<u8>,
    end: int,
    opt: Options,
    pos: int,
    want: u32,
) -> Option<int> {
    match char_at_spec(enc, hay, pos, end) {
        Some((cp, n)) => if char_matches(want, cp, opt) {
            Some(pos + n)
        } else {
            None
        },
        None => None,
    }
}

/// The character `cp` stands for `want`: the same, or under `IGNORECASE`
/// the same after case folding.
pub open spec fn char_matches(want: u32, cp: u32, opt: Options) -> bool {
    cp == want || (opt.has(Options::ignorecase_spec()) && (want == cp || fold_spec(
        want,
        opt.has(Options::ignorecase_is_ascii_spec()),
    ) == fold_spec(cp, opt.has(Options::ignorecase_is_ascii_spec()))))
}

/// Where a step over any character at `pos` ends; a line feed only counts
/// when `newline_ok` or `super_any`.
pub open spec fn any_step(
    enc: Encoding,
    hay: Seq<u8>,
    end: int,
    pos: int,
    newline_ok: bool,
    super_any: bool,
) -> Option<int> {
    match char_at_spec(enc, hay, pos, end) {
        Some((cp, n)) => if !super_any && !newline_ok && cp == 0x0a {
            None
        } else {
            Some(pos + n)
        },
        None => None,
    }
}

/// Where a step over a member of `cc` at `pos` ends.
pub open spec fn class_step(
    enc: Encoding,
    hay: Seq<u8>,
    end: int,
    opt: Options,
    props: Seq<UserProperty>,
    pos: int,
    cc: CharClass,
) -> Option<int> {
    match char_at_spec(enc, hay, pos, end) {
        Some((cp, n)) => if class_spec(cc, cp, enc, opt, props) {
            Some(pos + n)
        } else {
            None
        },
        None => None,
    }
}

/// Steps over the characters `v[k..]`, one after another, from `pos`.
pub open spec fn chars_step(
    enc: Encoding,
    hay: Seq<u8>,
    end: int,
    opt: Options,
    pos: int,
    v: Seq<u32>,
    k: int,
) -> Option<int>
    decreases v.len() - k,
{
    if k < 0 || k >= v.len() {
        Some(pos)
    } else {
        match char_step(enc, hay, end, opt, pos, v[k]) {
            Some(p) => chars_step(enc, hay, end, opt, p, v, k + 1),
            None => None,
        }
    }
}

/// The bytes of an all-ASCII literal.
pub open spec fn ascii_lit(v: Seq<u32>) -> Option<Seq<u8>> {
    if forall|k: int| 0 <= k < v.len() ==> v[k] <= 0x7F {
        Some(Seq::new(v.len(), |k: int| v[k] as u8))
    } else {
        None
    }
}

/// Literals are compared byte for byte when they are all ASCII, case
/// matters and every character can be one byte long; otherwise character
/// by character.
pub open spec fn compares_bytes(enc: Encoding, opt: Options, v: Seq<u32>) -> bool {
    !opt.has(Options::ignorecase_spec()) && enc.min_len_spec() == 1 && ascii_lit(v) is Some
}

/// Where a step over the literal `v` at `pos` ends.
pub open spec fn lit_step(
    enc: Encoding,
    hay: Seq<u8>,
    end: int,
    opt: Options,
    pos: int,
    v: Seq<u32>,
) -> Option<int> {
    if compares_bytes(enc, opt, v) {
        let b = ascii_lit(v)->0;
        if 0 <= pos && pos + b.len() <= end && end <= hay.len() && hay.subrange(pos, pos + b.len())
            == b {
            Some(pos + b.len())
        } else {
            None
        }
    } else {
        chars_step(enc, hay, end, opt, pos, v, 0)
    }
}

/// The pre-rendered bytes beside an instruction: present exactly for an
/// all-ASCII literal in an encoding whose characters can be one byte long,
/// and then its bytes.
pub open spec fn lit_bytes_at(inst: Inst, lit: Option<Vec<u8>>, enc: Encoding) -> bool {
    match inst {
        Inst::Literal(v) => if enc.min_len_spec() == 1 && ascii_lit(v@) is Some {
            lit matches Some(b) && b@ == ascii_lit(v@)->0
        } else {
            lit is None
        },
        _ => lit is None,
    }
}

/// One entry of pre-rendered bytes per instruction, each as it should be.
pub open spec fn lit_bytes_agree(insts: Seq<Inst>, lits: Seq<Option<Vec<u8>>>, enc: Encoding) -> bool {
    &&& lits.len() == insts.len()
    &&& forall|pc: int| 0 <= pc < lits.len() ==> #[trigger] lit_bytes_at(insts[pc], lits[pc], enc)
}

/// A matcher's answer `v` is the position `e` the meaning gives.
pub open spec fn same_end(v: Option<usize>, e: Option<int>) -> bool {
    match v {
        Some(n) => e == Some(n as int),
        None => e is None,
    }
}

/// The instructions of the plain fragment.
pub open spec fn plain_inst(inst: Inst) -> bool {
    match inst {
        Inst::Nop | Inst::Char(_) | Inst::Literal(_) | Inst::Any { .. } | Inst::SuperAny
        | Inst::Class { .. } | Inst::Split(_, _) | Inst::Jump(_) | Inst::Save(_) | Inst::Match
        | Inst::Fail => true,
        Inst::Assert(a) => !(a is G),
        _ => false,
    }
}

/// Every instruction of `insts` is of the plain fragment.
pub open spec fn plain_program(insts: Seq<Inst>) -> bool {
    forall|pc: int| 0 <= pc < insts.len() ==> #[trigger] plain_inst(insts[pc])
}

/// Where the first match in priority order from `pc` at `pos` ends, or
/// `None`: a `Split` takes its second branch only when its first finds no
/// match, and reaching `stop` ends the match there.
pub open spec fn first_end(
    insts: Seq<Inst>,
    enc: Encoding,
    hay: Seq<u8>,
    end: int,
    opt: Options,
    props: Seq<UserProperty>,
    pc: int,
    pos: int,
    stop: Option<usize>,
) -> Option<int>
    decreases insts.len() - pc, 1int,
{
    if stop matches Some(s) && s as int == pc {
        Some(pos)
    } else if pc < 0 || pc >= insts.len() {
        None
    } else {
        match insts[pc] {
            Inst::Nop | Inst::Save(_) => first_end(insts, enc, hay, end, opt, props, pc + 1, pos, stop),
            Inst::Match => Some(pos),
            Inst::Char(c) => match char_step(enc, hay, end, opt, pos, c) {
                Some(p) => first_end(insts, enc, hay, end, opt, props, pc + 1, p, stop),
                None => None,
            },
            Inst::Literal(v) => match lit_step(enc, hay, end, opt, pos, v@) {
                Some(p) => first_end(insts, enc, hay, end, opt, props, pc + 1, p, stop),
                None => None,
            },
            Inst::Any { newline } => match any_step(enc, hay, end, pos, newline, false) {
                Some(p) => first_end(insts, enc, hay, end, opt, props, pc + 1, p, stop),
                None => None,
            },
            Inst::SuperAny => match any_step(enc, hay, end, pos, true, true) {
                Some(p) => first_end(insts, enc, hay, end, opt, props, pc + 1, p, stop),
                None => None,
            },
            Inst::Class { class } => match class_step(enc, hay, end, opt, props, pos, class) {
                Some(p) => first_end(insts, enc, hay, end, opt, props, pc + 1, p, stop),
                None => None,
            },
            Inst::Split(a, b) => if pc < a as int <= insts.len() && pc < b as int <= insts.len() {
                match first_end(insts, enc, hay, end, opt, props, a as int, pos, stop) {
                    Some(e) => Some(e),
                    None => first_end(insts, enc, hay, end, opt, props, b as int, pos, stop),
                }
            } else {
                None
            },
            Inst::Jump(j) => if pc < j as int <= insts.len() {
                first_end(insts, enc, hay, end, opt, props, j as int, pos, stop)
            } else {
                None
            },
            Inst::Assert(a) => if anchor_spec(a, enc, hay, end, opt, pos) {
                first_end(insts, enc, hay, end, opt, props, pc + 1, pos, stop)
            } else {
                None
            },
            Inst::Callout { named, name, .. } => if named && builtin_callout(name@) == Some(true) {
                first_end(insts, enc, hay, end, opt, props, pc + 1, pos, stop)
            } else {
                None
            },
            Inst::Repeat { body, after, min, max, greedy, possessive } => if pc < body as int
                <= insts.len() && pc < after as int <= insts.len() {
                rep_end(
                    first_end_from(insts, enc, hay, end, opt, props, body as int, Some(after as usize)),
                    first_end_from(insts, enc, hay, end, opt, props, after as int, stop),
                    min,
                    max,
                    greedy,
                    possessive,
                    pos,
                    end,
                )
            } else {
                None
            },
            _ => None,
        }
    }
}

/// A built-in callout by its name: `(*FAIL)` and `(*MISMATCH)` fail where
/// they stand (`Some(false)`); `(*SKIP)`, `(*COUNT)` and `(*TOTAL_COUNT)`
/// let the match go on (`Some(true)`), recording a skip point or counting on
/// the side; any other name is `None`.
pub open spec fn builtin_callout(name: Seq<char>) -> Option<bool> {
    if name == "FAIL"@ || name == "MISMATCH"@ {
        Some(false)
    } else if name == "SKIP"@ || name == "COUNT"@ || name == "TOTAL_COUNT"@ {
        Some(true)
    } else {
        None
    }
}

/// `first_end` from `pc`, as a function of where the match starts.
pub open spec fn first_end_from(
    insts: Seq<Inst>,
    enc: Encoding,
    hay: Seq<u8>,
    end: int,
    opt: Options,
    props: Seq<UserProperty>,
    pc: int,
    stop: Option<usize>,
) -> spec_fn(int) -> Option<int>
    decreases insts.len() - pc, 2int,
{
    |p: int| first_end(insts, enc, hay, end, opt, props, pc, p, stop)
}

/// The places a repetition passes through from `p`, after `c` rounds: `p`,
/// then, while fewer than `cap` rounds have run, where the body's first
/// match from the last place ends. A round that fails, ends outside
/// `[p, end]`, or matches nothing once `min` rounds have run, stops it.
pub open spec fn rep_trail(
    body: spec_fn(int) -> Option<int>,
    min: int,
    cap: int,
    end: int,
    p: int,
    c: int,
) -> Seq<int>
    decreases end - p + (if c < min { min - c } else { 0int }),
{
    if c >= cap || p > end || c < 0 {
        seq![p]
    } else {
        match body(p) {
            Some(n) => if n < p || n > end || (n == p && c >= min) {
                seq![p]
            } else {
                seq![p] + rep_trail(body, min, cap, end, n, c + 1)
            },
            None => seq![p],
        }
    }
}

/// The first round count from `k` down to `min` after which `rest`
/// matches.
pub open spec fn pick_down(trail: Seq<int>, rest: spec_fn(int) -> Option<int>, min: int, k: int) -> Option<
    int,
>
    decreases k + 1,
{
    if k < min || k < 0 || k >= trail.len() {
        None
    } else {
        match rest(trail[k]) {
            Some(e) => Some(e),
            None => pick_down(trail, rest, min, k - 1),
        }
    }
}

/// The first round count from `k` up after which `rest` matches.
pub open spec fn pick_up(trail: Seq<int>, rest: spec_fn(int) -> Option<int>, k: int) -> Option<int>
    decreases trail.len() - k,
{
    if k < 0 || k >= trail.len() {
        None
    } else {
        match rest(trail[k]) {
            Some(e) => Some(e),
            None => pick_up(trail, rest, k + 1),
        }
    }
}

/// Where a repetition of `body` from `pos`, then `rest`, first matches. The
/// body is run round after round, each round taking the body's first match
/// (see `rep_trail`); a greedy repetition then tries `rest` after the most
/// rounds first, a lazy one after the fewest, and a possessive one only
/// after all of them, and at least `min` rounds are needed. With no `max`
/// the rounds stop at `u32::MAX`.
pub open spec fn rep_end(
    body: spec_fn(int) -> Option<int>,
    rest: spec_fn(int) -> Option<int>,
    min: u32,
    max: Option<u32>,
    greedy: bool,
    possessive: bool,
    pos: int,
    end: int,
) -> Option<int> {
    let cap: int = match max {
        Some(m) => m as int,
        None => u32::MAX as int,
    };
    if possessive {
        let t = rep_trail(body, min as int, if cap < min { min as int } else { cap }, end, pos, 0);
        if t.len() - 1 < min {
            None
        } else {
            rest(t.last())
        }
    } else {
        picked(rep_trail(body, min as int, cap, end, pos, 0), rest, min as int, greedy)
    }
}

/// An optional part `x?` (at most one round of a body that always moves
/// forward): greedy, it matches one `x` and then the rest, or else the rest
/// alone; lazy, the rest alone first, or else one `x` and then the rest;
/// possessive, one `x` when there is one, and then the rest. So it matches a
/// text exactly when the text is empty or one `x`, followed by the rest.
pub proof fn optional_is_zero_or_one(
    body: spec_fn(int) -> Option<int>,
    rest: spec_fn(int) -> Option<int>,
    greedy: bool,
    possessive: bool,
    pos: int,
    end: int,
)
    requires
        0 <= pos <= end,
        forall|q: int| #[trigger] body(q) matches Some(n) ==> q < n <= end,
    ensures
        rep_end(body, rest, 0, Some(1u32), greedy, possessive, pos, end) == (if possessive {
            match body(pos) {
                Some(n) => rest(n),
                None => rest(pos),
            }
        } else if greedy {
            match body(pos) {
                Some(n) => match rest(n) {
                    Some(e) => Some(e),
                    None => rest(pos),
                },
                None => rest(pos),
            }
        } else {
            match rest(pos) {
                Some(e) => Some(e),
                None => match body(pos) {
                    Some(n) => rest(n),
                    None => None,
                },
            }
        }),
{
    let t = rep_trail(body, 0, 1, end, pos, 0);
    assert(rep_end(body, rest, 0, Some(1u32), greedy, possessive, pos, end) == (if possessive {
        if t.len() - 1 < 0 {
            None
        } else {
            rest(t.last())
        }
    } else {
        picked(t, rest, 0, greedy)
    }));
    match body(pos) {
        Some(n) => {
            assert(rep_trail(body, 0, 1, end, n, 1) == seq![n]);
            assert(t =~= seq![pos, n]);
            assert(pick_down(t, rest, 0, -1) is None);
            assert(pick_down(t, rest, 0, 0) == match rest(pos) {
                Some(e) => Some(e),
                None => pick_down(t, rest, 0, -1),
            });
            assert(pick_down(t, rest, 0, 1) == match rest(n) {
                Some(e) => Some(e),
                None => pick_down(t, rest, 0, 0),
            });
            assert(pick_up(t, rest, 2) is None);
            assert(pick_up(t, rest, 1) == match rest(n) {
                Some(e) => Some(e),
                None => pick_up(t, rest, 2),
            });
            assert(pick_up(t, rest, 0) == match rest(pos) {
                Some(e) => Some(e),
                None => pick_up(t, rest, 1),
            });
        },
        None => {
            assert(t =~= seq![pos]);
            assert(pick_down(t, rest, 0, -1) is None);
            assert(pick_down(t, rest, 0, 0) == match rest(pos) {
                Some(e) => Some(e),
                None => pick_down(t, rest, 0, -1),
            });
            assert(pick_up(t, rest, 1) is None);
            assert(pick_up(t, rest, 0) == match rest(pos) {
                Some(e) => Some(e),
                None => pick_up(t, rest, 1),
            });
        },
    }
}

/// The places a repetition passes through start where it starts and never
/// go back; where every match of the body moves at least `lo` and at most
/// `hi` (when given) bytes, the place after `k` more rounds is that many
/// rounds' worth further on; and no more than `cap - c` rounds are run.
pub proof fn lemma_trail_bounds(
    body: spec_fn(int) -> Option<int>,
    min: int,
    cap: int,
    end: int,
    p: int,
    c: int,
    lo: int,
    hi: Option<int>,
)
    requires
        0 <= c,
        0 <= lo,
        forall|q: int|
            (#[trigger] body(q)) is Some && q <= body(q)->0 ==> q + lo <= body(q)->0 && (hi is Some
                ==> body(q)->0 <= q + hi->0),
    ensures
        rep_trail(body, min, cap, end, p, c).len() >= 1,
        rep_trail(body, min, cap, end, p, c)[0] == p,
        rep_trail(body, min, cap, end, p, c).len() - 1 <= (if c < cap { cap - c } else { 0 }),
        forall|k: int|
            0 <= k < rep_trail(body, min, cap, end, p, c).len() ==> p + k * lo <= #[trigger] rep_trail(
                body,
                min,
                cap,
                end,
                p,
                c,
            )[k] && (hi matches Some(h) ==> rep_trail(body, min, cap, end, p, c)[k] <= p + k * h),
    decreases end - p + (if c < min { min - c } else { 0int }),
{
    let t = rep_trail(body, min, cap, end, p, c);
    assert(0 * lo == 0);
    match hi {
        Some(h) => assert(0 * h == 0),
        None => {},
    }
    if c >= cap || p > end || c < 0 {
        assert(t == seq![p]);
    } else {
        match body(p) {
            Some(n) => if n < p || n > end || (n == p && c >= min) {
                assert(t == seq![p]);
            } else {
                lemma_trail_bounds(body, min, cap, end, n, c + 1, lo, hi);
                let t1 = rep_trail(body, min, cap, end, n, c + 1);
                assert(t == seq![p] + t1);
                assert forall|k: int| 0 <= k < t.len() implies p + k * lo <= #[trigger] t[k] && (
                hi matches Some(h) ==> t[k] <= p + k * h) by {
                    if k > 0 {
                        assert(t[k] == t1[k - 1]);
                        assert(n + (k - 1) * lo <= t1[k - 1]);
                        assert(p + k * lo <= n + (k - 1) * lo) by (nonlinear_arith)
                            requires
                                p + lo <= n,
                        ;
                        match hi {
                            Some(h) => {
                                assert(t1[k - 1] <= n + (k - 1) * h);
                                assert(n + (k - 1) * h <= p + k * h) by (nonlinear_arith)
                                    requires
                                        n <= p + h,
                                ;
                            },
                            None => {},
                        }
                    }
                }
            },
            None => {
                assert(t == seq![p]);
            },
        }
    }
}

/// A greedy choice that finds a match found it after some round count
/// from `min` to `k`.
pub proof fn lemma_pick_down_round(t: Seq<int>, rest: spec_fn(int) -> Option<int>, min: int, k: int)
    requires
        pick_down(t, rest, min, k) is Some,
    ensures
        exists|j: int| min <= j <= k && 0 <= j < t.len() && rest(t[j]) == pick_down(t, rest, min, k),
    decreases k + 1,
{
    if !(k < min || k < 0 || k >= t.len()) {
        if rest(t[k]) is None {
            lemma_pick_down_round(t, rest, min, k - 1);
        }
    }
}

/// A lazy choice that finds a match found it after some round count from
/// `k` on.
pub proof fn lemma_pick_up_round(t: Seq<int>, rest: spec_fn(int) -> Option<int>, k: int)
    requires
        pick_up(t, rest, k) is Some,
    ensures
        exists|j: int| k <= j && 0 <= j < t.len() && rest(t[j]) == pick_up(t, rest, k),
    decreases t.len() - k,
{
    if !(k < 0 || k >= t.len()) {
        if rest(t[k]) is None {
            lemma_pick_up_round(t, rest, k + 1);
        }
    }
}

/// The places a repetition of `body` from `pos` passes through, with the
/// round limit `rep_end` uses.
pub open spec fn rep_rounds(
    body: spec_fn(int) -> Option<int>,
    min: u32,
    max: Option<u32>,
    possessive: bool,
    pos: int,
    end: int,
) -> Seq<int> {
    let cap: int = match max {
        Some(m) => m as int,
        None => u32::MAX as int,
    };
    rep_trail(body, min as int, if possessive && cap < min { min as int } else { cap }, end, pos, 0)
}

/// A repetition that matches does so by going on with `rest` after some
/// number of rounds, at least `min`, of the rounds its trail lists.
pub proof fn lemma_rep_end_round(
    body: spec_fn(int) -> Option<int>,
    rest: spec_fn(int) -> Option<int>,
    min: u32,
    max: Option<u32>,
    greedy: bool,
    possessive: bool,
    pos: int,
    end: int,
)
    requires
        rep_end(body, rest, min, max, greedy, possessive, pos, end) is Some,
    ensures
        exists|j: int|
            min <= j < rep_rounds(body, min, max, possessive, pos, end).len() && rest(
                #[trigger] rep_rounds(body, min, max, possessive, pos, end)[j],
            ) == rep_end(body, rest, min, max, greedy, possessive, pos, end),
{
    let cap: int = match max {
        Some(m) => m as int,
        None => u32::MAX as int,
    };
    let t = rep_rounds(body, min, max, possessive, pos, end);
    let r = rep_end(body, rest, min, max, greedy, possessive, pos, end);
    if possessive {
        assert(!(t.len() - 1 < min));
        assert(rest(t.last()) == r);
        assert(rest(t[t.len() - 1]) == r);
        let j = t.len() - 1;
        assert(min <= j < t.len() && rest(t[j]) == r);
    } else if greedy {
        assert(r == pick_down(t, rest, min as int, t.len() - 1));
        lemma_pick_down_round(t, rest, min as int, t.len() - 1);
        let j = choose|j: int|
            min <= j <= t.len() - 1 && 0 <= j < t.len() && rest(t[j]) == pick_down(
                t,
                rest,
                min as int,
                t.len() - 1,
            );
        assert(min <= j < t.len() && rest(t[j]) == r);
    } else {
        assert(r == pick_up(t, rest, min as int));
        lemma_pick_up_round(t, rest, min as int);
        let j = choose|j: int| min <= j && 0 <= j < t.len() && rest(t[j]) == pick_up(t, rest, min as int);
        assert(min <= j < t.len() && rest(t[j]) == r);
    }
}

/// The first match of `rest` from the places `trail` lists, at least `min`
/// rounds in: the last place first when greedy, the first when lazy.
pub open spec fn picked(trail: Seq<int>, rest: spec_fn(int) -> Option<int>, min: int, greedy: bool) -> Option<int> {
    if greedy {
        pick_down(trail, rest, min, trail.len() - 1)
    } else {
        pick_up(trail, rest, min)
    }
}

/// The places `pos`, `pos + 1`, .. `pos + n`.
pub open spec fn steps_from(pos: int, n: int) -> Seq<int> {
    Seq::new((n + 1) as nat, |k: int| pos + k)
}

/// The places of `v`, as integers.
pub open spec fn as_ints(v: Seq<usize>) -> Seq<int> {
    v.map_values(|x: usize| x as int)
}

/// Byte `b` can begin a character whose code point is `cp`: the byte is the
/// code point when that is ASCII, and a non-ASCII byte otherwise.
pub open spec fn byte_may_start(b: u8, cp: u32) -> bool {
    if cp < 0x80 {
        b as u32 == cp
    } else {
        b >= 0x80
    }
}

/// In an encoding whose characters can be one byte long, the first byte of a
/// character read at `pos` is ASCII exactly when its code point is, and an
/// ASCII character is one byte long.
pub proof fn lemma_first_byte(enc: Encoding, hay: Seq<u8>, pos: int, end: int)
    requires
        enc.min_len_spec() == 1,
        char_at_spec(enc, hay, pos, end) is Some,
    ensures
        0 <= pos < hay.len(),
        match char_at_spec(enc, hay, pos, end) {
            Some((cp, n)) => byte_may_start(hay[pos], cp) && (cp < 0x80 ==> n == 1),
            None => true,
        },
{
    let rest = hay.subrange(pos, end);
    assert(rest[0] == hay[pos]);
    let (cp, n) = char_at_spec(enc, hay, pos, end)->0;
    let b0 = rest[0];
    if enc == Encoding::UTF8 {
        if n == 2 {
            let b1 = rest[1];
            assert(0xC2 <= b0 <= 0xDF ==> ((((b0 & 0x1F) as u32) << 6u32) | ((b1 & 0x3F) as u32))
                >= 0x80) by (bit_vector);
        } else if n == 1 {
            assert(b0 < 0x80);
        }
        assert(n >= 2 ==> cp >= 0x80);
    }
}

} // verus!
